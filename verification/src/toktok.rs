//! The Toktok tokenizer: a cascade of regular-expression rewrites that set
//! punctuation apart by spaces, and the look-around rewrites written out by hand.
use vstd::prelude::*;
use crate::api::{spans_view, TokenizerI};
use crate::destructive::{align_tokens, alignment, try_align_tokens};
use crate::rx::{regex_compiles, regex_replace_all, rsub, subst};
use crate::text::{
    chars_of, is_ws, lemma_non_ws_add, lemma_trim_end_prefix, non_ws, push_all, replace_chars, replace_seq, slice_chars, split_ws,
    split_ws_acc, split_ws_strings, str_views, string_of, trim, trim_chars, trim_end, trim_end_chars,
    trim_start,
};

verus! {

pub const RE_NON_BREAKING: &'static str = "\u{00A0}";
pub const RE_FUNKY_1: &'static str = r#"([،;؛¿!""\])}»›”؟¡%٪°±©®।॥…])"#;
pub const RE_FUNKY_2: &'static str = r"([({\[ˮ“‘„‚«‹「『])";
pub const RE_DASHES: &'static str = r"([–—])";
pub const RE_PIPE: &'static str = r"\|";
pub const RE_OPEN_PUNCT: &'static str = r"([{\u{0f3a}\u{0f3c}\u{169b}\u{201a}\u{201e}\u{2045}\u{207d}\u{208d}\u{2329}\u{2768}\u{276a}\u{276c}\u{276e}\u{2770}\u{2772}\u{2774}\u{27c5}\u{27e6}\u{27e8}\u{27ea}\u{27ec}\u{27ee}\u{2983}\u{2985}\u{2987}\u{2989}\u{298b}\u{298d}\u{298f}\u{2991}\u{2993}\u{2995}\u{2997}\u{29d8}\u{29da}\u{29fc}\u{2e22}\u{2e24}\u{2e26}\u{2e28}\u{3008}\u{300a}\u{300c}\u{300e}\u{3010}\u{3014}\u{3016}\u{3018}\u{301a}\u{301d}\u{fd3e}\u{fe17}\u{fe35}\u{fe37}\u{fe39}\u{fe3b}\u{fe3d}\u{fe3f}\u{fe41}\u{fe43}\u{fe47}\u{fe59}\u{fe5b}\u{fe5d}\u{ff08}\u{ff3b}\u{ff5b}\u{ff5f}\u{ff62}])";
pub const RE_CLOSE_PUNCT: &'static str = r"([\]\)}\u{0f3b}\u{0f3d}\u{169c}\u{2046}\u{207e}\u{208e}\u{232a}\u{2769}\u{276b}\u{276d}\u{276f}\u{2771}\u{2773}\u{2775}\u{27c6}\u{27e7}\u{27e9}\u{27eb}\u{27ed}\u{27ef}\u{2984}\u{2986}\u{2988}\u{298a}\u{298c}\u{298e}\u{2990}\u{2992}\u{2994}\u{2996}\u{2998}\u{29d9}\u{29db}\u{29fd}\u{2e23}\u{2e25}\u{2e27}\u{2e29}\u{3009}\u{300b}\u{300d}\u{300f}\u{3011}\u{3015}\u{3017}\u{3019}\u{301b}\u{301e}\u{301f}\u{fd3f}\u{fe18}\u{fe36}\u{fe38}\u{fe3a}\u{fe3c}\u{fe3e}\u{fe40}\u{fe42}\u{fe44}\u{fe48}\u{fe5a}\u{fe5c}\u{fe5e}\u{ff09}\u{ff3d}\u{ff5d}\u{ff60}\u{ff63}])";
pub const RE_CURRENCY: &'static str = "([$\u{00a2}\u{00a3}\u{00a4}\u{00a5}\u{058f}\u{060b}\u{09f2}\u{09f3}\u{09fb}\u{0af1}\u{0bf9}\u{0e3f}\u{17db}\u{20a0}\u{20a1}\u{20a2}\u{20a3}\u{20a4}\u{20a5}\u{20a6}\u{20a7}\u{20a8}\u{20a9}\u{20aa}\u{20ab}\u{20ac}\u{20ad}\u{20ae}\u{20af}\u{20b0}\u{20b1}\u{20b2}\u{20b3}\u{20b4}\u{20b5}\u{20b6}\u{20b7}\u{20b8}\u{20b9}\u{20ba}\u{a838}\u{fdfc}\u{fe69}\u{ff04}\u{ffe0}\u{ffe1}\u{ffe5}\u{ffe6}])";
pub const RE_QUOTE: &'static str = r"(['’`])";
pub const RE_STUPID_1: &'static str = r" ` ` ";
pub const RE_STUPID_2: &'static str = r" ' ' ";
pub const RE_MULTI_COMMA: &'static str = r"(,{2,})";
pub const RE_MULTI_DASH: &'static str = r"(-{2,})";
pub const RE_MULTI_DOTS: &'static str = r"(\.{2,})";
pub const RE_ONE_SPACE: &'static str = r" {2,}";

// ---------------------------------------------------------------------------
// Character-by-character rewrites
// ---------------------------------------------------------------------------
/// What character `i` of `s` becomes in `expand_colon`: a colon is set apart by
/// spaces unless `//` follows it (a URL).
pub open spec fn colon_piece(s: Seq<char>, i: int) -> Seq<char> {
    if s[i] == ':' {
        if i + 2 < s.len() && s[i + 1] == '/' && s[i + 2] == '/' {
            seq![':']
        } else {
            seq![' ', ':', ' ']
        }
    } else {
        seq![s[i]]
    }
}

/// The rewrite of the first `n` characters of `s` by `colon_piece`.
pub open spec fn colon_upto(s: Seq<char>, n: int) -> Seq<char>
    decreases n,
{
    if n <= 0 {
        seq![]
    } else {
        colon_upto(s, n - 1) + colon_piece(s, n - 1)
    }
}

/// What character `i` of `s` becomes in `expand_question`: a question mark at the
/// end or before a space, tab or line break is set apart by spaces.
pub open spec fn question_piece(s: Seq<char>, i: int) -> Seq<char> {
    if s[i] == '?' {
        if i + 1 >= s.len() || s[i + 1] == ' ' || s[i + 1] == '\t' || s[i + 1] == '\n' || s[i + 1]
            == '\r' {
            seq![' ', '?', ' ']
        } else {
            seq!['?']
        }
    } else {
        seq![s[i]]
    }
}

pub open spec fn question_upto(s: Seq<char>, n: int) -> Seq<char>
    decreases n,
{
    if n <= 0 {
        seq![]
    } else {
        question_upto(s, n - 1) + question_piece(s, n - 1)
    }
}

/// `,` or the Arabic comma `،`.
pub open spec fn is_comma(c: char) -> bool {
    c == ',' || c == '،'
}

/// What character `i` of `s` becomes in `expand_comma_not_in_num`: a comma is set
/// apart by spaces unless a comma comes just before it or a comma or an ASCII digit
/// just after it.
pub open spec fn comma_piece(s: Seq<char>, i: int) -> Seq<char> {
    if is_comma(s[i]) {
        let prev_comma = i > 0 && is_comma(s[i - 1]);
        let next_comma_or_digit = i + 1 < s.len() && (is_comma(s[i + 1]) || ('0' <= s[i + 1]
            && s[i + 1] <= '9'));
        if !prev_comma && !next_comma_or_digit {
            seq![' ', s[i], ' ']
        } else {
            seq![s[i]]
        }
    } else {
        seq![s[i]]
    }
}

pub open spec fn comma_upto(s: Seq<char>, n: int) -> Seq<char>
    decreases n,
{
    if n <= 0 {
        seq![]
    } else {
        comma_upto(s, n - 1) + comma_piece(s, n - 1)
    }
}

/// The quotes that may follow a final period.
pub open spec fn final_quote(c: char) -> bool {
    c == '"' || c == '\'' || c == '’' || c == '»' || c == '›' || c == '”'
}

/// `s` ends in a period that does not follow another period.
pub open spec fn ends_single_period(s: Seq<char>) -> bool {
    s.len() >= 1 && s.last() == '.' && !(s.len() >= 2 && s[s.len() - 2] == '.')
}

/// The final period of the text (before trailing whitespace, and possibly
/// followed by a closing quote) set apart: `x.` becomes `x .` and `x. "` becomes
/// `x . "`; the trailing whitespace stays.
pub open spec fn final_period(s: Seq<char>) -> Seq<char> {
    let t = trim_end(s);
    let trailing = s.subrange(t.len() as int, s.len() as int);
    if ends_single_period(t) {
        t.drop_last() + seq![' ', '.'] + trailing
    } else if t.len() >= 1 && final_quote(t.last()) && ends_single_period(
        trim_end(t.drop_last()),
    ) {
        trim_end(t.drop_last()).drop_last() + seq![' ', '.', ' ', t.last()] + trailing
    } else {
        s
    }
}

/// The Toktok rewrite cascade; the tokens are this text split at whitespace.
pub open spec fn toktok_text(text: Seq<char>) -> Seq<char> {
    let s = rsub(RE_NON_BREAKING@, text, " "@);
    let s = rsub(RE_FUNKY_1@, s, " $1 "@);
    let s = rsub(RE_FUNKY_2@, s, " $1 "@);
    let s = colon_upto(s, s.len() as int);
    let s = question_upto(s, s.len() as int);
    let s = replace_seq(s, "& "@, "&amp; "@);
    let s = replace_seq(s, "\t"@, " &#9; "@);
    let s = rsub(RE_PIPE@, s, " &#124; "@);
    let s = rsub(RE_OPEN_PUNCT@, s, "$1 "@);
    let s = rsub(RE_CLOSE_PUNCT@, s, " $1 "@);
    let s = rsub(RE_MULTI_COMMA@, s, " $1 "@);
    let s = comma_upto(s, s.len() as int);
    let s = rsub(RE_QUOTE@, s, " $1 "@);
    let s = rsub(RE_STUPID_1@, s, " `` "@);
    let s = rsub(RE_STUPID_2@, s, " '' "@);
    let s = rsub(RE_CURRENCY@, s, "$1 "@);
    let s = rsub(RE_DASHES@, s, " $1 "@);
    let s = rsub(RE_MULTI_DASH@, s, " $1 "@);
    let s = rsub(RE_MULTI_DOTS@, s, " $1 "@);
    let s = final_period(s);
    let s = rsub(RE_ONE_SPACE@, s, " "@);
    trim(s)
}

/// The Toktok tokens of `text`.
pub open spec fn toktok_tokens(text: Seq<char>) -> Seq<Seq<char>> {
    split_ws(toktok_text(text))
}

/// Sets colons apart by spaces, except in `://`.
pub fn expand_colon(s: &str) -> (r: String)
    ensures
        r@ == colon_upto(s@, s@.len() as int),
{
    let v = chars_of(s);
    let n = v.len();
    let mut out: Vec<char> = Vec::new();
    let mut i: usize = 0;
    while i < n
        invariant
            n == v.len(),
            v@ == s@,
            i <= n,
            out@ == colon_upto(v@, i as int),
        decreases n - i,
    {
        let ghost o = out@;
        if v[i] == ':' {
            if n - i > 2 && v[i + 1] == '/' && v[i + 2] == '/' {
                out.push(':');
            } else {
                out.push(' ');
                out.push(':');
                out.push(' ');
            }
        } else {
            out.push(v[i]);
        }
        assert(out@ =~= o + colon_piece(v@, i as int));
        i = i + 1;
    }
    string_of(out.as_slice())
}

/// Sets apart a question mark that ends the text or comes before a space, tab or
/// line break.
pub fn expand_question(s: &str) -> (r: String)
    ensures
        r@ == question_upto(s@, s@.len() as int),
{
    let v = chars_of(s);
    let n = v.len();
    let mut out: Vec<char> = Vec::new();
    let mut i: usize = 0;
    while i < n
        invariant
            n == v.len(),
            v@ == s@,
            i <= n,
            out@ == question_upto(v@, i as int),
        decreases n - i,
    {
        let ghost o = out@;
        if v[i] == '?' {
            if i + 1 >= n || v[i + 1] == ' ' || v[i + 1] == '\t' || v[i + 1] == '\n' || v[i + 1]
                == '\r' {
                out.push(' ');
                out.push('?');
                out.push(' ');
            } else {
                out.push('?');
            }
        } else {
            out.push(v[i]);
        }
        assert(out@ =~= o + question_piece(v@, i as int));
        i = i + 1;
    }
    string_of(out.as_slice())
}

fn char_is_comma(c: char) -> (b: bool)
    ensures
        b == is_comma(c),
{
    c == ',' || c == '،'
}

/// Sets apart a comma that is not inside a number or a run of commas.
pub fn expand_comma_not_in_num(s: &str) -> (r: String)
    ensures
        r@ == comma_upto(s@, s@.len() as int),
{
    let v = chars_of(s);
    let n = v.len();
    let mut out: Vec<char> = Vec::new();
    let mut i: usize = 0;
    while i < n
        invariant
            n == v.len(),
            v@ == s@,
            i <= n,
            out@ == comma_upto(v@, i as int),
        decreases n - i,
    {
        let ghost o = out@;
        let c = v[i];
        if char_is_comma(c) {
            let prev_comma = i > 0 && char_is_comma(v[i - 1]);
            let next_comma_or_digit = i + 1 < n && (char_is_comma(v[i + 1]) || ('0' <= v[i + 1]
                && v[i + 1] <= '9'));
            if !prev_comma && !next_comma_or_digit {
                out.push(' ');
                out.push(c);
                out.push(' ');
            } else {
                out.push(c);
            }
        } else {
            out.push(c);
        }
        assert(out@ =~= o + comma_piece(v@, i as int));
        i = i + 1;
    }
    string_of(out.as_slice())
}

fn ends_single_period_exec(t: &Vec<char>) -> (b: bool)
    ensures
        b == ends_single_period(t@),
{
    let n = t.len();
    n >= 1 && t[n - 1] == '.' && !(n >= 2 && t[n - 2] == '.')
}

/// Sets the final period apart (see `final_period`).
pub fn handle_final_period(s: &str) -> (r: String)
    ensures
        r@ == final_period(s@),
{
    let v = chars_of(s);
    let t = trim_end_chars(&v);
    proof {
        lemma_trim_end_prefix(v@);
    }
    let trailing = slice_chars(&v, t.len(), v.len());
    let tl = t.len();
    if ends_single_period_exec(&t) {
        let mut out = slice_chars(&t, 0, tl - 1);
        out.push(' ');
        out.push('.');
        push_all(&mut out, &trailing);
        assert(out@ =~= t@.drop_last() + seq![' ', '.'] + trailing@);
        return string_of(out.as_slice());
    }
    if tl >= 1 {
        let q = t[tl - 1];
        if q == '"' || q == '\'' || q == '’' || q == '»' || q == '›' || q == '”' {
            let pre = slice_chars(&t, 0, tl - 1);
            assert(pre@ =~= t@.drop_last());
            let b = trim_end_chars(&pre);
            if ends_single_period_exec(&b) {
                let mut out = slice_chars(&b, 0, b.len() - 1);
                out.push(' ');
                out.push('.');
                out.push(' ');
                out.push(q);
                push_all(&mut out, &trailing);
                assert(out@ =~= b@.drop_last() + seq![' ', '.', ' ', q] + trailing@);
                return string_of(out.as_slice());
            }
        }
    }
    s.to_owned()
}

fn replace_str(s: &str, pat: &str, rep: &str) -> (r: String)
    ensures
        r@ == replace_seq(s@, pat@, rep@),
{
    let v = chars_of(s);
    let p = chars_of(pat);
    let q = chars_of(rep);
    let o = replace_chars(&v, &p, &q);
    string_of(o.as_slice())
}

/// The Toktok rewrite cascade, the result trimmed.
pub fn tokenize_inner(text: &str) -> (r: String)
    ensures
        r@ == toktok_text(text@),
{
    let s = subst(RE_NON_BREAKING, text, " ");
    let s = subst(RE_FUNKY_1, s.as_str(), " $1 ");
    let s = subst(RE_FUNKY_2, s.as_str(), " $1 ");
    let s = expand_colon(s.as_str());
    let s = expand_question(s.as_str());
    let s = replace_str(s.as_str(), "& ", "&amp; ");
    let s = replace_str(s.as_str(), "\t", " &#9; ");
    let s = subst(RE_PIPE, s.as_str(), " &#124; ");
    let s = subst(RE_OPEN_PUNCT, s.as_str(), "$1 ");
    let s = subst(RE_CLOSE_PUNCT, s.as_str(), " $1 ");
    let s = subst(RE_MULTI_COMMA, s.as_str(), " $1 ");
    let s = expand_comma_not_in_num(s.as_str());
    let s = subst(RE_QUOTE, s.as_str(), " $1 ");
    let s = subst(RE_STUPID_1, s.as_str(), " `` ");
    let s = subst(RE_STUPID_2, s.as_str(), " '' ");
    let s = subst(RE_CURRENCY, s.as_str(), "$1 ");
    let s = subst(RE_DASHES, s.as_str(), " $1 ");
    let s = subst(RE_MULTI_DASH, s.as_str(), " $1 ");
    let s = subst(RE_MULTI_DOTS, s.as_str(), " $1 ");
    let s = handle_final_period(s.as_str());
    let s = subst(RE_ONE_SPACE, s.as_str(), " ");
    let v = chars_of(s.as_str());
    let t = trim_chars(&v);
    string_of(t.as_slice())
}

pub struct ToktokTokenizer;

impl ToktokTokenizer {
    pub fn new() -> (r: Self)
        ensures
            r == (ToktokTokenizer),
    {
        ToktokTokenizer
    }

    /// With `return_str`, the rewritten text as the one item; otherwise the
    /// tokens.
    pub fn tokenize_with_flag(&self, text: &str, return_str: bool) -> (r: Vec<String>)
        ensures
            return_str ==> str_views(r@) == seq![toktok_text(text@)],
            !return_str ==> str_views(r@) == toktok_tokens(text@),
    {
        let s = tokenize_inner(text);
        if return_str {
            let mut v: Vec<String> = Vec::new();
            v.push(s);
            assert(str_views(v@) =~= seq![toktok_text(text@)]);
            v
        } else {
            split_ws_strings(s.as_str())
        }
    }

    /// The rewritten text, tokens separated by single spaces.
    pub fn tokenize_str(&self, text: &str) -> (r: String)
        ensures
            r@ == toktok_text(text@),
    {
        tokenize_inner(text)
    }

    /// The token spans, or `None` where some token is not found in `s` after the
    /// one before it.
    pub fn try_span_tokenize(&self, s: &str) -> (r: Option<Vec<(usize, usize)>>)
        ensures
            r is Some <==> alignment(toktok_tokens(s@), s@) is Some,
            r matches Some(v) ==> spans_view(v@) == alignment(toktok_tokens(s@), s@).unwrap(),
    {
        let toks = self.tokenize_with_flag(s, false);
        if try_align_tokens(toks.as_slice(), s).is_some() {
            Some(self.span_tokenize(s))
        } else {
            None
        }
    }
}

impl Default for ToktokTokenizer {
    fn default() -> (r: Self)
        ensures
            r == (ToktokTokenizer),
    {
        ToktokTokenizer
    }
}

impl TokenizerI for ToktokTokenizer {
    open spec fn accepts(&self, s: Seq<char>) -> bool {
        true
    }

    open spec fn tokens_of(&self, s: Seq<char>) -> Seq<Seq<char>> {
        toktok_tokens(s)
    }

    open spec fn spans_ok(&self, s: Seq<char>) -> bool {
        alignment(toktok_tokens(s), s) is Some
    }

    open spec fn spans_of(&self, s: Seq<char>) -> Seq<(int, int)> {
        alignment(toktok_tokens(s), s).unwrap()
    }

    fn tokenize(&self, s: &str) -> (r: Vec<String>) {
        let t = tokenize_inner(s);
        split_ws_strings(t.as_str())
    }

    fn span_tokenize(&self, s: &str) -> (r: Vec<(usize, usize)>) {
        let toks = TokenizerI::tokenize(self, s);
        align_tokens(toks.as_slice(), s)
    }
}

/// The Toktok tokens of `text`.
pub fn toktok_tokenize(text: &str) -> (r: Vec<String>)
    ensures
        str_views(r@) == toktok_tokens(text@),
{
    TokenizerI::tokenize(&ToktokTokenizer, text)
}


// ---------------------------------------------------------------------------
// The look-around rewrites only add or remove whitespace
// ---------------------------------------------------------------------------
/// A piece that is one character, possibly with spaces around it, holds the same
/// non-whitespace text as that character.
proof fn lemma_non_ws_spaced(c: char)
    ensures
        non_ws(seq![' ', c, ' ']) == non_ws(seq![c]),
        non_ws(seq![' ', c]) == non_ws(seq![c]),
{
    assert(seq![' ', c, ' '].drop_first() =~= seq![c, ' ']);
    assert(seq![c, ' '] =~= seq![c] + seq![' ']);
    lemma_non_ws_add(seq![c], seq![' ']);
    assert(seq![' '].drop_first() =~= Seq::<char>::empty());
    assert(seq![' '][0] == ' ');
    assert(is_ws(' '));
    assert(non_ws(Seq::<char>::empty()) =~= Seq::<char>::empty());
    assert(non_ws(seq![' ']) == non_ws(seq![' '].drop_first()));
    assert(non_ws(seq![' ']) =~= Seq::<char>::empty());
    assert(seq![' ', c, ' '][0] == ' ');
    assert(seq![' ', c][0] == ' ');
    assert(seq![' ', c].drop_first() =~= seq![c]);
    assert(non_ws(seq![c]) + Seq::<char>::empty() =~= non_ws(seq![c]));
}

proof fn lemma_colon_upto_text(s: Seq<char>, n: int)
    requires
        0 <= n <= s.len(),
    ensures
        non_ws(colon_upto(s, n)) == non_ws(s.take(n)),
    decreases n,
{
    if n > 0 {
        lemma_colon_upto_text(s, n - 1);
        lemma_non_ws_add(colon_upto(s, n - 1), colon_piece(s, n - 1));
        assert(s.take(n) =~= s.take(n - 1) + seq![s[n - 1]]);
        lemma_non_ws_add(s.take(n - 1), seq![s[n - 1]]);
        lemma_non_ws_spaced(s[n - 1]);
    } else {
        assert(s.take(0) =~= Seq::<char>::empty());
    }
}

proof fn lemma_question_upto_text(s: Seq<char>, n: int)
    requires
        0 <= n <= s.len(),
    ensures
        non_ws(question_upto(s, n)) == non_ws(s.take(n)),
    decreases n,
{
    if n > 0 {
        lemma_question_upto_text(s, n - 1);
        lemma_non_ws_add(question_upto(s, n - 1), question_piece(s, n - 1));
        assert(s.take(n) =~= s.take(n - 1) + seq![s[n - 1]]);
        lemma_non_ws_add(s.take(n - 1), seq![s[n - 1]]);
        lemma_non_ws_spaced(s[n - 1]);
    } else {
        assert(s.take(0) =~= Seq::<char>::empty());
    }
}

proof fn lemma_comma_upto_text(s: Seq<char>, n: int)
    requires
        0 <= n <= s.len(),
    ensures
        non_ws(comma_upto(s, n)) == non_ws(s.take(n)),
    decreases n,
{
    if n > 0 {
        lemma_comma_upto_text(s, n - 1);
        lemma_non_ws_add(comma_upto(s, n - 1), comma_piece(s, n - 1));
        assert(s.take(n) =~= s.take(n - 1) + seq![s[n - 1]]);
        lemma_non_ws_add(s.take(n - 1), seq![s[n - 1]]);
        lemma_non_ws_spaced(s[n - 1]);
    } else {
        assert(s.take(0) =~= Seq::<char>::empty());
    }
}

/// Text made only of whitespace has no non-whitespace text.
proof fn lemma_non_ws_blank(w: Seq<char>)
    requires
        forall|k: int| 0 <= k < w.len() ==> is_ws(#[trigger] w[k]),
    ensures
        non_ws(w) == Seq::<char>::empty(),
    decreases w.len(),
{
    if w.len() > 0 {
        assert(is_ws(w[0]));
        assert forall|k: int| 0 <= k < w.drop_first().len() implies is_ws(#[trigger] w.drop_first()[k]) by {
            assert(w.drop_first()[k] == w[k + 1]);
        }
        lemma_non_ws_blank(w.drop_first());
    }
}

/// The character-by-character rewrites of Toktok (colons, question marks,
/// commas) and the final-period rewrite only add or remove whitespace: the
/// non-whitespace text stays as it was.
pub proof fn lemma_lookaround_rewrites_keep_text(s: Seq<char>)
    ensures
        non_ws(colon_upto(s, s.len() as int)) == non_ws(s),
        non_ws(question_upto(s, s.len() as int)) == non_ws(s),
        non_ws(comma_upto(s, s.len() as int)) == non_ws(s),
        non_ws(final_period(s)) == non_ws(s),
{
    assert(s.take(s.len() as int) =~= s);
    lemma_colon_upto_text(s, s.len() as int);
    lemma_question_upto_text(s, s.len() as int);
    lemma_comma_upto_text(s, s.len() as int);
    let t = trim_end(s);
    lemma_trim_end_prefix(s);
    let trailing = s.subrange(t.len() as int, s.len() as int);
    assert(s =~= t + trailing);
    if ends_single_period(t) {
        assert(t =~= t.drop_last() + seq!['.']);
        lemma_non_ws_add(t.drop_last() + seq![' ', '.'], trailing);
        lemma_non_ws_add(t.drop_last(), seq![' ', '.']);
        lemma_non_ws_add(t, trailing);
        lemma_non_ws_add(t.drop_last(), seq!['.']);
        lemma_non_ws_spaced('.');
    } else if t.len() >= 1 && final_quote(t.last()) && ends_single_period(trim_end(t.drop_last())) {
        let q = t.last();
        let u = t.drop_last();
        let b = trim_end(u);
        lemma_trim_end_prefix(u);
        let ws = u.subrange(b.len() as int, u.len() as int);
        assert(u =~= b + ws);
        assert forall|k: int| 0 <= k < ws.len() implies is_ws(#[trigger] ws[k]) by {
            assert(ws[k] == u[b.len() + k]);
        }
        lemma_non_ws_blank(ws);
        assert(t =~= b.drop_last() + seq!['.'] + ws + seq![q]);
        lemma_non_ws_add(b.drop_last() + seq!['.'] + ws, seq![q]);
        lemma_non_ws_add(b.drop_last() + seq!['.'], ws);
        lemma_non_ws_add(b.drop_last(), seq!['.']);
        lemma_non_ws_add(t, trailing);
        let r = b.drop_last() + seq![' ', '.', ' ', q];
        assert(r =~= b.drop_last() + seq![' ', '.', ' '] + seq![q]);
        lemma_non_ws_add(b.drop_last() + seq![' ', '.', ' '], seq![q]);
        lemma_non_ws_add(b.drop_last(), seq![' ', '.', ' ']);
        lemma_non_ws_spaced('.');
        lemma_non_ws_add(r, trailing);
        assert(non_ws(b.drop_last()) + non_ws(seq!['.']) + Seq::<char>::empty() =~= non_ws(b.drop_last()) + non_ws(seq!['.']));
    }
}

// ---------------------------------------------------------------------------
// Quotes are set apart
// ---------------------------------------------------------------------------
/// A quote that Toktok sets apart: `'`, `’` or a backquote.
pub open spec fn quote_char(c: char) -> bool {
    c == '\'' || c == '’' || c == '`'
}

/// A quote directly beside a character that is neither a quote nor whitespace.
pub open spec fn quote_touches(a: char, b: char) -> bool {
    (quote_char(a) && !quote_char(b) && !is_ws(b)) || (quote_char(b) && !quote_char(a) && !is_ws(a))
}

/// No quote of `x` touches a character other than a quote or whitespace.
pub open spec fn quotes_apart(x: Seq<char>) -> bool {
    forall|i: int| 0 <= i < x.len() - 1 ==> !quote_touches(#[trigger] x[i], x[i + 1])
}

/// What replacing every match of `(['’`])` by ` $1 ` makes of `u`, as the
/// pattern reads: each quote gets a space on each side.
pub open spec fn pad_quotes(u: Seq<char>) -> Seq<char>
    decreases u.len(),
{
    if u.len() == 0 {
        seq![]
    } else if quote_char(u[0]) {
        seq![' ', u[0], ' '] + pad_quotes(u.drop_first())
    } else {
        seq![u[0]] + pad_quotes(u.drop_first())
    }
}

/// `v` is `u` with spaces put in: what a replacement that only adds spaces
/// around its matches (` $1 `, `$1 `) does.
pub open spec fn spaces_inserted(u: Seq<char>, v: Seq<char>) -> bool
    decreases v.len(),
{
    if v.len() == 0 {
        u.len() == 0
    } else {
        (u.len() > 0 && v[0] == u[0] && spaces_inserted(u.drop_first(), v.drop_first())) || (v[0]
            == ' ' && spaces_inserted(u, v.drop_first()))
    }
}

/// What replacing every run of two or more spaces by one space makes of `u`.
pub open spec fn collapse_spaces(u: Seq<char>) -> Seq<char>
    decreases u.len(),
{
    if u.len() == 0 {
        seq![]
    } else if u.len() >= 2 && u[0] == ' ' && u[1] == ' ' {
        collapse_spaces(u.drop_first())
    } else {
        seq![u[0]] + collapse_spaces(u.drop_first())
    }
}

proof fn lemma_qa_sub(x: Seq<char>, a: int, b: int)
    requires
        0 <= a <= b <= x.len(),
        quotes_apart(x),
    ensures
        quotes_apart(x.subrange(a, b)),
{
    let y = x.subrange(a, b);
    assert forall|i: int| 0 <= i < y.len() - 1 implies !quote_touches(#[trigger] y[i], y[i + 1]) by {
        assert(y[i] == x[a + i] && y[i + 1] == x[a + i + 1]);
    }
}

proof fn lemma_qa_concat(x: Seq<char>, y: Seq<char>)
    requires
        quotes_apart(x),
        quotes_apart(y),
        x.len() > 0 && y.len() > 0 ==> !quote_touches(x.last(), y[0]),
    ensures
        quotes_apart(x + y),
{
    let z = x + y;
    assert forall|i: int| 0 <= i < z.len() - 1 implies !quote_touches(#[trigger] z[i], z[i + 1]) by {
        if i + 1 < x.len() {
            assert(z[i] == x[i] && z[i + 1] == x[i + 1]);
        } else if i >= x.len() {
            assert(z[i] == y[i - x.len()] && z[i + 1] == y[i + 1 - x.len()]);
        } else {
            assert(z[i] == x.last() && z[i + 1] == y[0]);
        }
    }
}

proof fn lemma_pad_quotes_first(u: Seq<char>)
    requires
        u.len() > 0,
    ensures
        pad_quotes(u).len() > 0,
        pad_quotes(u)[0] == (if quote_char(u[0]) {
            ' '
        } else {
            u[0]
        }),
{
}

proof fn lemma_pad_quotes_apart(u: Seq<char>)
    ensures
        quotes_apart(pad_quotes(u)),
    decreases u.len(),
{
    if u.len() > 0 {
        let r = pad_quotes(u.drop_first());
        lemma_pad_quotes_apart(u.drop_first());
        if u.drop_first().len() > 0 {
            lemma_pad_quotes_first(u.drop_first());
        }
        if quote_char(u[0]) {
            let b = seq![' ', u[0], ' '];
            assert(quotes_apart(b)) by {
                assert forall|i: int| 0 <= i < b.len() - 1 implies !quote_touches(#[trigger] b[i], b[i + 1]) by {
                }
            }
            lemma_qa_concat(b, r);
        } else {
            lemma_qa_concat(seq![u[0]], r);
        }
    }
}

proof fn lemma_spaces_inserted_first(u: Seq<char>, v: Seq<char>)
    requires
        spaces_inserted(u, v),
    ensures
        v.len() == 0 ==> u.len() == 0,
        v.len() > 0 ==> v[0] == ' ' || (u.len() > 0 && v[0] == u[0]),
{
}

proof fn lemma_spaces_inserted_apart(u: Seq<char>, v: Seq<char>)
    requires
        spaces_inserted(u, v),
        quotes_apart(u),
    ensures
        quotes_apart(v),
    decreases v.len(),
{
    if v.len() > 0 {
        let v2 = v.drop_first();
        if u.len() > 0 && v[0] == u[0] && spaces_inserted(u.drop_first(), v2) {
            let u2 = u.drop_first();
            lemma_qa_sub(u, 1, u.len() as int);
            assert(u.subrange(1, u.len() as int) =~= u2);
            lemma_spaces_inserted_apart(u2, v2);
            lemma_spaces_inserted_first(u2, v2);
            if v2.len() > 0 && v2[0] != ' ' {
                assert(v2[0] == u[1]);
                assert(!quote_touches(u[0], u[1]));
            }
        } else {
            assert(v[0] == ' ' && spaces_inserted(u, v2));
            lemma_spaces_inserted_apart(u, v2);
        }
        lemma_qa_concat(seq![v[0]], v2);
        assert(seq![v[0]] + v2 =~= v);
    }
}

proof fn lemma_replace_first(w: Seq<char>, pat: Seq<char>, rep: Seq<char>)
    requires
        pat.len() > 0,
        rep.len() > 0,
        rep[0] == ' ',
        w.len() > 0,
    ensures
        replace_seq(w, pat, rep).len() > 0,
        replace_seq(w, pat, rep)[0] == ' ' || replace_seq(w, pat, rep)[0] == w[0],
{
}

proof fn lemma_replace_apart(u: Seq<char>, pat: Seq<char>, rep: Seq<char>)
    requires
        pat.len() > 0,
        rep.len() > 0,
        rep[0] == ' ',
        rep.last() == ' ',
        quotes_apart(rep),
        quotes_apart(u),
    ensures
        quotes_apart(replace_seq(u, pat, rep)),
    decreases u.len(),
{
    if u.len() >= pat.len() {
        if u.take(pat.len() as int) == pat {
            let rest = u.skip(pat.len() as int);
            lemma_qa_sub(u, pat.len() as int, u.len() as int);
            assert(u.subrange(pat.len() as int, u.len() as int) =~= rest);
            lemma_replace_apart(rest, pat, rep);
            if rest.len() > 0 {
                lemma_replace_first(rest, pat, rep);
            }
            lemma_qa_concat(rep, replace_seq(rest, pat, rep));
        } else {
            let u2 = u.drop_first();
            lemma_qa_sub(u, 1, u.len() as int);
            assert(u.subrange(1, u.len() as int) =~= u2);
            lemma_replace_apart(u2, pat, rep);
            if u2.len() > 0 {
                lemma_replace_first(u2, pat, rep);
                assert(!quote_touches(u[0], u[1]));
            }
            lemma_qa_concat(seq![u[0]], replace_seq(u2, pat, rep));
        }
    }
}

proof fn lemma_collapse_first(u: Seq<char>)
    requires
        u.len() > 0,
    ensures
        collapse_spaces(u).len() > 0,
        collapse_spaces(u)[0] == u[0],
    decreases u.len(),
{
    if u.len() >= 2 && u[0] == ' ' && u[1] == ' ' {
        lemma_collapse_first(u.drop_first());
    }
}

proof fn lemma_collapse_apart(u: Seq<char>)
    requires
        quotes_apart(u),
    ensures
        quotes_apart(collapse_spaces(u)),
    decreases u.len(),
{
    if u.len() > 0 {
        let u2 = u.drop_first();
        lemma_qa_sub(u, 1, u.len() as int);
        assert(u.subrange(1, u.len() as int) =~= u2);
        lemma_collapse_apart(u2);
        if !(u.len() >= 2 && u[0] == ' ' && u[1] == ' ') {
            if u2.len() > 0 {
                lemma_collapse_first(u2);
                assert(!quote_touches(u[0], u[1]));
            }
            lemma_qa_concat(seq![u[0]], collapse_spaces(u2));
        }
    }
}

proof fn lemma_trim_apart(s: Seq<char>)
    requires
        quotes_apart(s),
    ensures
        quotes_apart(trim_start(s)),
        quotes_apart(trim(s)),
    decreases s.len(),
{
    if s.len() > 0 && is_ws(s[0]) {
        lemma_qa_sub(s, 1, s.len() as int);
        assert(s.subrange(1, s.len() as int) =~= s.drop_first());
        lemma_trim_apart(s.drop_first());
    }
    let t = trim_start(s);
    lemma_trim_end_prefix(t);
    lemma_qa_sub(t, 0, trim_end(t).len() as int);
}

proof fn lemma_final_period_apart(s: Seq<char>)
    requires
        quotes_apart(s),
    ensures
        quotes_apart(final_period(s)),
{
    let t = trim_end(s);
    lemma_trim_end_prefix(s);
    let tl = t.len() as int;
    let trailing = s.subrange(tl, s.len() as int);
    lemma_qa_sub(s, tl, s.len() as int);
    if ends_single_period(t) {
        lemma_qa_sub(s, 0, tl - 1);
        assert(t.drop_last() =~= s.subrange(0, tl - 1));
        let m = seq![' ', '.'];
        assert(quotes_apart(m)) by {
            assert forall|i: int| 0 <= i < m.len() - 1 implies !quote_touches(#[trigger] m[i], m[i + 1]) by {
            }
        }
        lemma_qa_concat(t.drop_last(), m);
        if trailing.len() > 0 {
            assert(is_ws(s[tl]));
            assert(trailing[0] == s[tl]);
        }
        lemma_qa_concat(t.drop_last() + m, trailing);
    } else if t.len() >= 1 && final_quote(t.last()) && ends_single_period(trim_end(t.drop_last())) {
        let a = trim_end(t.drop_last());
        lemma_trim_end_prefix(t.drop_last());
        let al = a.len() as int;
        assert(a.drop_last() =~= s.subrange(0, al - 1));
        lemma_qa_sub(s, 0, al - 1);
        let m = seq![' ', '.', ' ', t.last()];
        assert(quotes_apart(m)) by {
            assert forall|i: int| 0 <= i < m.len() - 1 implies !quote_touches(#[trigger] m[i], m[i + 1]) by {
            }
        }
        lemma_qa_concat(a.drop_last(), m);
        if trailing.len() > 0 {
            assert(is_ws(s[tl]));
            assert(trailing[0] == s[tl]);
            assert(!quote_char(trailing[0]));
        }
        lemma_qa_concat(a.drop_last() + m, trailing);
    }
}

proof fn lemma_split_ws_quotes_apart(s: Seq<char>, cur: Seq<char>)
    requires
        quotes_apart(cur + s),
    ensures
        forall|k: int| 0 <= k < split_ws_acc(s, cur).len() ==> quotes_apart(#[trigger] split_ws_acc(s, cur)[k]),
    decreases s.len(),
{
    let x = cur + s;
    if s.len() == 0 {
        assert(x =~= cur);
        if cur.len() > 0 {
            assert(split_ws_acc(s, cur) == seq![cur]);
        } else {
            assert(split_ws_acc(s, cur) == Seq::<Seq<char>>::empty());
        }
    } else if is_ws(s[0]) {
        lemma_qa_sub(x, 0, cur.len() as int);
        assert(x.subrange(0, cur.len() as int) =~= cur);
        lemma_qa_sub(x, cur.len() as int + 1, x.len() as int);
        assert(x.subrange(cur.len() as int + 1, x.len() as int) =~= Seq::<char>::empty() + s.drop_first());
        lemma_split_ws_quotes_apart(s.drop_first(), seq![]);
        let rest = split_ws_acc(s.drop_first(), seq![]);
        assert(split_ws_acc(s, cur) == if cur.len() > 0 {
            seq![cur] + rest
        } else {
            rest
        });
        if cur.len() > 0 {
            assert forall|k: int| 0 <= k < (seq![cur] + rest).len() implies quotes_apart(#[trigger] (seq![cur] + rest)[k]) by {
                if k > 0 {
                    assert((seq![cur] + rest)[k] == rest[k - 1]);
                }
            }
        }
    } else {
        assert(cur.push(s[0]) + s.drop_first() =~= x);
        lemma_split_ws_quotes_apart(s.drop_first(), cur.push(s[0]));
        assert(split_ws_acc(s, cur) == split_ws_acc(s.drop_first(), cur.push(s[0])));
    }
}

/// Toktok sets quotes apart: in its output no `'`, `’` or backquote touches a
/// character that is neither a quote nor whitespace, so a token that holds a
/// quote holds nothing else (`don't` gives `don`, `'`, `t`). This holds where
/// the `regex` crate's replacements after the comma step do what their
/// patterns read: quotes padded by spaces (`pad_quotes`), the two literal
/// patterns replaced as `str::replace` does, the currency, dash and dot
/// patterns only adding spaces, and runs of spaces collapsed. The library knows
/// those replacements only by their names, so the law takes them as given.
pub proof fn lemma_toktok_quotes_apart(text: Seq<char>)
    requires
        regex_compiles(RE_QUOTE@),
        forall|u: Seq<char>| #[trigger] regex_replace_all(RE_QUOTE@, u, " $1 "@) == pad_quotes(u),
        forall|u: Seq<char>|
            #[trigger] regex_replace_all(RE_STUPID_1@, u, " `` "@) == replace_seq(u, " ` ` "@, " `` "@),
        forall|u: Seq<char>|
            #[trigger] regex_replace_all(RE_STUPID_2@, u, " '' "@) == replace_seq(u, " ' ' "@, " '' "@),
        forall|u: Seq<char>| spaces_inserted(u, #[trigger] regex_replace_all(RE_CURRENCY@, u, "$1 "@)),
        forall|u: Seq<char>| spaces_inserted(u, #[trigger] regex_replace_all(RE_DASHES@, u, " $1 "@)),
        forall|u: Seq<char>| spaces_inserted(u, #[trigger] regex_replace_all(RE_MULTI_DASH@, u, " $1 "@)),
        forall|u: Seq<char>| spaces_inserted(u, #[trigger] regex_replace_all(RE_MULTI_DOTS@, u, " $1 "@)),
        forall|u: Seq<char>| #[trigger] regex_replace_all(RE_ONE_SPACE@, u, " "@) == collapse_spaces(u),
    ensures
        quotes_apart(toktok_text(text)),
        forall|k: int| 0 <= k < toktok_tokens(text).len() ==> quotes_apart(#[trigger] toktok_tokens(text)[k]),
{
    reveal_strlit(" ` ` ");
    reveal_strlit(" `` ");
    reveal_strlit(" ' ' ");
    reveal_strlit(" '' ");
    let s = rsub(RE_NON_BREAKING@, text, " "@);
    let s = rsub(RE_FUNKY_1@, s, " $1 "@);
    let s = rsub(RE_FUNKY_2@, s, " $1 "@);
    let s = colon_upto(s, s.len() as int);
    let s = question_upto(s, s.len() as int);
    let s = replace_seq(s, "& "@, "&amp; "@);
    let s = replace_seq(s, "\t"@, " &#9; "@);
    let s = rsub(RE_PIPE@, s, " &#124; "@);
    let s = rsub(RE_OPEN_PUNCT@, s, "$1 "@);
    let s = rsub(RE_CLOSE_PUNCT@, s, " $1 "@);
    let s = rsub(RE_MULTI_COMMA@, s, " $1 "@);
    let s0 = comma_upto(s, s.len() as int);
    let s1 = rsub(RE_QUOTE@, s0, " $1 "@);
    lemma_pad_quotes_apart(s0);
    let s2 = rsub(RE_STUPID_1@, s1, " `` "@);
    let r1 = " `` "@;
    assert(quotes_apart(r1)) by {
        assert forall|i: int| 0 <= i < r1.len() - 1 implies !quote_touches(#[trigger] r1[i], r1[i + 1]) by {
        }
    }
    if regex_compiles(RE_STUPID_1@) {
        lemma_replace_apart(s1, " ` ` "@, r1);
    }
    let s3 = rsub(RE_STUPID_2@, s2, " '' "@);
    let r2 = " '' "@;
    assert(quotes_apart(r2)) by {
        assert forall|i: int| 0 <= i < r2.len() - 1 implies !quote_touches(#[trigger] r2[i], r2[i + 1]) by {
        }
    }
    if regex_compiles(RE_STUPID_2@) {
        lemma_replace_apart(s2, " ' ' "@, r2);
    }
    let s4 = rsub(RE_CURRENCY@, s3, "$1 "@);
    if regex_compiles(RE_CURRENCY@) {
        lemma_spaces_inserted_apart(s3, s4);
    }
    let s5 = rsub(RE_DASHES@, s4, " $1 "@);
    if regex_compiles(RE_DASHES@) {
        lemma_spaces_inserted_apart(s4, s5);
    }
    let s6 = rsub(RE_MULTI_DASH@, s5, " $1 "@);
    if regex_compiles(RE_MULTI_DASH@) {
        lemma_spaces_inserted_apart(s5, s6);
    }
    let s7 = rsub(RE_MULTI_DOTS@, s6, " $1 "@);
    if regex_compiles(RE_MULTI_DOTS@) {
        lemma_spaces_inserted_apart(s6, s7);
    }
    let s8 = final_period(s7);
    lemma_final_period_apart(s7);
    let s9 = rsub(RE_ONE_SPACE@, s8, " "@);
    if regex_compiles(RE_ONE_SPACE@) {
        lemma_collapse_apart(s8);
    }
    lemma_trim_apart(s9);
    assert(toktok_text(text) == trim(s9));
    let out = trim(s9);
    assert(Seq::<char>::empty() + out =~= out);
    lemma_split_ws_quotes_apart(out, seq![]);
}

} // verus!
