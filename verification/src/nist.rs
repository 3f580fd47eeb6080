//! The NIST machine-translation evaluation tokenizer: XML unescaping, then
//! punctuation, periods and commas outside numbers, and dashes after digits set
//! apart by spaces.
use vstd::prelude::*;
use crate::rx::{regex_compiles, regex_replace_all, rsub, subst};
use crate::text::{
    chars_of, lowercase, replace_chars, replace_seq, split_ws, split_ws_strings, str_views,
    split_ws_acc, string_of, to_lowercase,
};

verus! {

pub const RE_SKIP: &'static str = r"<skipped>";
pub const RE_EOL_HYPHEN: &'static str = "\u{2028}";
pub const RE_PUNCT: &'static str = r"([\{-\~\[-\` -\&\(-\+\:-\@\/])";
pub const RE_PERIOD_COMMA_PRE: &'static str = r"([^0-9])([\.,])";
pub const RE_PERIOD_COMMA_POST: &'static str = r"([\.,])([^0-9])";
pub const RE_DASH_DIGIT: &'static str = r"([0-9])(-)";

/// The five XML entities decoded, `&amp;` after `&lt;` and `&gt;`.
pub open spec fn xml_unescaped(s: Seq<char>) -> Seq<char> {
    let s = replace_seq(s, "&lt;"@, "<"@);
    let s = replace_seq(s, "&gt;"@, ">"@);
    let s = replace_seq(s, "&amp;"@, "&"@);
    let s = replace_seq(s, "&quot;"@, "\""@);
    replace_seq(s, "&apos;"@, "'"@)
}

/// The rules for every language: `<skipped>` removed, XML entities decoded and
/// line separators (U+2028) made spaces.
pub open spec fn lang_independent(text: Seq<char>) -> Seq<char> {
    rsub(RE_EOL_HYPHEN@, xml_unescaped(rsub(RE_SKIP@, text, ""@)), " "@)
}

/// `t` padded with a space on each side and lowercased if asked.
pub open spec fn padded(t: Seq<char>, lower: bool) -> Seq<char> {
    let t = " "@ + t + " "@;
    if lower {
        lowercase(t)
    } else {
        t
    }
}

/// The text whose whitespace-separated pieces are the NIST tokens.
pub open spec fn nist_text(text: Seq<char>, lower: bool, western_lang: bool) -> Seq<char> {
    let t = lang_independent(text);
    if western_lang {
        let t = padded(t, lower);
        let t = rsub(RE_PUNCT@, t, " $1 "@);
        let t = rsub(RE_PERIOD_COMMA_PRE@, t, "$1 $2 "@);
        let t = rsub(RE_PERIOD_COMMA_POST@, t, " $1 $2"@);
        rsub(RE_DASH_DIGIT@, t, "$1 $2 "@)
    } else {
        t
    }
}

/// std's `char::is_ascii_punctuation`: `!` to `/`, `:` to `@`, `[` to `` ` `` and
/// `{` to `~`.
pub open spec fn ascii_punct(c: char) -> bool {
    ('!' <= c && c <= '/') || (':' <= c && c <= '@') || ('[' <= c && c <= '`') || ('{' <= c && c
        <= '~')
}

/// A space where the text passes between ASCII and other characters, and ASCII
/// punctuation other than quotes set apart by spaces.
pub open spec fn intl_piece(s: Seq<char>, i: int) -> Seq<char> {
    let boundary = if i > 0 && ((s[i - 1] as u32) < 128) != ((s[i] as u32) < 128) {
        seq![' ']
    } else {
        seq![]
    };
    let c = s[i];
    boundary + if ascii_punct(c) && c != '\'' && c != '"' {
        seq![' ', c, ' ']
    } else {
        seq![c]
    }
}

/// The first `n` characters of `s` rewritten by `intl_piece`.
pub open spec fn intl_upto(s: Seq<char>, n: int) -> Seq<char>
    decreases n,
{
    if n <= 0 {
        seq![]
    } else {
        intl_upto(s, n - 1) + intl_piece(s, n - 1)
    }
}

/// The text whose whitespace-separated pieces are the international NIST tokens.
pub open spec fn nist_intl_text(text: Seq<char>, lower: bool) -> Seq<char> {
    let t = padded(lang_independent(text), lower);
    let t = intl_upto(t, t.len() as int);
    let t = rsub(RE_PUNCT@, t, " $1 "@);
    let t = rsub(RE_PERIOD_COMMA_PRE@, t, "$1 $2 "@);
    rsub(RE_PERIOD_COMMA_POST@, t, " $1 $2"@)
}

fn replace_str(s: &str, pat: &str, rep: &str) -> (r: String)
    ensures
        r@ == replace_seq(s@, pat@, rep@),
{
    let v = chars_of(s);
    let p = chars_of(pat);
    let q = chars_of(rep);
    let o = replace_chars(&v, &p, &q);
    string_of(o.as_slice())
}

/// Decodes `&lt;`, `&gt;`, `&amp;`, `&quot;` and `&apos;`, in that order.
pub fn xml_unescape_local(s: &str) -> (r: String)
    ensures
        r@ == xml_unescaped(s@),
{
    let s = replace_str(s, "&lt;", "<");
    let s = replace_str(s.as_str(), "&gt;", ">");
    let s = replace_str(s.as_str(), "&amp;", "&");
    let s = replace_str(s.as_str(), "&quot;", "\"");
    replace_str(s.as_str(), "&apos;", "'")
}

/// The rules shared by every language (see `lang_independent`).
pub fn lang_independent_sub(text: &str) -> (r: String)
    ensures
        r@ == lang_independent(text@),
{
    let t = subst(RE_SKIP, text, "");
    let t = xml_unescape_local(t.as_str());
    subst(RE_EOL_HYPHEN, t.as_str(), " ")
}

fn pad(t: &str, lower: bool) -> (r: String)
    ensures
        r@ == padded(t@, lower),
{
    let mut v = chars_of(" ");
    let body = chars_of(t);
    crate::text::push_all(&mut v, &body);
    let sp = chars_of(" ");
    crate::text::push_all(&mut v, &sp);
    let s = string_of(v.as_slice());
    if lower {
        to_lowercase(s.as_str())
    } else {
        s
    }
}

/// The NIST tokens of `text`; the western rules apply when `western_lang` is set.
pub fn nist_tokenize(text: &str, lowercase: bool, western_lang: bool) -> (r: Vec<String>)
    ensures
        str_views(r@) == split_ws(nist_text(text@, lowercase, western_lang)),
{
    let t = lang_independent_sub(text);
    if western_lang {
        let t = pad(t.as_str(), lowercase);
        let t = subst(RE_PUNCT, t.as_str(), " $1 ");
        let t = subst(RE_PERIOD_COMMA_PRE, t.as_str(), "$1 $2 ");
        let t = subst(RE_PERIOD_COMMA_POST, t.as_str(), " $1 $2");
        let t = subst(RE_DASH_DIGIT, t.as_str(), "$1 $2 ");
        split_ws_strings(t.as_str())
    } else {
        split_ws_strings(t.as_str())
    }
}

fn is_ascii_punct(c: char) -> (b: bool)
    ensures
        b == ascii_punct(c),
{
    ('!' <= c && c <= '/') || (':' <= c && c <= '@') || ('[' <= c && c <= '`') || ('{' <= c && c
        <= '~')
}

fn is_ascii_char(c: char) -> (b: bool)
    ensures
        b == ((c as u32) < 128),
{
    (c as u32) < 128
}

fn intl_rewrite(s: &str) -> (r: String)
    ensures
        r@ == intl_upto(s@, s@.len() as int),
{
    let v = chars_of(s);
    let n = v.len();
    let mut out: Vec<char> = Vec::new();
    let mut i: usize = 0;
    while i < n
        invariant
            n == v.len(),
            v@ == s@,
            i <= n,
            out@ == intl_upto(v@, i as int),
        decreases n - i,
    {
        let ghost o = out@;
        let c = v[i];
        if i > 0 && is_ascii_char(v[i - 1]) != is_ascii_char(c) {
            out.push(' ');
        }
        if is_ascii_punct(c) && c != '\'' && c != '"' {
            out.push(' ');
            out.push(c);
            out.push(' ');
        } else {
            out.push(c);
        }
        assert(out@ =~= o + intl_piece(v@, i as int));
        i = i + 1;
    }
    string_of(out.as_slice())
}

/// The NIST tokens for text that is not only in a western language: a space where
/// the text passes between ASCII and other characters, punctuation set apart.
pub fn nist_international_tokenize(text: &str, lowercase: bool) -> (r: Vec<String>)
    ensures
        str_views(r@) == split_ws(nist_intl_text(text@, lowercase)),
{
    let t = lang_independent_sub(text);
    let t = pad(t.as_str(), lowercase);
    let t = intl_rewrite(t.as_str());
    let t = subst(RE_PUNCT, t.as_str(), " $1 ");
    let t = subst(RE_PERIOD_COMMA_PRE, t.as_str(), "$1 $2 ");
    let t = subst(RE_PERIOD_COMMA_POST, t.as_str(), " $1 $2");
    split_ws_strings(t.as_str())
}

// ---------------------------------------------------------------------------
// A dash after a digit is set apart
// ---------------------------------------------------------------------------
/// An ASCII digit.
pub open spec fn ascii_digit(c: char) -> bool {
    '0' <= c && c <= '9'
}

/// No digit of `x` is directly followed by a dash.
pub open spec fn no_digit_dash(x: Seq<char>) -> bool {
    forall|i: int| 0 <= i < x.len() - 1 && ascii_digit(#[trigger] x[i]) ==> x[i + 1] != '-'
}

/// What replacing every match of `([0-9])(-)` by `$1 $2 ` makes of `u`, as the
/// pattern reads: left to right, each digit directly followed by a dash becomes
/// the digit, a space, the dash and a space.
pub open spec fn dash_spaced(u: Seq<char>) -> Seq<char>
    decreases u.len(),
{
    if u.len() == 0 {
        seq![]
    } else if u.len() >= 2 && ascii_digit(u[0]) && u[1] == '-' {
        seq![u[0], ' ', '-', ' '] + dash_spaced(u.skip(2))
    } else {
        seq![u[0]] + dash_spaced(u.drop_first())
    }
}

proof fn lemma_dash_spaced_first(u: Seq<char>)
    requires
        u.len() > 0,
    ensures
        dash_spaced(u).len() > 0,
        dash_spaced(u)[0] == u[0],
{
}

proof fn lemma_dash_spaced_ok(u: Seq<char>)
    ensures
        no_digit_dash(dash_spaced(u)),
    decreases u.len(),
{
    let out = dash_spaced(u);
    if u.len() >= 2 && ascii_digit(u[0]) && u[1] == '-' {
        let r = dash_spaced(u.skip(2));
        lemma_dash_spaced_ok(u.skip(2));
        let b = seq![u[0], ' ', '-', ' '];
        assert(out == b + r);
        assert forall|i: int| 0 <= i < out.len() - 1 && ascii_digit(#[trigger] out[i]) implies out[i + 1] != '-' by {
            if i >= 4 {
                assert(out[i] == r[i - 4] && out[i + 1] == r[i - 3]);
            } else if i == 3 {
                assert(out[i] == ' ');
            } else {
                assert(out[i] == b[i] && out[i + 1] == b[i + 1]);
            }
        }
    } else if u.len() > 0 {
        let r = dash_spaced(u.drop_first());
        lemma_dash_spaced_ok(u.drop_first());
        assert(out == seq![u[0]] + r);
        assert forall|i: int| 0 <= i < out.len() - 1 && ascii_digit(#[trigger] out[i]) implies out[i + 1] != '-' by {
            if i >= 1 {
                assert(out[i] == r[i - 1] && out[i + 1] == r[i]);
            } else {
                lemma_dash_spaced_first(u.drop_first());
                assert(out[1] == r[0]);
                assert(r[0] == u[1]);
            }
        }
    }
}

proof fn lemma_no_digit_dash_sub(x: Seq<char>, a: int, b: int)
    requires
        0 <= a <= b <= x.len(),
        no_digit_dash(x),
    ensures
        no_digit_dash(x.subrange(a, b)),
{
    let y = x.subrange(a, b);
    assert forall|i: int| 0 <= i < y.len() - 1 && ascii_digit(#[trigger] y[i]) implies y[i + 1] != '-' by {
        assert(y[i] == x[a + i] && y[i + 1] == x[a + i + 1]);
    }
}

proof fn lemma_split_ws_no_digit_dash(s: Seq<char>, cur: Seq<char>)
    requires
        no_digit_dash(cur + s),
    ensures
        forall|k: int| 0 <= k < split_ws_acc(s, cur).len() ==> no_digit_dash(#[trigger] split_ws_acc(s, cur)[k]),
    decreases s.len(),
{
    let x = cur + s;
    if s.len() == 0 {
        assert(x =~= cur);
        if cur.len() > 0 {
            assert(split_ws_acc(s, cur) == seq![cur]);
        } else {
            assert(split_ws_acc(s, cur) == Seq::<Seq<char>>::empty());
        }
    } else if crate::text::is_ws(s[0]) {
        lemma_no_digit_dash_sub(x, 0, cur.len() as int);
        assert(x.subrange(0, cur.len() as int) =~= cur);
        lemma_no_digit_dash_sub(x, cur.len() as int + 1, x.len() as int);
        assert(x.subrange(cur.len() as int + 1, x.len() as int) =~= Seq::<char>::empty() + s.drop_first());
        lemma_split_ws_no_digit_dash(s.drop_first(), seq![]);
        let rest = split_ws_acc(s.drop_first(), seq![]);
        assert(split_ws_acc(s, cur) == if cur.len() > 0 {
            seq![cur] + rest
        } else {
            rest
        });
        if cur.len() > 0 {
            assert forall|k: int| 0 <= k < (seq![cur] + rest).len() implies no_digit_dash(#[trigger] (seq![cur] + rest)[k]) by {
                if k > 0 {
                    assert((seq![cur] + rest)[k] == rest[k - 1]);
                }
            }
        }
    } else {
        assert(cur.push(s[0]) + s.drop_first() =~= x);
        lemma_split_ws_no_digit_dash(s.drop_first(), cur.push(s[0]));
        assert(split_ws_acc(s, cur) == split_ws_acc(s.drop_first(), cur.push(s[0])));
    }
}

/// With the western rules, a dash right after a digit is set apart: no NIST
/// token holds a digit directly followed by `-` (`1990-1995` gives `1990`, `-`,
/// `1995`). This holds where the `regex` crate replaces the matches of
/// `([0-9])(-)` by `$1 $2 ` as the pattern reads (`dash_spaced`); the library
/// knows that replacement only by its name, so the law takes it as given.
pub proof fn lemma_nist_dash_after_digit_split(text: Seq<char>, lower: bool)
    requires
        regex_compiles(RE_DASH_DIGIT@),
        forall|u: Seq<char>| #[trigger] regex_replace_all(RE_DASH_DIGIT@, u, "$1 $2 "@) == dash_spaced(u),
    ensures
        no_digit_dash(nist_text(text, lower, true)),
        forall|k: int|
            0 <= k < split_ws(nist_text(text, lower, true)).len() ==> no_digit_dash(
                #[trigger] split_ws(nist_text(text, lower, true))[k],
            ),
{
    let t = lang_independent(text);
    let t = padded(t, lower);
    let t = rsub(RE_PUNCT@, t, " $1 "@);
    let t = rsub(RE_PERIOD_COMMA_PRE@, t, "$1 $2 "@);
    let t = rsub(RE_PERIOD_COMMA_POST@, t, " $1 $2"@);
    assert(nist_text(text, lower, true) == dash_spaced(t));
    lemma_dash_spaced_ok(t);
    assert(Seq::<char>::empty() + dash_spaced(t) =~= dash_spaced(t));
    lemma_split_ws_no_digit_dash(dash_spaced(t), seq![]);
}

} // verus!
