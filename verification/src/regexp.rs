//! Tokenizers given by a regular expression: either the matches are the tokens,
//! or (with `gaps`) the text between the matches is.
use vstd::prelude::*;
use crate::api::{lemma_picks_out_concat, picks_out, spans_view};
use crate::destructive::eq_lit;
use crate::rx::{find_all, re_compiles, regex_compiles, rfind, rsplit, split_by, text_from};
use crate::text::{char_views, chars_of, chars_of_all, split_ws, split_ws_strings, str_views};
use crate::util::{gap_spans, gap_spans_from, gap_spans_of};

verus! {

/// The pieces of `v` that are not empty, in order.
pub open spec fn nonempty_pieces(v: Seq<Seq<char>>) -> Seq<Seq<char>>
    decreases v.len(),
{
    if v.len() == 0 {
        seq![]
    } else if v.last().len() > 0 {
        nonempty_pieces(v.drop_last()).push(v.last())
    } else {
        nonempty_pieces(v.drop_last())
    }
}

/// The tokens of `t` for pattern `p`: with `gaps`, the text between matches
/// (empty pieces dropped with `discard_empty`); otherwise the matches.
pub open spec fn regexp_tokens(p: Seq<char>, gaps: bool, discard_empty: bool, t: Seq<char>) -> Seq<
    Seq<char>,
> {
    if gaps {
        if discard_empty {
            nonempty_pieces(rsplit(p, t))
        } else {
            rsplit(p, t)
        }
    } else {
        rfind(p, t)
    }
}

/// The spans of the matches `m[k..]`, piece `k` (before match `k`) starting at
/// `left`.
pub open spec fn match_spans_from(g: Seq<Seq<char>>, m: Seq<Seq<char>>, k: int, left: int) -> Seq<
    (int, int),
>
    decreases m.len() - k,
{
    if k < 0 || k >= m.len() || k >= g.len() {
        seq![]
    } else {
        let start = left + g[k].len();
        seq![(start, start + m[k].len())] + match_spans_from(g, m, k + 1, start + m[k].len())
    }
}

/// The spans of the tokens of `t` for pattern `p`.
pub open spec fn regexp_spans(p: Seq<char>, gaps: bool, t: Seq<char>) -> Seq<(int, int)> {
    if gaps {
        gap_spans(p, t)
    } else {
        match_spans_from(rsplit(p, t), rfind(p, t), 0, 0)
    }
}

proof fn lemma_nonempty_pieces_cons(x: Seq<char>, rest: Seq<Seq<char>>)
    ensures
        nonempty_pieces(seq![x] + rest) == (if x.len() > 0 {
            seq![x]
        } else {
            seq![]
        }) + nonempty_pieces(rest),
    decreases rest.len(),
{
    let v = seq![x] + rest;
    let h: Seq<Seq<char>> = if x.len() > 0 {
        seq![x]
    } else {
        seq![]
    };
    if rest.len() == 0 {
        assert(v.drop_last() =~= Seq::<Seq<char>>::empty());
        assert(v.last() == x);
        assert(nonempty_pieces(Seq::<Seq<char>>::empty()) == Seq::<Seq<char>>::empty());
        assert(nonempty_pieces(rest) == Seq::<Seq<char>>::empty());
        if x.len() > 0 {
            assert(nonempty_pieces(v) == nonempty_pieces(v.drop_last()).push(x));
            assert(Seq::<Seq<char>>::empty().push(x) =~= h);
        } else {
            assert(nonempty_pieces(v) == nonempty_pieces(v.drop_last()));
        }
        assert(h + nonempty_pieces(rest) =~= h);
    } else {
        let rd = rest.drop_last();
        assert(v.drop_last() =~= seq![x] + rd);
        assert(v.last() == rest.last());
        lemma_nonempty_pieces_cons(x, rd);
        if rest.last().len() > 0 {
            assert(nonempty_pieces(v) == nonempty_pieces(v.drop_last()).push(v.last()));
            assert(nonempty_pieces(rest) == nonempty_pieces(rd).push(rest.last()));
            assert(h + nonempty_pieces(rd).push(rest.last()) =~= (h + nonempty_pieces(rd)).push(
                rest.last(),
            ));
        } else {
            assert(nonempty_pieces(v) == nonempty_pieces(v.drop_last()));
            assert(nonempty_pieces(rest) == nonempty_pieces(rd));
        }
    }
}

/// Where `g ++ m ++ r` is the text of `t` from `left` on, `r` is the text of `t`
/// after them.
proof fn lemma_subrange_after(t: Seq<char>, left: int, a: Seq<char>, b: Seq<char>, r: Seq<char>)
    requires
        0 <= left <= t.len(),
        a + b + r == t.subrange(left, t.len() as int),
    ensures
        left + a.len() + b.len() <= t.len(),
        t.subrange(left, left + a.len()) == a,
        t.subrange(left + a.len(), left + a.len() + b.len()) == b,
        t.subrange(left + a.len() + b.len(), t.len() as int) == r,
{
    let tl = t.subrange(left, t.len() as int);
    assert(tl.len() == t.len() - left);
    assert((a + b + r).len() == a.len() + b.len() + r.len());
    assert forall|j: int| 0 <= j < a.len() implies t.subrange(left, left + a.len())[j] == a[j] by {
        assert(tl[j] == (a + b + r)[j]);
    }
    assert forall|j: int| 0 <= j < b.len() implies t.subrange(left + a.len(), left + a.len() + b.len())[j] == b[j] by {
        assert(tl[a.len() + j] == (a + b + r)[a.len() + j]);
    }
    assert forall|j: int| 0 <= j < r.len() implies t.subrange(left + a.len() + b.len(), t.len() as int)[j] == r[j] by {
        assert(tl[a.len() + b.len() + j] == (a + b + r)[a.len() + b.len() + j]);
    }
    assert(t.subrange(left, left + a.len()) =~= a);
    assert(t.subrange(left + a.len(), left + a.len() + b.len()) =~= b);
    assert(t.subrange(left + a.len() + b.len(), t.len() as int) =~= r);
}

proof fn lemma_gap_spans_pick(g: Seq<Seq<char>>, m: Seq<Seq<char>>, t: Seq<char>, k: int, left: int)
    requires
        g.len() == m.len() + 1,
        0 <= k <= m.len(),
        0 <= left <= t.len(),
        text_from(g, m, k) == t.subrange(left, t.len() as int),
    ensures
        picks_out(t, gap_spans_from(g, m, k, left, t.len() as int), nonempty_pieces(g.skip(k))),
    decreases m.len() - k,
{
    let n = t.len() as int;
    if k == m.len() {
        assert(text_from(g, m, k + 1) == Seq::<char>::empty());
        assert(text_from(g, m, k) =~= g[k]);
        assert(g.skip(k) =~= seq![g[k]] + Seq::<Seq<char>>::empty());
        lemma_nonempty_pieces_cons(g[k], Seq::<Seq<char>>::empty());
        if left < n {
            assert(t.subrange(left, n) == g[k]);
        } else {
            assert(g[k].len() == 0);
        }
    } else {
        let right = left + g[k].len();
        let next = right + m[k].len();
        let r = text_from(g, m, k + 1);
        assert(text_from(g, m, k) == g[k] + m[k] + r);
        lemma_subrange_after(t, left, g[k], m[k], r);
        lemma_gap_spans_pick(g, m, t, k + 1, next);
        assert(g.skip(k) =~= seq![g[k]] + g.skip(k + 1));
        lemma_nonempty_pieces_cons(g[k], g.skip(k + 1));
        let head_sp: Seq<(int, int)> = if g[k].len() > 0 {
            seq![(left, right)]
        } else {
            seq![]
        };
        let head_tk: Seq<Seq<char>> = if g[k].len() > 0 {
            seq![g[k]]
        } else {
            seq![]
        };
        assert(picks_out(t, head_sp, head_tk));
        lemma_picks_out_concat(
            t,
            head_sp,
            head_tk,
            gap_spans_from(g, m, k + 1, next, n),
            nonempty_pieces(g.skip(k + 1)),
        );
    }
}

proof fn lemma_match_spans_pick(g: Seq<Seq<char>>, m: Seq<Seq<char>>, t: Seq<char>, k: int, left: int)
    requires
        g.len() == m.len() + 1,
        0 <= k <= m.len(),
        0 <= left <= t.len(),
        text_from(g, m, k) == t.subrange(left, t.len() as int),
    ensures
        picks_out(t, match_spans_from(g, m, k, left), m.skip(k)),
    decreases m.len() - k,
{
    let n = t.len() as int;
    if k == m.len() {
        assert(m.skip(k) =~= Seq::<Seq<char>>::empty());
    } else {
        let start = left + g[k].len();
        let end = start + m[k].len();
        let r = text_from(g, m, k + 1);
        assert(text_from(g, m, k) == g[k] + m[k] + r);
        lemma_subrange_after(t, left, g[k], m[k], r);
        lemma_match_spans_pick(g, m, t, k + 1, end);
        assert(m.skip(k) =~= seq![m[k]] + m.skip(k + 1));
        assert(picks_out(t, seq![(start, end)], seq![m[k]]));
        lemma_picks_out_concat(
            t,
            seq![(start, end)],
            seq![m[k]],
            match_spans_from(g, m, k + 1, end),
            m.skip(k + 1),
        );
    }
}

/// The spans of a regular-expression tokenizer pick out its tokens: where the
/// pieces `g` and the matches `m` in turn make up `t`, the spans between the
/// matches pick out the pieces that are not empty, and the spans of the matches
/// pick out the matches.
pub proof fn lemma_regexp_spans_pick_tokens(g: Seq<Seq<char>>, m: Seq<Seq<char>>, t: Seq<char>)
    requires
        g.len() == m.len() + 1,
        text_from(g, m, 0) == t,
    ensures
        picks_out(t, gap_spans_from(g, m, 0, 0, t.len() as int), nonempty_pieces(g)),
        picks_out(t, match_spans_from(g, m, 0, 0), m),
{
    assert(t.subrange(0, t.len() as int) =~= t);
    assert(g.skip(0) =~= g);
    assert(m.skip(0) =~= m);
    lemma_gap_spans_pick(g, m, t, 0, 0);
    lemma_match_spans_pick(g, m, t, 0, 0);
}

fn drop_empty(v: Vec<String>) -> (r: Vec<String>)
    ensures
        str_views(r@) == nonempty_pieces(str_views(v@)),
{
    let ghost d = str_views(v@);
    let mut out: Vec<String> = Vec::new();
    let mut i: usize = 0;
    let mut v = v;
    let ghost v0 = v@;
    while i < v.len()
        invariant
            v@ == v0,
            d == str_views(v0),
            i <= v.len(),
            str_views(out@) == nonempty_pieces(d.take(i as int)),
        decreases v.len() - i,
    {
        assert(d.take(i + 1).drop_last() =~= d.take(i as int));
        assert(d.take(i + 1).last() == v@[i as int]@);
        let piece = chars_of(v[i].as_str());
        if piece.len() > 0 {
            let ghost before = str_views(out@);
            out.push(crate::text::string_of(piece.as_slice()));
            assert(str_views(out@) =~= before.push(d[i as int]));
        }
        i = i + 1;
    }
    assert(d.take(v.len() as int) =~= d);
    out
}

fn match_spans_of(p: &str, t: &str) -> (r: Vec<(usize, usize)>)
    ensures
        spans_view(r@) == match_spans_from(rsplit(p@, t@), rfind(p@, t@), 0, 0),
        picks_out(t@, spans_view(r@), rfind(p@, t@)),
{
    let gs = split_by(p, t);
    let ms = find_all(p, t);
    let g = chars_of_all(gs.as_slice());
    let m = chars_of_all(ms.as_slice());
    let n = chars_of(t).len();
    let ghost gv = char_views(g@);
    let ghost mv = char_views(m@);
    assert(gv == str_views(gs@));
    assert(mv == str_views(ms@));
    let ghost total = match_spans_from(gv, mv, 0, 0);
    let mut out: Vec<(usize, usize)> = Vec::new();
    let mut left: usize = 0;
    let mut k: usize = 0;
    assert(spans_view(out@) + total =~= total);
    while k < m.len()
        invariant
            gv == char_views(g@),
            mv == char_views(m@),
            g.len() == m.len() + 1,
            n == t@.len(),
            k <= m.len(),
            left + text_from(gv, mv, k as int).len() == n,
            total == match_spans_from(gv, mv, 0, 0),
            spans_view(out@) + match_spans_from(gv, mv, k as int, left as int) == total,
        decreases m.len() - k,
    {
        assert(text_from(gv, mv, k as int).len() == gv[k as int].len() + mv[k as int].len()
            + text_from(gv, mv, k + 1).len());
        let start = left + g[k].len();
        let end = start + m[k].len();
        let ghost before = spans_view(out@);
        out.push((start, end));
        assert(spans_view(out@) =~= before + seq![(start as int, end as int)]);
        left = end;
        k = k + 1;
    }
    assert(spans_view(out@) + Seq::<(int, int)>::empty() =~= spans_view(out@));
    proof {
        lemma_regexp_spans_pick_tokens(rsplit(p@, t@), rfind(p@, t@), t@);
    }
    out
}

/// Tokens given by a regular expression; with `gaps` the pattern matches the text
/// between tokens, and with `discard_empty` empty tokens are dropped.
pub struct RegexpTokenizer {
    pattern: String,
    gaps: bool,
    discard_empty: bool,
}

impl RegexpTokenizer {
    /// The pattern.
    pub closed spec fn pat(&self) -> Seq<char> {
        self.pattern@
    }

    /// Whether the pattern matches the gaps between tokens.
    pub closed spec fn gaps_flag(&self) -> bool {
        self.gaps
    }

    /// Whether empty tokens are dropped.
    pub closed spec fn discard_flag(&self) -> bool {
        self.discard_empty
    }

    /// The tokens of `t` by this tokenizer's rules.
    pub open spec fn tokens(&self, t: Seq<char>) -> Seq<Seq<char>> {
        regexp_tokens(self.pat(), self.gaps_flag(), self.discard_flag(), t)
    }

    /// The spans of the tokens of `t`.
    pub open spec fn spans(&self, t: Seq<char>) -> Seq<(int, int)> {
        regexp_spans(self.pat(), self.gaps_flag(), t)
    }

    pub fn new(pattern: &str, gaps: bool, discard_empty: bool) -> (r: Self)
        ensures
            r.pat() == pattern@,
            r.gaps_flag() == gaps,
            r.discard_flag() == discard_empty,
    {
        RegexpTokenizer { pattern: pattern.to_owned(), gaps, discard_empty }
    }

    fn tokens_of_text(&self, text: &str) -> (r: Vec<String>)
        ensures
            str_views(r@) == self.tokens(text@),
    {
        if self.gaps {
            let parts = split_by(self.pattern.as_str(), text);
            if self.discard_empty {
                drop_empty(parts)
            } else {
                parts
            }
        } else {
            find_all(self.pattern.as_str(), text)
        }
    }

    fn spans_of_text(&self, text: &str) -> (r: Vec<(usize, usize)>)
        ensures
            spans_view(r@) == self.spans(text@),
            !self.gaps_flag() || self.discard_flag() ==> picks_out(
                text@,
                spans_view(r@),
                self.tokens(text@),
            ),
    {
        if self.gaps {
            gap_spans_of(self.pattern.as_str(), text)
        } else {
            match_spans_of(self.pattern.as_str(), text)
        }
    }

    /// The tokens of `text`; the pattern must be a valid regular expression.
    pub fn tokenize(&mut self, text: &str) -> (r: Vec<String>)
        requires
            regex_compiles(old(self).pat()),
        ensures
            *final(self) == *old(self),
            str_views(r@) == old(self).tokens(text@),
    {
        self.tokens_of_text(text)
    }

    /// The tokens of `text`, or `None` when the pattern is not a valid regular
    /// expression.
    pub fn try_tokenize(&mut self, text: &str) -> (r: Option<Vec<String>>)
        ensures
            *final(self) == *old(self),
            r is Some <==> regex_compiles(old(self).pat()),
            r matches Some(v) ==> str_views(v@) == old(self).tokens(text@),
    {
        if re_compiles(self.pattern.as_str()) {
            Some(self.tokenize(text))
        } else {
            None
        }
    }

    /// The character spans of the tokens of `text`; the pattern must be a valid
    /// regular expression. Unless empty tokens are kept between gaps, each span
    /// picks out its token.
    pub fn span_tokenize(&mut self, text: &str) -> (r: Vec<(usize, usize)>)
        requires
            regex_compiles(old(self).pat()),
        ensures
            *final(self) == *old(self),
            spans_view(r@) == old(self).spans(text@),
            !old(self).gaps_flag() || old(self).discard_flag() ==> picks_out(
                text@,
                spans_view(r@),
                old(self).tokens(text@),
            ),
    {
        self.spans_of_text(text)
    }

    /// The spans of the tokens of `text`, or `None` when the pattern is not a valid
    /// regular expression.
    pub fn try_span_tokenize(&mut self, text: &str) -> (r: Option<Vec<(usize, usize)>>)
        ensures
            *final(self) == *old(self),
            r is Some <==> regex_compiles(old(self).pat()),
            r matches Some(v) ==> spans_view(v@) == old(self).spans(text@),
            r matches Some(v) ==> (!old(self).gaps_flag() || old(self).discard_flag() ==> picks_out(
                text@,
                spans_view(v@),
                old(self).tokens(text@),
            )),
    {
        if re_compiles(self.pattern.as_str()) {
            Some(self.span_tokenize(text))
        } else {
            None
        }
    }
}

pub const RE_WHITESPACE: &'static str = r"\s+";
pub const RE_BLANKLINE: &'static str = r"\s*\n\s*\n\s*";
pub const RE_WORDPUNCT: &'static str = r"\w+|[^\w\s]+";

/// Tokens separated by whitespace.
pub struct WhitespaceTokenizer(RegexpTokenizer);

impl WhitespaceTokenizer {
    /// The rules this tokenizer runs.
    pub closed spec fn rules(&self) -> RegexpTokenizer {
        self.0
    }

    pub fn new() -> (r: Self)
        ensures
            r.rules().pat() == RE_WHITESPACE@,
            r.rules().gaps_flag(),
            r.rules().discard_flag(),
    {
        WhitespaceTokenizer(RegexpTokenizer::new(RE_WHITESPACE, true, true))
    }

    /// The text between runs of whitespace, empty pieces dropped.
    pub fn tokenize(&mut self, s: &str) -> (r: Vec<String>)
        ensures
            *final(self) == *old(self),
            str_views(r@) == old(self).rules().tokens(s@),
    {
        self.0.tokens_of_text(s)
    }

    /// The spans of the text between runs of whitespace; each picks out its token.
    pub fn span_tokenize(&mut self, s: &str) -> (r: Vec<(usize, usize)>)
        ensures
            *final(self) == *old(self),
            spans_view(r@) == old(self).rules().spans(s@),
            !old(self).rules().gaps_flag() || old(self).rules().discard_flag() ==> picks_out(
                s@,
                spans_view(r@),
                old(self).rules().tokens(s@),
            ),
    {
        self.0.spans_of_text(s)
    }
}

impl Default for WhitespaceTokenizer {
    fn default() -> (r: Self)
        ensures
            r.rules().pat() == RE_WHITESPACE@,
            r.rules().gaps_flag(),
            r.rules().discard_flag(),
    {
        Self::new()
    }
}

/// Paragraphs: tokens separated by blank lines.
pub struct BlanklineTokenizer(RegexpTokenizer);

impl BlanklineTokenizer {
    /// The rules this tokenizer runs.
    pub closed spec fn rules(&self) -> RegexpTokenizer {
        self.0
    }

    pub fn new() -> (r: Self)
        ensures
            r.rules().pat() == RE_BLANKLINE@,
            r.rules().gaps_flag(),
            r.rules().discard_flag(),
    {
        BlanklineTokenizer(RegexpTokenizer::new(RE_BLANKLINE, true, true))
    }

    /// The text between blank lines, empty pieces dropped.
    pub fn tokenize(&mut self, s: &str) -> (r: Vec<String>)
        ensures
            *final(self) == *old(self),
            str_views(r@) == old(self).rules().tokens(s@),
    {
        self.0.tokens_of_text(s)
    }
}

impl Default for BlanklineTokenizer {
    fn default() -> (r: Self)
        ensures
            r.rules().pat() == RE_BLANKLINE@,
            r.rules().gaps_flag(),
            r.rules().discard_flag(),
    {
        Self::new()
    }
}

/// Runs of word characters and runs of other non-space characters.
pub struct WordPunctTokenizer(RegexpTokenizer);

impl WordPunctTokenizer {
    /// The rules this tokenizer runs.
    pub closed spec fn rules(&self) -> RegexpTokenizer {
        self.0
    }

    pub fn new() -> (r: Self)
        ensures
            r.rules().pat() == RE_WORDPUNCT@,
            !r.rules().gaps_flag(),
            r.rules().discard_flag(),
    {
        WordPunctTokenizer(RegexpTokenizer::new(RE_WORDPUNCT, false, true))
    }

    /// The runs of word characters and of punctuation in `s`.
    pub fn tokenize(&mut self, s: &str) -> (r: Vec<String>)
        ensures
            *final(self) == *old(self),
            str_views(r@) == old(self).rules().tokens(s@),
    {
        self.0.tokens_of_text(s)
    }
}

impl Default for WordPunctTokenizer {
    fn default() -> (r: Self)
        ensures
            r.rules().pat() == RE_WORDPUNCT@,
            !r.rules().gaps_flag(),
            r.rules().discard_flag(),
    {
        Self::new()
    }
}

/// The tokens of `text` for `pattern`; text split at whitespace for `\s+` as
/// gaps with empty tokens dropped.
pub open spec fn regexp_tokenize_spec(text: Seq<char>, pattern: Seq<char>, gaps: bool, discard_empty: bool) -> Seq<Seq<char>> {
    if pattern == RE_WHITESPACE@ && gaps && discard_empty {
        split_ws(text)
    } else {
        regexp_tokens(pattern, gaps, discard_empty, text)
    }
}

/// The patterns `regexp_tokenize` runs with a regular expression of its own:
/// `\s+`, and `\w+` and `\d+` when the matches are the tokens.
pub open spec fn fast_pattern(pattern: Seq<char>, gaps: bool) -> bool {
    pattern == RE_WHITESPACE@ || (!gaps && (pattern == RE_WORD@ || pattern == RE_DIGITS@))
}

pub const RE_WORD: &'static str = r"\w+";
pub const RE_DIGITS: &'static str = r"\d+";

/// The tokens of `text` for `pattern` (see `regexp_tokenize_spec`); the pattern
/// must be a valid regular expression unless it is one of the fast patterns.
pub fn regexp_tokenize(text: &str, pattern: &str, gaps: bool, discard_empty: bool) -> (r: Vec<
    String,
>)
    requires
        regex_compiles(pattern@) || fast_pattern(pattern@, gaps),
    ensures
        str_views(r@) == regexp_tokenize_spec(text@, pattern@, gaps, discard_empty),
{
    let p = chars_of(pattern);
    let ws = eq_lit(&p, RE_WHITESPACE);
    if ws && gaps && discard_empty {
        return split_ws_strings(text);
    }
    let fast = ws || (!gaps && (eq_lit(&p, RE_WORD) || eq_lit(&p, RE_DIGITS)));
    let mut t = RegexpTokenizer::new(pattern, gaps, discard_empty);
    if fast {
        t.tokens_of_text(text)
    } else {
        t.tokenize(text)
    }
}

/// `regexp_tokenize`, or `None` when `pattern` is neither a valid regular
/// expression nor one of the fast patterns.
pub fn try_regexp_tokenize(text: &str, pattern: &str, gaps: bool, discard_empty: bool) -> (r:
    Option<Vec<String>>)
    ensures
        r is Some <==> (regex_compiles(pattern@) || fast_pattern(pattern@, gaps)),
        r matches Some(v) ==> str_views(v@) == regexp_tokenize_spec(
            text@,
            pattern@,
            gaps,
            discard_empty,
        ),
{
    let p = chars_of(pattern);
    let fast = eq_lit(&p, RE_WHITESPACE) || (!gaps && (eq_lit(&p, RE_WORD) || eq_lit(
        &p,
        RE_DIGITS,
    )));
    if fast || re_compiles(pattern) {
        Some(regexp_tokenize(text, pattern, gaps, discard_empty))
    } else {
        None
    }
}

} // verus!
