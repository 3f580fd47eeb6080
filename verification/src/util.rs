//! Span helpers: the offsets of the pieces of a string between occurrences of a
//! separator or between the matches of a regular expression.
use vstd::prelude::*;
use crate::api::{picks_out, spans_view};
use crate::regexp::{lemma_regexp_spans_pick_tokens, nonempty_pieces};
use crate::destructive::{find_from, find_from_exec, lemma_find_from_sound};
use crate::rx::{find_all, regex_compiles, rfind, rsplit, split_by, text_from};
use crate::text::{chars_of, chars_of_all, char_views, replace_chars, replace_seq, str_views, string_of};

verus! {

/// The spans of the pieces of `s` from `left` on between occurrences of `sep`: a
/// piece that ends at offset 0 is left out, an empty piece elsewhere is kept, and
/// nothing follows a separator that ends the text.
pub open spec fn string_spans_from(s: Seq<char>, sep: Seq<char>, left: int) -> Seq<(int, int)>
    decreases s.len() - left,
{
    if sep.len() == 0 || left < 0 || left > s.len() {
        seq![]
    } else {
        match find_from(s, sep, left) {
            Some(right) => {
                let head = if right != 0 {
                    seq![(left, right)]
                } else {
                    seq![]
                };
                let next = right + sep.len();
                proof {
                    lemma_find_from_sound(s, sep, left);
                }
                if next >= s.len() {
                    head
                } else {
                    head + string_spans_from(s, sep, next)
                }
            },
            None => if left != s.len() {
                seq![(left, s.len() as int)]
            } else {
                seq![]
            },
        }
    }
}

/// The spans of the pieces of `s` between occurrences of `sep`.
pub open spec fn string_spans(s: Seq<char>, sep: Seq<char>) -> Seq<(int, int)> {
    string_spans_from(s, sep, 0)
}

/// Character spans of the pieces of `s` between occurrences of `sep`.
pub fn string_span_tokenize(s: &str, sep: &str) -> (r: Vec<(usize, usize)>)
    requires
        sep@.len() > 0,
    ensures
        spans_view(r@) == string_spans(s@, sep@),
{
    let v = chars_of(s);
    let p = chars_of(sep);
    let ghost total = string_spans_from(v@, p@, 0);
    let mut out: Vec<(usize, usize)> = Vec::new();
    let mut left: usize = 0;
    assert(spans_view(out@) + total =~= total);
    loop
        invariant_except_break
            left <= v.len(),
            p.len() > 0,
            v@ == s@,
            p@ == sep@,
            total == string_spans_from(v@, p@, 0),
            spans_view(out@) + string_spans_from(v@, p@, left as int) == total,
        ensures
            spans_view(out@) == total,
        decreases v.len() - left,
    {
        let ghost before = spans_view(out@);
        match find_from_exec(&v, &p, left) {
            Some(right) => {
                proof {
                    lemma_find_from_sound(v@, p@, left as int);
                }
                if right != 0 {
                    out.push((left, right));
                    assert(spans_view(out@) =~= before + seq![(left as int, right as int)]);
                } else {
                    assert(spans_view(out@) =~= before + Seq::<(int, int)>::empty());
                }
                let next = right + p.len();
                if next >= v.len() {
                    break;
                }
                left = next;
            },
            None => {
                if left != v.len() {
                    out.push((left, v.len()));
                    assert(spans_view(out@) =~= before + seq![(left as int, v.len() as int)]);
                } else {
                    assert(spans_view(out@) =~= before + Seq::<(int, int)>::empty());
                }
                break;
            },
        }
    }
    out
}

/// The spans that `string_span_tokenize` reports lie inside the text, each ending
/// where or before the next begins.
pub proof fn lemma_string_spans_ordered(s: Seq<char>, sep: Seq<char>, left: int)
    requires
        0 <= left,
    ensures
        ({
            let sp = string_spans_from(s, sep, left);
            &&& forall|k: int|
                0 <= k < sp.len() ==> left <= #[trigger] sp[k].0 <= sp[k].1 <= s.len()
            &&& forall|k: int| 0 <= k < sp.len() - 1 ==> #[trigger] sp[k].1 <= sp[k + 1].0
        }),
    decreases s.len() - left,
{
    if sep.len() == 0 || left > s.len() {
    } else {
        match find_from(s, sep, left) {
            Some(right) => {
                lemma_find_from_sound(s, sep, left);
                let next = right + sep.len();
                if next < s.len() {
                    lemma_string_spans_ordered(s, sep, next);
                    let sp = string_spans_from(s, sep, left);
                    let rest = string_spans_from(s, sep, next);
                    if right != 0 {
                        assert(sp == seq![(left, right)] + rest);
                        assert forall|k: int| 0 <= k < sp.len() - 1 implies #[trigger] sp[k].1
                            <= sp[k + 1].0 by {
                            assert(sp[k + 1] == rest[k]);
                            if k > 0 {
                                assert(sp[k] == rest[k - 1]);
                            }
                        }
                        assert forall|k: int| 0 <= k < sp.len() implies left <= #[trigger] sp[k].0
                            <= sp[k].1 <= s.len() by {
                            if k > 0 {
                                assert(sp[k] == rest[k - 1]);
                            }
                        }
                    } else {
                        assert(sp =~= rest);
                    }
                }
            },
            None => {},
        }
    }
}

// ---------------------------------------------------------------------------
// Spans between the matches of a regular expression
// ---------------------------------------------------------------------------
/// The spans of the non-empty pieces `g[k..]` between the matches `m[k..]`,
/// piece `k` starting at `left`; the text has length `n`, and the piece after the
/// last match is reported when it is not empty.
pub open spec fn gap_spans_from(
    g: Seq<Seq<char>>,
    m: Seq<Seq<char>>,
    k: int,
    left: int,
    n: int,
) -> Seq<(int, int)>
    decreases m.len() - k,
{
    if k < 0 || k >= m.len() || k >= g.len() {
        if left < n {
            seq![(left, n)]
        } else {
            seq![]
        }
    } else {
        let right = left + g[k].len();
        (if g[k].len() > 0 {
            seq![(left, right)]
        } else {
            seq![]
        }) + gap_spans_from(g, m, k + 1, right + m[k].len(), n)
    }
}

/// The spans of the text of `t` between the matches of `p`, empty pieces left out.
pub open spec fn gap_spans(p: Seq<char>, t: Seq<char>) -> Seq<(int, int)> {
    gap_spans_from(rsplit(p, t), rfind(p, t), 0, 0, t.len() as int)
}

/// The spans between matches come in order: each is non-empty, starts at or after
/// `left` and ends at or before the start of the next.
pub proof fn lemma_gap_spans_ordered(g: Seq<Seq<char>>, m: Seq<Seq<char>>, k: int, left: int, n: int)
    ensures
        ({
            let sp = gap_spans_from(g, m, k, left, n);
            &&& forall|i: int| 0 <= i < sp.len() ==> left <= (#[trigger] sp[i]).0 < sp[i].1
            &&& forall|i: int| 0 <= i < sp.len() - 1 ==> (#[trigger] sp[i]).1 <= sp[i + 1].0
        }),
    decreases m.len() - k,
{
    if !(k < 0 || k >= m.len() || k >= g.len()) {
        let right = left + g[k].len();
        let next = right + m[k].len();
        lemma_gap_spans_ordered(g, m, k + 1, next, n);
        let rest = gap_spans_from(g, m, k + 1, next, n);
        let sp = gap_spans_from(g, m, k, left, n);
        if g[k].len() > 0 {
            assert(sp == seq![(left, right)] + rest);
            assert forall|i: int| 0 <= i < sp.len() implies left <= (#[trigger] sp[i]).0 < sp[i].1 by {
                if i > 0 {
                    assert(sp[i] == rest[i - 1]);
                }
            }
            assert forall|i: int| 0 <= i < sp.len() - 1 implies (#[trigger] sp[i]).1 <= sp[i + 1].0 by {
                assert(sp[i + 1] == rest[i]);
                if i > 0 {
                    assert(sp[i] == rest[i - 1]);
                }
            }
        } else {
            assert(sp =~= Seq::<(int, int)>::empty() + rest);
        }
    }
}

proof fn lemma_text_from_len(g: Seq<Seq<char>>, m: Seq<Seq<char>>, k: int)
    requires
        0 <= k < g.len(),
        k < m.len(),
    ensures
        text_from(g, m, k).len() == g[k].len() + m[k].len() + text_from(g, m, k + 1).len(),
{
}

/// The spans between the matches of `p` in `t` (see `gap_spans`).
pub(crate) fn gap_spans_of(p: &str, t: &str) -> (r: Vec<(usize, usize)>)
    ensures
        spans_view(r@) == gap_spans(p@, t@),
        picks_out(t@, spans_view(r@), nonempty_pieces(rsplit(p@, t@))),
{
    let gs = split_by(p, t);
    let ms = find_all(p, t);
    let g = chars_of_all(gs.as_slice());
    let m = chars_of_all(ms.as_slice());
    let n = chars_of(t).len();
    let ghost gv = char_views(g@);
    let ghost mv = char_views(m@);
    assert(gv == str_views(gs@));
    assert(mv == str_views(ms@));
    let ghost total = gap_spans_from(gv, mv, 0, 0, n as int);
    let mut out: Vec<(usize, usize)> = Vec::new();
    let mut left: usize = 0;
    let mut k: usize = 0;
    assert(spans_view(out@) + total =~= total);
    while k < m.len()
        invariant
            gv == char_views(g@),
            mv == char_views(m@),
            g.len() == m.len() + 1,
            n == t@.len(),
            text_from(gv, mv, 0) == t@,
            k <= m.len(),
            left + text_from(gv, mv, k as int).len() == n,
            total == gap_spans_from(gv, mv, 0, 0, n as int),
            spans_view(out@) + gap_spans_from(gv, mv, k as int, left as int, n as int) == total,
        decreases m.len() - k,
    {
        proof {
            lemma_text_from_len(gv, mv, k as int);
        }
        let right = left + g[k].len();
        let ghost before = spans_view(out@);
        if g[k].len() > 0 {
            out.push((left, right));
            assert(spans_view(out@) =~= before + seq![(left as int, right as int)]);
        } else {
            assert(spans_view(out@) =~= before + Seq::<(int, int)>::empty());
        }
        left = right + m[k].len();
        k = k + 1;
    }
    let ghost before = spans_view(out@);
    if left < n {
        out.push((left, n));
        assert(spans_view(out@) =~= before + seq![(left as int, n as int)]);
    } else {
        assert(spans_view(out@) =~= before + Seq::<(int, int)>::empty());
    }
    proof {
        lemma_regexp_spans_pick_tokens(rsplit(p@, t@), rfind(p@, t@), t@);
    }
    out
}

/// The spans of the text of `s` between the matches of `pattern`, empty pieces
/// left out.
pub fn regexp_span_tokenize(s: &str, pattern: &str) -> (r: Vec<(usize, usize)>)
    requires
        regex_compiles(pattern@),
    ensures
        spans_view(r@) == gap_spans(pattern@, s@),
{
    gap_spans_of(pattern, s)
}

/// `regexp_span_tokenize`, or `None` when `pattern` is not a valid regular
/// expression.
pub fn try_regexp_span_tokenize(s: &str, pattern: &str) -> (r: Option<Vec<(usize, usize)>>)
    ensures
        r is Some <==> regex_compiles(pattern@),
        r matches Some(v) ==> spans_view(v@) == gap_spans(pattern@, s@),
{
    if crate::rx::re_compiles(pattern) {
        Some(regexp_span_tokenize(s, pattern))
    } else {
        None
    }
}


// ---------------------------------------------------------------------------
// Relative spans, CJK characters, XML entities
// ---------------------------------------------------------------------------
/// The spans in order: each starts at or after the end of the one before.
pub open spec fn spans_in_order(sp: Seq<(usize, usize)>) -> bool {
    &&& forall|k: int| 0 <= k < sp.len() ==> (#[trigger] sp[k]).0 <= sp[k].1
    &&& forall|k: int| 0 < k < sp.len() ==> (#[trigger] sp[k]).0 >= sp[k - 1].1
}

/// Each span as (its distance from the end of the one before, its length).
pub open spec fn relative_spans(sp: Seq<(usize, usize)>) -> Seq<(int, int)> {
    Seq::new(
        sp.len(),
        |k: int|
            (sp[k].0 - (if k == 0 {
                0
            } else {
                sp[k - 1].1 as int
            }), sp[k].1 - sp[k].0),
    )
}

/// The spans as (gap after the end of the one before, length).
pub fn spans_to_relative(spans: &[(usize, usize)]) -> (r: Vec<(usize, usize)>)
    requires
        spans_in_order(spans@),
    ensures
        spans_view(r@) == relative_spans(spans@),
{
    let mut out: Vec<(usize, usize)> = Vec::new();
    let mut prev: usize = 0;
    for k in 0..spans.len()
        invariant
            spans_in_order(spans@),
            out.len() == k,
            prev == (if k == 0 { 0 } else { spans@[k - 1].1 }),
            forall|j: int| 0 <= j < k ==> #[trigger] spans_view(out@)[j] == relative_spans(spans@)[j],
    {
        let (l, r) = spans[k];
        assert(spans@[k as int].0 <= spans@[k as int].1);
        proof {
            if k > 0 {
                assert(spans@[k as int].0 >= spans@[k - 1].1);
            }
        }
        let ghost o = spans_view(out@);
        out.push((l - prev, r - l));
        prev = r;
        assert(spans_view(out@) =~= o.push(((l - (if k == 0 { 0 } else { spans@[k - 1].1 as int })) as int, (r - l) as int)));
        assert(spans_view(out@)[k as int] == relative_spans(spans@)[k as int]);
        assert forall|j: int| 0 <= j < k + 1 implies #[trigger] spans_view(out@)[j] == relative_spans(spans@)[j] by {
            if j < k {
                assert(spans_view(out@)[j] == o[j]);
            }
        }
    }
    assert(spans_view(out@) =~= relative_spans(spans@));
    out
}

/// The code point ranges of CJK characters: Hangul Jamo, CJK radicals to Yi,
/// Phags-pa, Hangul syllables, CJK compatibility ideographs and forms, halfwidth
/// Katakana and Hangul, and the supplementary ideographic plane.
pub open spec fn cjk_code(n: u32) -> bool {
    (4352 <= n && n <= 4607) || (11904 <= n && n <= 42191) || (43072 <= n && n <= 43135) || (44032
        <= n && n <= 55215) || (63744 <= n && n <= 64255) || (65072 <= n && n <= 65103) || (65381
        <= n && n <= 65500) || (131072 <= n && n <= 196607)
}

/// Whether `c` is a CJK character.
pub fn is_cjk(c: char) -> (b: bool)
    ensures
        b == cjk_code(c as u32),
{
    let n = c as u32;
    (4352 <= n && n <= 4607) || (11904 <= n && n <= 42191) || (43072 <= n && n <= 43135) || (44032
        <= n && n <= 55215) || (63744 <= n && n <= 64255) || (65072 <= n && n <= 65103) || (65381
        <= n && n <= 65500) || (131072 <= n && n <= 196607)
}

/// `&`, `>`, `<`, `'`, `"`, `|`, `[` and `]` written as entities, `&` first.
pub open spec fn xml_escaped(s: Seq<char>) -> Seq<char> {
    let s = replace_seq(s, "&"@, "&amp;"@);
    let s = replace_seq(s, ">"@, "&gt;"@);
    let s = replace_seq(s, "<"@, "&lt;"@);
    let s = replace_seq(s, "'"@, "&apos;"@);
    let s = replace_seq(s, "\""@, "&quot;"@);
    let s = replace_seq(s, "|"@, "&#124;"@);
    let s = replace_seq(s, "["@, "&#91;"@);
    replace_seq(s, "]"@, "&#93;"@)
}

/// The entities of `xml_escaped` decoded, `&amp;` last.
pub open spec fn xml_unescaped_all(s: Seq<char>) -> Seq<char> {
    let s = replace_seq(s, "&lt;"@, "<"@);
    let s = replace_seq(s, "&gt;"@, ">"@);
    let s = replace_seq(s, "&apos;"@, "'"@);
    let s = replace_seq(s, "&quot;"@, "\""@);
    let s = replace_seq(s, "&#124;"@, "|"@);
    let s = replace_seq(s, "&#91;"@, "["@);
    let s = replace_seq(s, "&#93;"@, "]"@);
    replace_seq(s, "&amp;"@, "&"@)
}

fn replace_str(s: &str, pat: &str, rep: &str) -> (r: String)
    ensures
        r@ == replace_seq(s@, pat@, rep@),
{
    let v = chars_of(s);
    let p = chars_of(pat);
    let q = chars_of(rep);
    let o = replace_chars(&v, &p, &q);
    string_of(o.as_slice())
}

/// Escapes the characters that XML and bracketed formats give a meaning to.
pub fn xml_escape(text: &str) -> (r: String)
    ensures
        r@ == xml_escaped(text@),
{
    let s = replace_str(text, "&", "&amp;");
    let s = replace_str(s.as_str(), ">", "&gt;");
    let s = replace_str(s.as_str(), "<", "&lt;");
    let s = replace_str(s.as_str(), "'", "&apos;");
    let s = replace_str(s.as_str(), "\"", "&quot;");
    let s = replace_str(s.as_str(), "|", "&#124;");
    let s = replace_str(s.as_str(), "[", "&#91;");
    replace_str(s.as_str(), "]", "&#93;")
}

/// Decodes the entities that `xml_escape` writes.
pub fn xml_unescape(text: &str) -> (r: String)
    ensures
        r@ == xml_unescaped_all(text@),
{
    let s = replace_str(text, "&lt;", "<");
    let s = replace_str(s.as_str(), "&gt;", ">");
    let s = replace_str(s.as_str(), "&apos;", "'");
    let s = replace_str(s.as_str(), "&quot;", "\"");
    let s = replace_str(s.as_str(), "&#124;", "|");
    let s = replace_str(s.as_str(), "&#91;", "[");
    let s = replace_str(s.as_str(), "&#93;", "]");
    replace_str(s.as_str(), "&amp;", "&")
}


// ---------------------------------------------------------------------------
// Escaping and unescaping undo each other
// ---------------------------------------------------------------------------
/// The pass of `xml_unescaped_all` that decodes `c` (counting from 1), or 0 for a
/// character that `xml_escaped` leaves as it is.
spec fn entity_rank(c: char) -> int {
    if c == '<' {
        1
    } else if c == '>' {
        2
    } else if c == '\'' {
        3
    } else if c == '"' {
        4
    } else if c == '|' {
        5
    } else if c == '[' {
        6
    } else if c == ']' {
        7
    } else if c == '&' {
        8
    } else {
        0
    }
}

/// The character that pass `k` of `xml_unescaped_all` writes back.
spec fn entity_char(k: int) -> char {
    if k == 1 {
        '<'
    } else if k == 2 {
        '>'
    } else if k == 3 {
        '\''
    } else if k == 4 {
        '"'
    } else if k == 5 {
        '|'
    } else if k == 6 {
        '['
    } else if k == 7 {
        ']'
    } else {
        '&'
    }
}

/// The entity that pass `k` of `xml_unescaped_all` decodes.
spec fn entity_seq(k: int) -> Seq<char> {
    if k == 1 {
        seq!['&', 'l', 't', ';']
    } else if k == 2 {
        seq!['&', 'g', 't', ';']
    } else if k == 3 {
        seq!['&', 'a', 'p', 'o', 's', ';']
    } else if k == 4 {
        seq!['&', 'q', 'u', 'o', 't', ';']
    } else if k == 5 {
        seq!['&', '#', '1', '2', '4', ';']
    } else if k == 6 {
        seq!['&', '#', '9', '1', ';']
    } else if k == 7 {
        seq!['&', '#', '9', '3', ';']
    } else {
        seq!['&', 'a', 'm', 'p', ';']
    }
}

/// What `c` has become in an escaped text after `k` passes of unescaping.
spec fn escaped_block(c: char, k: int) -> Seq<char> {
    if entity_rank(c) <= k {
        seq![c]
    } else {
        entity_seq(entity_rank(c))
    }
}

/// An escaped text after `k` passes of unescaping.
spec fn partly_escaped(s: Seq<char>, k: int) -> Seq<char>
    decreases s.len(),
{
    if s.len() == 0 {
        s
    } else {
        escaped_block(s[0], k) + partly_escaped(s.drop_first(), k)
    }
}

/// `b` and `p` differ at some offset that both have.
spec fn diverges(b: Seq<char>, p: Seq<char>) -> bool {
    exists|i: int| #![trigger b[i]] 0 <= i < b.len() && i < p.len() && b[i] != p[i]
}

proof fn lemma_replace_skips_block(block: Seq<char>, rest: Seq<char>, pat: Seq<char>, rep: Seq<char>)
    requires
        pat.len() > 0,
        block.len() > 0 ==> diverges(block, pat),
        forall|j: int| 1 <= j < block.len() ==> block[j] != pat[0],
    ensures
        replace_seq(block + rest, pat, rep) == block + replace_seq(rest, pat, rep),
    decreases block.len(),
{
    let s = block + rest;
    if block.len() == 0 {
        assert(s =~= rest);
    } else {
        let i = choose|i: int| 0 <= i < block.len() && i < pat.len() && block[i] != pat[i];
        let b2 = block.drop_first();
        if b2.len() > 0 {
            assert(b2[0] != pat[0]);
            assert(diverges(b2, pat));
        }
        lemma_replace_skips_block(b2, rest, pat, rep);
        assert(s.drop_first() =~= b2 + rest);
        assert(block =~= seq![block[0]] + b2);
        if s.len() >= pat.len() {
            assert(s.take(pat.len() as int)[i] == block[i]);
            assert(s.take(pat.len() as int) != pat);
            assert(s[0] == block[0]);
            assert(replace_seq(s, pat, rep) == seq![s[0]] + replace_seq(s.drop_first(), pat, rep));
            assert(replace_seq(s, pat, rep) =~= block + replace_seq(rest, pat, rep));
        } else {
            assert(replace_seq(rest, pat, rep) == rest);
        }
    }
}

proof fn lemma_replace_char_concat(a: Seq<char>, b: Seq<char>, c: char, rep: Seq<char>)
    ensures
        replace_seq(a + b, seq![c], rep) == replace_seq(a, seq![c], rep) + replace_seq(
            b,
            seq![c],
            rep,
        ),
    decreases a.len(),
{
    let s = a + b;
    if a.len() == 0 {
        assert(s =~= b);
        assert(replace_seq(a, seq![c], rep) =~= a);
        assert(replace_seq(a, seq![c], rep) + replace_seq(b, seq![c], rep) =~= replace_seq(b, seq![c], rep));
    } else {
        let a2 = a.drop_first();
        lemma_replace_char_concat(a2, b, c, rep);
        assert(s.drop_first() =~= a2 + b);
        assert(s.skip(1) =~= a2 + b);
        assert(a.skip(1) =~= a2);
        assert(s.take(1) =~= a.take(1));
        if a.take(1) == seq![c] {
            assert(replace_seq(s, seq![c], rep) == rep + replace_seq(a2 + b, seq![c], rep));
            assert(replace_seq(a, seq![c], rep) == rep + replace_seq(a2, seq![c], rep));
        } else {
            assert(replace_seq(s, seq![c], rep) == seq![s[0]] + replace_seq(a2 + b, seq![c], rep));
            if a.len() >= 1 {
                assert(replace_seq(a, seq![c], rep) == seq![a[0]] + replace_seq(a2, seq![c], rep));
            }
        }
    }
}

proof fn lemma_replace_char_absent(t: Seq<char>, c: char, rep: Seq<char>)
    requires
        forall|j: int| 0 <= j < t.len() ==> t[j] != c,
    ensures
        replace_seq(t, seq![c], rep) == t,
    decreases t.len(),
{
    if t.len() > 0 {
        assert(t.take(1)[0] != c);
        assert(t.take(1) != seq![c]);
        lemma_replace_char_absent(t.drop_first(), c, rep);
        assert(t =~= seq![t[0]] + t.drop_first());
    }
}

/// One escaping pass on a single character or on an entity that holds no `c`.
proof fn lemma_escape_step(t: Seq<char>, c: char, rep: Seq<char>)
    requires
        t == seq![c] || forall|j: int| 0 <= j < t.len() ==> t[j] != c,
    ensures
        replace_seq(t, seq![c], rep) == (if t == seq![c] { rep } else { t }),
{
    if t == seq![c] {
        assert(t.take(1) =~= seq![c]);
        assert(t.skip(1) =~= Seq::<char>::empty());
        assert(replace_seq(t.skip(1), seq![c], rep) == t.skip(1));
        assert(rep + t.skip(1) =~= rep);
    } else {
        lemma_replace_char_absent(t, c, rep);
    }
}


proof fn lemma_escape_patterns()
    ensures
        "&"@ == seq!['&'],
        ">"@ == seq!['>'],
        "<"@ == seq!['<'],
        "'"@ == seq!['\''],
        "\""@ == seq!['"'],
        "|"@ == seq!['|'],
        "["@ == seq!['['],
        "]"@ == seq![']'],
        "&amp;"@ == entity_seq(8),
        "&gt;"@ == entity_seq(2),
        "&lt;"@ == entity_seq(1),
        "&apos;"@ == entity_seq(3),
        "&quot;"@ == entity_seq(4),
        "&#124;"@ == entity_seq(5),
        "&#91;"@ == entity_seq(6),
        "&#93;"@ == entity_seq(7),
{
    reveal_strlit("&");
    reveal_strlit(">");
    reveal_strlit("<");
    reveal_strlit("'");
    reveal_strlit("\"");
    reveal_strlit("|");
    reveal_strlit("[");
    reveal_strlit("]");
    reveal_strlit("&amp;");
    reveal_strlit("&gt;");
    reveal_strlit("&lt;");
    reveal_strlit("&apos;");
    reveal_strlit("&quot;");
    reveal_strlit("&#124;");
    reveal_strlit("&#91;");
    reveal_strlit("&#93;");
    assert("&"@ =~= seq!['&']);
    assert(">"@ =~= seq!['>']);
    assert("<"@ =~= seq!['<']);
    assert("'"@ =~= seq!['\'']);
    assert("\""@ =~= seq!['"']);
    assert("|"@ =~= seq!['|']);
    assert("["@ =~= seq!['[']);
    assert("]"@ =~= seq![']']);
    assert("&amp;"@ =~= entity_seq(8));
    assert("&gt;"@ =~= entity_seq(2));
    assert("&lt;"@ =~= entity_seq(1));
    assert("&apos;"@ =~= entity_seq(3));
    assert("&quot;"@ =~= entity_seq(4));
    assert("&#124;"@ =~= entity_seq(5));
    assert("&#91;"@ =~= entity_seq(6));
    assert("&#93;"@ =~= entity_seq(7));
}

proof fn lemma_escaped_concat(a: Seq<char>, b: Seq<char>)
    ensures
        xml_escaped(a + b) == xml_escaped(a) + xml_escaped(b),
{
    lemma_escape_patterns();
    let a1 = replace_seq(a, seq!['&'], entity_seq(8));
    let b1 = replace_seq(b, seq!['&'], entity_seq(8));
    lemma_replace_char_concat(a, b, '&', entity_seq(8));
    let a2 = replace_seq(a1, seq!['>'], entity_seq(2));
    let b2 = replace_seq(b1, seq!['>'], entity_seq(2));
    lemma_replace_char_concat(a1, b1, '>', entity_seq(2));
    let a3 = replace_seq(a2, seq!['<'], entity_seq(1));
    let b3 = replace_seq(b2, seq!['<'], entity_seq(1));
    lemma_replace_char_concat(a2, b2, '<', entity_seq(1));
    let a4 = replace_seq(a3, seq!['\''], entity_seq(3));
    let b4 = replace_seq(b3, seq!['\''], entity_seq(3));
    lemma_replace_char_concat(a3, b3, '\'', entity_seq(3));
    let a5 = replace_seq(a4, seq!['"'], entity_seq(4));
    let b5 = replace_seq(b4, seq!['"'], entity_seq(4));
    lemma_replace_char_concat(a4, b4, '"', entity_seq(4));
    let a6 = replace_seq(a5, seq!['|'], entity_seq(5));
    let b6 = replace_seq(b5, seq!['|'], entity_seq(5));
    lemma_replace_char_concat(a5, b5, '|', entity_seq(5));
    let a7 = replace_seq(a6, seq!['['], entity_seq(6));
    let b7 = replace_seq(b6, seq!['['], entity_seq(6));
    lemma_replace_char_concat(a6, b6, '[', entity_seq(6));
    lemma_replace_char_concat(a7, b7, ']', entity_seq(7));
}

/// No entity holds a character that `xml_escaped` writes as an entity, but its
/// leading `&`.
proof fn lemma_entity_chars(k: int)
    requires
        1 <= k <= 8,
    ensures
        entity_seq(k)[0] == '&',
        forall|j: int| 0 <= j < entity_seq(k).len() ==> 1 <= entity_rank(#[trigger] entity_seq(k)[j]) <= 8 ==> j == 0,
{
}

proof fn lemma_escaped_char(x: char)
    ensures
        xml_escaped(seq![x]) == escaped_block(x, 0),
{
    lemma_escape_patterns();
    let r = entity_rank(x);
    let e = escaped_block(x, 0);
    if r != 0 {
        lemma_entity_chars(r);
    }
    let t0 = seq![x];
    lemma_escape_step(t0, '&', entity_seq(8));
    let t1 = replace_seq(t0, seq!['&'], entity_seq(8));
    assert(t1 == if x == '&' { e } else { t0 });
    lemma_escape_step(t1, '>', entity_seq(2));
    let t2 = replace_seq(t1, seq!['>'], entity_seq(2));
    assert(t2 == if x == '&' || x == '>' { e } else { t0 });
    lemma_escape_step(t2, '<', entity_seq(1));
    let t3 = replace_seq(t2, seq!['<'], entity_seq(1));
    assert(t3 == if x == '&' || x == '>' || x == '<' { e } else { t0 });
    lemma_escape_step(t3, '\'', entity_seq(3));
    let t4 = replace_seq(t3, seq!['\''], entity_seq(3));
    assert(t4 == if x == '&' || x == '>' || x == '<' || x == '\'' { e } else { t0 });
    lemma_escape_step(t4, '"', entity_seq(4));
    let t5 = replace_seq(t4, seq!['"'], entity_seq(4));
    assert(t5 == if r >= 1 && r <= 4 || r == 8 { e } else { t0 });
    lemma_escape_step(t5, '|', entity_seq(5));
    let t6 = replace_seq(t5, seq!['|'], entity_seq(5));
    assert(t6 == if r >= 1 && r <= 5 || r == 8 { e } else { t0 });
    lemma_escape_step(t6, '[', entity_seq(6));
    let t7 = replace_seq(t6, seq!['['], entity_seq(6));
    assert(t7 == if r >= 1 && r <= 6 || r == 8 { e } else { t0 });
    lemma_escape_step(t7, ']', entity_seq(7));
}

proof fn lemma_escaped_partly(s: Seq<char>)
    ensures
        xml_escaped(s) == partly_escaped(s, 0),
    decreases s.len(),
{
    if s.len() == 0 {
        lemma_escape_patterns();
        lemma_replace_char_absent(s, '&', entity_seq(8));
        lemma_replace_char_absent(s, '>', entity_seq(2));
        lemma_replace_char_absent(s, '<', entity_seq(1));
        lemma_replace_char_absent(s, '\'', entity_seq(3));
        lemma_replace_char_absent(s, '"', entity_seq(4));
        lemma_replace_char_absent(s, '|', entity_seq(5));
        lemma_replace_char_absent(s, '[', entity_seq(6));
        lemma_replace_char_absent(s, ']', entity_seq(7));
    } else {
        lemma_escaped_partly(s.drop_first());
        lemma_escaped_char(s[0]);
        assert(s =~= seq![s[0]] + s.drop_first());
        lemma_escaped_concat(seq![s[0]], s.drop_first());
    }
}


proof fn lemma_entities_diverge(a: int, b: int)
    requires
        1 <= a <= 8,
        1 <= b <= 8,
        a != b,
    ensures
        diverges(entity_seq(a), entity_seq(b)),
{
    let x = entity_seq(a);
    let y = entity_seq(b);
    if x[1] != y[1] {
        assert(diverges(x, y));
    } else if x[2] != y[2] {
        assert(diverges(x, y));
    } else {
        assert(x[3] != y[3]);
        assert(diverges(x, y));
    }
}

/// Pass `k` of unescaping turns the text after `k - 1` passes into the text after
/// `k` passes.
proof fn lemma_unescape_pass(s: Seq<char>, k: int)
    requires
        1 <= k <= 8,
    ensures
        replace_seq(partly_escaped(s, k - 1), entity_seq(k), seq![entity_char(k)])
            == partly_escaped(s, k),
    decreases s.len(),
{
    let pat = entity_seq(k);
    let rep = seq![entity_char(k)];
    lemma_entity_chars(k);
    if s.len() == 0 {
        assert(replace_seq(s, pat, rep) == s);
    } else {
        let c = s[0];
        let rest = s.drop_first();
        lemma_unescape_pass(rest, k);
        let blk = escaped_block(c, k - 1);
        let r = partly_escaped(rest, k - 1);
        let t = blk + r;
        if entity_rank(c) == k {
            assert(blk == pat);
            assert(t.take(pat.len() as int) =~= pat);
            assert(t.skip(pat.len() as int) =~= r);
            assert(replace_seq(t, pat, rep) == rep + replace_seq(r, pat, rep));
            assert(entity_char(k) == c);
        } else {
            assert(escaped_block(c, k) == blk);
            if entity_rank(c) <= k - 1 {
                assert(c != '&');
                assert(blk[0] != pat[0]);
                assert(diverges(blk, pat));
            } else {
                lemma_entities_diverge(entity_rank(c), k);
                lemma_entity_chars(entity_rank(c));
                assert forall|j: int| 1 <= j < blk.len() implies blk[j] != pat[0] by {
                    assert(entity_rank(blk[j]) == 0 || entity_rank(blk[j]) > 8 || j == 0);
                }
            }
            lemma_replace_skips_block(blk, r, pat, rep);
        }
    }
}

proof fn lemma_fully_unescaped(s: Seq<char>)
    ensures
        partly_escaped(s, 8) == s,
    decreases s.len(),
{
    if s.len() > 0 {
        lemma_fully_unescaped(s.drop_first());
        assert(s =~= seq![s[0]] + s.drop_first());
    }
}

/// Unescaping what `xml_escape` wrote gives the text back.
pub proof fn lemma_xml_round_trip(s: Seq<char>)
    ensures
        xml_unescaped_all(xml_escaped(s)) == s,
{
    lemma_escape_patterns();
    lemma_escaped_partly(s);
    assert("<"@ == seq![entity_char(1)]);
    assert(">"@ == seq![entity_char(2)]);
    assert("'"@ == seq![entity_char(3)]);
    assert("\""@ == seq![entity_char(4)]);
    assert("|"@ == seq![entity_char(5)]);
    assert("["@ == seq![entity_char(6)]);
    assert("]"@ == seq![entity_char(7)]);
    assert("&"@ == seq![entity_char(8)]);
    lemma_unescape_pass(s, 1);
    lemma_unescape_pass(s, 2);
    lemma_unescape_pass(s, 3);
    lemma_unescape_pass(s, 4);
    lemma_unescape_pass(s, 5);
    lemma_unescape_pass(s, 6);
    lemma_unescape_pass(s, 7);
    lemma_unescape_pass(s, 8);
    lemma_fully_unescaped(s);
}

} // verus!



