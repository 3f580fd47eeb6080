//! Tokenizers that split at a single character: spaces, tabs, every character,
//! and line breaks.
use vstd::prelude::*;
use crate::api::{lemma_picks_out_concat, picks_out, spans_view, TokenizerI};
use crate::destructive::{find_from, lemma_find_from_sound};
use crate::destructive::eq_lit;
use crate::text::{
    char_views, chars_of, join_seq, occurs_at, split_acc, split_chars, split_seq, str_views, string_of,
    strings_of, trim, trim_chars,
};
use crate::util::{gap_spans, gap_spans_of, string_span_tokenize, string_spans, string_spans_from};

verus! {

/// Splits at every space; empty tokens are kept.
pub struct SpaceTokenizer;

impl TokenizerI for SpaceTokenizer {
    open spec fn accepts(&self, s: Seq<char>) -> bool {
        true
    }

    open spec fn tokens_of(&self, s: Seq<char>) -> Seq<Seq<char>> {
        split_seq(s, seq![' '])
    }

    open spec fn spans_ok(&self, s: Seq<char>) -> bool {
        true
    }

    open spec fn spans_of(&self, s: Seq<char>) -> Seq<(int, int)> {
        string_spans(s, seq![' '])
    }

    fn tokenize(&self, s: &str) -> (r: Vec<String>) {
        let v = chars_of(s);
        let sep = vec![' '];
        assert(sep@ =~= seq![' ']);
        let parts = split_chars(&v, &sep);
        strings_of(&parts)
    }

    fn span_tokenize(&self, s: &str) -> (r: Vec<(usize, usize)>) {
        proof {
            reveal_strlit(" ");
        }
        assert(" "@ =~= seq![' ']);
        string_span_tokenize(s, " ")
    }
}

/// Splits at every tab; empty tokens are kept.
pub struct TabTokenizer;

impl TokenizerI for TabTokenizer {
    open spec fn accepts(&self, s: Seq<char>) -> bool {
        true
    }

    open spec fn tokens_of(&self, s: Seq<char>) -> Seq<Seq<char>> {
        split_seq(s, seq!['\t'])
    }

    open spec fn spans_ok(&self, s: Seq<char>) -> bool {
        true
    }

    open spec fn spans_of(&self, s: Seq<char>) -> Seq<(int, int)> {
        string_spans(s, seq!['\t'])
    }

    fn tokenize(&self, s: &str) -> (r: Vec<String>) {
        let v = chars_of(s);
        let sep = vec!['\t'];
        assert(sep@ =~= seq!['\t']);
        let parts = split_chars(&v, &sep);
        strings_of(&parts)
    }

    fn span_tokenize(&self, s: &str) -> (r: Vec<(usize, usize)>) {
        proof {
            reveal_strlit("\t");
        }
        assert("\t"@ =~= seq!['\t']);
        string_span_tokenize(s, "\t")
    }
}

/// Every character a token of its own.
pub struct CharTokenizer;

impl TokenizerI for CharTokenizer {
    open spec fn accepts(&self, s: Seq<char>) -> bool {
        true
    }

    open spec fn tokens_of(&self, s: Seq<char>) -> Seq<Seq<char>> {
        Seq::new(s.len(), |i: int| seq![s[i]])
    }

    open spec fn spans_ok(&self, s: Seq<char>) -> bool {
        true
    }

    open spec fn spans_of(&self, s: Seq<char>) -> Seq<(int, int)> {
        Seq::new(s.len(), |i: int| (i, i + 1))
    }

    fn tokenize(&self, s: &str) -> (r: Vec<String>) {
        let v = chars_of(s);
        let mut out: Vec<String> = Vec::new();
        for i in 0..v.len()
            invariant
                v@ == s@,
                out.len() == i,
                forall|j: int| 0 <= j < i ==> #[trigger] out@[j]@ == seq![v@[j]],
        {
            let one = vec![v[i]];
            out.push(string_of(one.as_slice()));
        }
        assert(str_views(out@) =~= Seq::new(s@.len(), |i: int| seq![s@[i]]));
        out
    }

    fn span_tokenize(&self, s: &str) -> (r: Vec<(usize, usize)>) {
        let v = chars_of(s);
        let mut out: Vec<(usize, usize)> = Vec::new();
        for i in 0..v.len()
            invariant
                v@ == s@,
                out.len() == i,
                forall|j: int| 0 <= j < i ==> #[trigger] out@[j] == (j as usize, (j + 1) as usize),
        {
            out.push((i, i + 1));
        }
        assert(spans_view(out@) =~= Seq::new(s@.len(), |i: int| (i, i + 1)));
        out
    }
}

/// Splitting the text from `j` on, with `cur` already taken into the first piece:
/// that piece runs to the next occurrence of `sep` (or the end).
pub(crate) proof fn lemma_split_at_find(s: Seq<char>, sep: Seq<char>, j: int, cur: Seq<char>)
    requires
        sep.len() > 0,
        0 <= j <= s.len(),
    ensures
        split_acc(s.skip(j), sep, cur) == match find_from(s, sep, j) {
            Some(r) => seq![cur + s.subrange(j, r)] + split_acc(s.skip(r + sep.len()), sep, seq![]),
            None => seq![cur + s.skip(j)],
        },
    decreases s.len() - j,
{
    let t = s.skip(j);
    if j == s.len() {
        assert(t =~= Seq::<char>::empty());
        assert(cur + t =~= cur);
    } else if j + sep.len() <= s.len() && occurs_at(s, j, sep) {
        assert(t.take(sep.len() as int) =~= s.subrange(j, j + sep.len()));
        assert(t.skip(sep.len() as int) =~= s.skip(j + sep.len()));
        assert(s.subrange(j, j) =~= Seq::<char>::empty());
        assert(cur + s.subrange(j, j) =~= cur);
    } else {
        if t.len() >= sep.len() {
            assert(t.take(sep.len() as int) =~= s.subrange(j, j + sep.len()));
        }
        assert(t.drop_first() =~= s.skip(j + 1));
        assert(t[0] == s[j]);
        lemma_split_at_find(s, sep, j + 1, cur.push(s[j]));
        assert(find_from(s, sep, j) == find_from(s, sep, j + 1));
        match find_from(s, sep, j + 1) {
            Some(r) => {
                lemma_find_from_sound(s, sep, j + 1);
                assert(cur.push(s[j]) + s.subrange(j + 1, r) =~= cur + s.subrange(j, r));
            },
            None => {
                assert(cur.push(s[j]) + s.skip(j + 1) =~= cur + s.skip(j));
            },
        }
    }
}

proof fn lemma_string_spans_pick_from(s: Seq<char>, sep: Seq<char>, left: int)
    requires
        sep.len() > 0,
        0 <= left < s.len(),
        left == 0 ==> !occurs_at(s, 0, sep),
        !occurs_at(s, s.len() - sep.len(), sep),
    ensures
        picks_out(s, string_spans_from(s, sep, left), split_acc(s.skip(left), sep, seq![])),
    decreases s.len() - left,
{
    lemma_split_at_find(s, sep, left, seq![]);
    match find_from(s, sep, left) {
        Some(right) => {
            lemma_find_from_sound(s, sep, left);
            let next = right + sep.len();
            assert(right != 0);
            assert(next < s.len());
            lemma_string_spans_pick_from(s, sep, next);
            assert(Seq::<char>::empty() + s.subrange(left, right) =~= s.subrange(left, right));
            assert(picks_out(s, seq![(left, right)], seq![s.subrange(left, right)]));
            lemma_picks_out_concat(
                s,
                seq![(left, right)],
                seq![s.subrange(left, right)],
                string_spans_from(s, sep, next),
                split_acc(s.skip(next), sep, seq![]),
            );
        },
        None => {
            assert(Seq::<char>::empty() + s.skip(left) =~= s.subrange(left, s.len() as int));
            assert(picks_out(s, seq![(left, s.len() as int)], seq![s.skip(left)]));
        },
    }
}

/// The spans of the space and tab tokenizers pick out their tokens: for a text
/// that is not empty and neither begins nor ends with the separator, each span
/// of `string_spans` covers the piece of `str::split` at the same place.
pub proof fn lemma_string_spans_pick_pieces(s: Seq<char>, sep: Seq<char>)
    requires
        sep.len() > 0,
        s.len() > 0,
        !occurs_at(s, 0, sep),
        !occurs_at(s, s.len() - sep.len(), sep),
    ensures
        picks_out(s, string_spans(s, sep), split_seq(s, sep)),
{
    assert(s.skip(0) =~= s);
    lemma_string_spans_pick_from(s, sep, 0);
}

/// Splitting at a separator and joining the pieces with it gives back the text:
/// the space and tab tokenizers lose nothing.
pub proof fn lemma_split_join(s: Seq<char>, sep: Seq<char>)
    requires
        sep.len() > 0,
    ensures
        join_seq(split_seq(s, sep), sep) == s,
{
    lemma_split_acc_join(s, sep, seq![]);
    assert(Seq::<char>::empty() + s =~= s);
}

proof fn lemma_split_acc_nonempty(s: Seq<char>, sep: Seq<char>, cur: Seq<char>)
    ensures
        split_acc(s, sep, cur).len() > 0,
    decreases s.len(),
{
    if s.len() == 0 || sep.len() == 0 {
    } else if s.len() >= sep.len() && s.take(sep.len() as int) == sep {
        lemma_split_acc_nonempty(s.skip(sep.len() as int), sep, seq![]);
    } else {
        lemma_split_acc_nonempty(s.drop_first(), sep, cur.push(s[0]));
    }
}

proof fn lemma_join_cons(a: Seq<char>, rest: Seq<Seq<char>>, sep: Seq<char>)
    requires
        rest.len() > 0,
    ensures
        join_seq(seq![a] + rest, sep) == a + sep + join_seq(rest, sep),
    decreases rest.len(),
{
    let all = seq![a] + rest;
    assert(all.last() == rest.last());
    if rest.len() == 1 {
        assert(all.drop_last() =~= seq![a]);
        assert(join_seq(all.drop_last(), sep) == a);
        assert(join_seq(rest, sep) == rest[0]);
    } else {
        lemma_join_cons(a, rest.drop_last(), sep);
        assert(all.drop_last() =~= seq![a] + rest.drop_last());
        assert(join_seq(all, sep) == join_seq(all.drop_last(), sep) + sep + all.last());
        assert(join_seq(rest, sep) == join_seq(rest.drop_last(), sep) + sep + rest.last());
        assert(a + sep + join_seq(rest, sep) =~= a + sep + join_seq(rest.drop_last(), sep) + sep
            + rest.last());
    }
}

proof fn lemma_split_acc_join(s: Seq<char>, sep: Seq<char>, cur: Seq<char>)
    requires
        sep.len() > 0,
    ensures
        join_seq(split_acc(s, sep, cur), sep) == cur + s,
    decreases s.len(),
{
    if s.len() == 0 {
    } else if s.len() >= sep.len() && s.take(sep.len() as int) == sep {
        let rest = split_acc(s.skip(sep.len() as int), sep, seq![]);
        lemma_split_acc_join(s.skip(sep.len() as int), sep, seq![]);
        lemma_split_acc_nonempty(s.skip(sep.len() as int), sep, seq![]);
        lemma_join_cons(cur, rest, sep);
        assert(Seq::<char>::empty() + s.skip(sep.len() as int) =~= s.skip(sep.len() as int));
        assert(cur + sep + s.skip(sep.len() as int) =~= cur + s);
    } else {
        lemma_split_acc_join(s.drop_first(), sep, cur.push(s[0]));
        assert(cur.push(s[0]) + s.drop_first() =~= cur + s);
    }
}

/// Joining the character tokens gives back the text.
pub proof fn lemma_char_tokens_concat(s: Seq<char>)
    ensures
        Seq::new(s.len(), |i: int| seq![s[i]]).flatten() == s,
    decreases s.len(),
{
    let t = Seq::new(s.len(), |i: int| seq![s[i]]);
    if s.len() > 0 {
        lemma_char_tokens_concat(s.drop_first());
        assert(t.drop_first() =~= Seq::new(s.drop_first().len(), |i: int| seq![s.drop_first()[i]]));
        assert(t.flatten() == t[0] + t.drop_first().flatten());
        assert(seq![s[0]] + s.drop_first() =~= s);
    } else {
        assert(t =~= Seq::<Seq<char>>::empty());
    }
}

// ---------------------------------------------------------------------------
// Lines
// ---------------------------------------------------------------------------
/// The lines of `s`: the pieces between line breaks, without the empty piece
/// after a final line break.
pub open spec fn lines(s: Seq<char>) -> Seq<Seq<char>> {
    let parts = split_seq(s, seq!['\n']);
    if s.len() > 0 && s.last() == '\n' {
        parts.drop_last()
    } else {
        parts
    }
}

/// The lines of `v` that hold something other than whitespace, in order.
pub open spec fn nonblank_lines(v: Seq<Seq<char>>) -> Seq<Seq<char>>
    decreases v.len(),
{
    if v.len() == 0 {
        seq![]
    } else if trim(v.last()).len() > 0 {
        nonblank_lines(v.drop_last()).push(v.last())
    } else {
        nonblank_lines(v.drop_last())
    }
}

/// The three ways of treating blank lines.
pub open spec fn valid_blanklines(mode: Seq<char>) -> bool {
    mode == "discard"@ || mode == "keep"@ || mode == "discard-eof"@
}

/// The line tokens of `s`: all lines with `keep`; the non-blank ones with
/// `discard`; with `discard-eof`, all lines but a blank last line.
pub open spec fn line_tokens(mode: Seq<char>, s: Seq<char>) -> Seq<Seq<char>> {
    let parts = lines(s);
    if mode == "discard"@ {
        nonblank_lines(parts)
    } else if mode == "discard-eof"@ {
        if parts.len() > 0 && trim(parts.last()).len() == 0 {
            parts.drop_last()
        } else {
            parts
        }
    } else {
        parts
    }
}

/// The regular expression between lines when blank lines are not kept.
pub const RE_LINE_BREAKS: &'static str = r"\n(\s+\n)*";

/// The spans of the line tokens: the pieces between line breaks with `keep`, and
/// otherwise the text between runs of line breaks and blank lines.
pub open spec fn line_spans(mode: Seq<char>, s: Seq<char>) -> Seq<(int, int)> {
    if mode == "keep"@ {
        string_spans(s, seq!['\n'])
    } else {
        gap_spans(RE_LINE_BREAKS@, s)
    }
}

/// Splits text into lines; `blanklines` is `discard`, `keep` or `discard-eof`.
pub struct LineTokenizer {
    pub blanklines: String,
}

fn keep_nonblank(v: &Vec<Vec<char>>) -> (r: Vec<Vec<char>>)
    ensures
        char_views(r@) == nonblank_lines(char_views(v@)),
{
    let ghost d = char_views(v@);
    let mut out: Vec<Vec<char>> = Vec::new();
    for i in 0..v.len()
        invariant
            d == char_views(v@),
            char_views(out@) == nonblank_lines(d.take(i as int)),
    {
        assert(d.take(i + 1).drop_last() =~= d.take(i as int));
        assert(d.take(i + 1).last() == v@[i as int]@);
        let t = trim_chars(&v[i]);
        if t.len() > 0 {
            let ghost before = char_views(out@);
            let line = crate::text::copy_chars(&v[i]);
            out.push(line);
            assert(char_views(out@) =~= before.push(d[i as int]));
        }
    }
    assert(d.take(v.len() as int) =~= d);
    out
}

impl LineTokenizer {
    /// A line tokenizer; `blanklines` must be `discard`, `keep` or `discard-eof`.
    pub fn new(blanklines: &str) -> (r: Self)
        requires
            valid_blanklines(blanklines@),
        ensures
            r.blanklines@ == blanklines@,
    {
        LineTokenizer { blanklines: blanklines.to_owned() }
    }

    /// The lines of `s` (see `lines`).
    pub fn split_keep_eof(s: &str) -> (r: Vec<String>)
        ensures
            str_views(r@) == lines(s@),
    {
        let v = chars_of(s);
        let sep = vec!['\n'];
        assert(sep@ =~= seq!['\n']);
        let mut parts = split_chars(&v, &sep);
        proof {
            lemma_split_acc_nonempty(v@, seq!['\n'], seq![]);
        }
        if v.len() > 0 && v[v.len() - 1] == '\n' {
            let ghost before = char_views(parts@);
            parts.pop();
            assert(char_views(parts@) =~= before.drop_last());
        }
        strings_of(&parts)
    }

    fn line_parts(&self, s: &str) -> (r: Vec<Vec<char>>)
        ensures
            char_views(r@) == line_tokens(self.blanklines@, s@),
    {
        let v = chars_of(s);
        let sep = vec!['\n'];
        assert(sep@ =~= seq!['\n']);
        let mut parts = split_chars(&v, &sep);
        proof {
            lemma_split_acc_nonempty(v@, seq!['\n'], seq![]);
        }
        if v.len() > 0 && v[v.len() - 1] == '\n' {
            let ghost before = char_views(parts@);
            parts.pop();
            assert(char_views(parts@) =~= before.drop_last());
        }
        let mode = chars_of(self.blanklines.as_str());
        if eq_lit(&mode, "discard") {
            keep_nonblank(&parts)
        } else if eq_lit(&mode, "discard-eof") {
            let n = parts.len();
            if n > 0 {
                let t = trim_chars(&parts[n - 1]);
                if t.len() == 0 {
                    let ghost before = char_views(parts@);
                    parts.pop();
                    assert(char_views(parts@) =~= before.drop_last());
                }
            }
            parts
        } else {
            parts
        }
    }
}

impl TokenizerI for LineTokenizer {
    open spec fn accepts(&self, s: Seq<char>) -> bool {
        true
    }

    open spec fn tokens_of(&self, s: Seq<char>) -> Seq<Seq<char>> {
        line_tokens(self.blanklines@, s)
    }

    open spec fn spans_ok(&self, s: Seq<char>) -> bool {
        true
    }

    open spec fn spans_of(&self, s: Seq<char>) -> Seq<(int, int)> {
        line_spans(self.blanklines@, s)
    }

    fn tokenize(&self, s: &str) -> (r: Vec<String>) {
        let parts = self.line_parts(s);
        strings_of(&parts)
    }

    fn span_tokenize(&self, s: &str) -> (r: Vec<(usize, usize)>) {
        let mode = chars_of(self.blanklines.as_str());
        if eq_lit(&mode, "keep") {
            proof {
                reveal_strlit("\n");
            }
            assert("\n"@ =~= seq!['\n']);
            string_span_tokenize(s, "\n")
        } else {
            gap_spans_of(RE_LINE_BREAKS, s)
        }
    }
}

/// The line tokens of `text`; `blanklines` must be `discard`, `keep` or
/// `discard-eof`.
pub fn line_tokenize(text: &str, blanklines: &str) -> (r: Vec<String>)
    requires
        valid_blanklines(blanklines@),
    ensures
        str_views(r@) == line_tokens(blanklines@, text@),
{
    LineTokenizer::new(blanklines).tokenize(text)
}

} // verus!
