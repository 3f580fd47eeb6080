//! S-expression tokenizer: top-level parenthesized groups become single tokens,
//! everything else is split at whitespace.
use vstd::prelude::*;
use crate::api::{spans_view, TokenizerI};
use crate::destructive::{align_tokens, alignment};
use crate::text::{
    char_views, chars_of, lemma_flatten_filter_nonempty, lemma_non_ws_add,
    lemma_non_ws_subrange_split, lemma_split_ws_content, non_ws, slice_chars, split_ws,
    split_ws_chars, str_views, strings_of,
};

verus! {

pub struct SExprTokenizer {
    pub open_paren: String,
    pub close_paren: String,
    pub strict: bool,
}

/// Every close paren matches an earlier open paren and every open paren is closed
/// (`depth` open parens being pending at position `i`).
pub open spec fn parens_balanced(s: Seq<char>, op: char, cl: char, i: int, depth: nat) -> bool
    decreases s.len() - i,
{
    if i < 0 || i >= s.len() {
        depth == 0
    } else if s[i] == op {
        parens_balanced(s, op, cl, i + 1, depth + 1)
    } else if s[i] == cl {
        depth > 0 && parens_balanced(s, op, cl, i + 1, (depth - 1) as nat)
    } else {
        parens_balanced(s, op, cl, i + 1, depth)
    }
}

/// What is left once the scan reaches the end: an unclosed group is kept whole,
/// anything else is split at whitespace.
pub open spec fn sexpr_finish(s: Seq<char>, pos: int, depth: nat, res: Seq<Seq<char>>) -> Seq<
    Seq<char>,
> {
    if pos < s.len() {
        if depth > 0 {
            res.push(s.subrange(pos, s.len() as int))
        } else {
            res + split_ws(s.subrange(pos, s.len() as int))
        }
    } else {
        res
    }
}

/// The scan of `s` from position `i`: `pos` is where the pending text starts,
/// `depth` the number of open parens, `res` the tokens so far.
pub open spec fn sexpr_scan(
    s: Seq<char>,
    op: char,
    cl: char,
    i: int,
    pos: int,
    depth: nat,
    res: Seq<Seq<char>>,
) -> Seq<Seq<char>>
    decreases s.len() - i,
{
    if i < 0 || i >= s.len() {
        sexpr_finish(s, pos, depth, res)
    } else if s[i] == op {
        if depth == 0 {
            sexpr_scan(s, op, cl, i + 1, i, 1, res + split_ws(s.subrange(pos, i)))
        } else {
            sexpr_scan(s, op, cl, i + 1, pos, depth + 1, res)
        }
    } else if s[i] == cl {
        if depth == 0 {
            sexpr_scan(s, op, cl, i + 1, i + 1, 0, res + split_ws(s.subrange(pos, i)) + seq![seq![cl]])
        } else if depth == 1 {
            sexpr_scan(s, op, cl, i + 1, i + 1, 0, res.push(s.subrange(pos, i + 1)))
        } else {
            sexpr_scan(s, op, cl, i + 1, pos, (depth - 1) as nat, res)
        }
    } else {
        sexpr_scan(s, op, cl, i + 1, pos, depth, res)
    }
}

/// The tokens of `s`: top-level groups delimited by `op`/`cl`, and the
/// whitespace-separated words between them; empty tokens are dropped.
pub open spec fn sexpr_tokens(s: Seq<char>, op: char, cl: char) -> Seq<Seq<char>> {
    sexpr_scan(s, op, cl, 0, 0, 0, seq![]).filter(|t: Seq<char>| t.len() > 0)
}

impl SExprTokenizer {
    /// Both parens are single characters.
    pub open spec fn wf(&self) -> bool {
        self.open_paren@.len() == 1 && self.close_paren@.len() == 1
    }

    pub open spec fn open_char(&self) -> char {
        self.open_paren@[0]
    }

    pub open spec fn close_char(&self) -> char {
        self.close_paren@[0]
    }

    /// A tokenizer whose open and close parens are the two characters of `parens`.
    pub fn new(parens: &str, strict: bool) -> (r: Self)
        requires
            parens@.len() == 2,
        ensures
            r.wf(),
            r.open_char() == parens@[0],
            r.close_char() == parens@[1],
            r.strict == strict,
    {
        let p = chars_of(parens);
        let o = slice_chars(&p, 0, 1);
        let c = slice_chars(&p, 1, 2);
        SExprTokenizer {
            open_paren: crate::text::string_of(o.as_slice()),
            close_paren: crate::text::string_of(c.as_slice()),
            strict,
        }
    }

    /// A strict tokenizer only takes balanced text.
    pub open spec fn takes(&self, s: Seq<char>) -> bool {
        self.wf() && (self.strict ==> parens_balanced(s, self.open_char(), self.close_char(), 0, 0))
    }
}

fn push_words(res: &mut Vec<Vec<char>>, s: &Vec<char>, from: usize, to: usize)
    requires
        from <= to <= s.len(),
    ensures
        char_views(final(res)@) == char_views(old(res)@) + split_ws(s@.subrange(from as int, to as int)),
{
    let piece = slice_chars(s, from, to);
    let words = split_ws_chars(&piece);
    let ghost r0 = char_views(res@);
    for k in 0..words.len()
        invariant
            char_views(res@) == r0 + char_views(words@).take(k as int),
    {
        let w = slice_chars(&words[k], 0, words[k].len());
        assert(w@ =~= words@[k as int]@);
        let ghost before = char_views(res@);
        res.push(w);
        assert(char_views(res@) =~= before.push(w@));
        assert(char_views(words@).take(k + 1) =~= char_views(words@).take(k as int).push(w@));
        assert(char_views(res@) =~= r0 + char_views(words@).take(k + 1));
    }
    assert(char_views(words@).take(words.len() as int) =~= char_views(words@));
}

fn sexpr_tokenize_chars(s: &Vec<char>, op: char, cl: char, strict: bool) -> (r: Vec<Vec<char>>)
    requires
        strict ==> parens_balanced(s@, op, cl, 0, 0),
    ensures
        char_views(r@) == sexpr_tokens(s@, op, cl),
{
    let n = s.len();
    let mut res: Vec<Vec<char>> = Vec::new();
    let mut pos: usize = 0;
    let mut depth: usize = 0;
    let mut i: usize = 0;
    assert(char_views(res@) =~= Seq::<Seq<char>>::empty());
    while i < n
        invariant
            n == s.len(),
            pos <= i <= n,
            depth <= i,
            sexpr_scan(s@, op, cl, i as int, pos as int, depth as nat, char_views(res@))
                == sexpr_scan(s@, op, cl, 0, 0, 0, seq![]),
            strict ==> parens_balanced(s@, op, cl, i as int, depth as nat),
        decreases n - i,
    {
        let c = s[i];
        if c == op {
            if depth == 0 {
                push_words(&mut res, s, pos, i);
                pos = i;
            }
            depth = depth + 1;
        } else if c == cl {
            if depth == 0 {
                push_words(&mut res, s, pos, i);
                let ghost r0 = char_views(res@);
                let one = vec![c];
                assert(one@ =~= seq![cl]);
                res.push(one);
                assert(char_views(res@) =~= r0 + seq![seq![cl]]);
                pos = i + 1;
            } else {
                depth = depth - 1;
                if depth == 0 {
                    let g = slice_chars(s, pos, i + 1);
                    let ghost r0 = char_views(res@);
                    res.push(g);
                    assert(char_views(res@) =~= r0.push(s@.subrange(pos as int, i + 1)));
                    pos = i + 1;
                }
            }
        }
        i = i + 1;
    }
    if pos < n {
        if depth > 0 {
            let g = slice_chars(s, pos, n);
            let ghost r0 = char_views(res@);
            res.push(g);
            assert(char_views(res@) =~= r0.push(s@.subrange(pos as int, n as int)));
        } else {
            push_words(&mut res, s, pos, n);
        }
    }
    let ghost all = char_views(res@);
    let mut out: Vec<Vec<char>> = Vec::new();
    for k in 0..res.len()
        invariant
            all == char_views(res@),
            char_views(out@) == all.take(k as int).filter(|t: Seq<char>| t.len() > 0),
    {
        reveal(Seq::filter);
        assert(all.take(k + 1).drop_last() =~= all.take(k as int));
        let ghost before = char_views(out@);
        if res[k].len() > 0 {
            let t = slice_chars(&res[k], 0, res[k].len());
            assert(t@ =~= res@[k as int]@);
            out.push(t);
            assert(char_views(out@) =~= before.push(all[k as int]));
        }
    }
    assert(all.take(res.len() as int) =~= all);
    out
}

/// Whether the parens of `s` are balanced (see `parens_balanced`).
pub fn parens_balanced_exec(s: &str, op: char, cl: char) -> (b: bool)
    ensures
        b == parens_balanced(s@, op, cl, 0, 0),
{
    let v = chars_of(s);
    let mut depth: usize = 0;
    let mut i: usize = 0;
    while i < v.len()
        invariant
            v@ == s@,
            i <= v.len(),
            depth <= i,
            parens_balanced(s@, op, cl, 0, 0) == parens_balanced(s@, op, cl, i as int, depth as nat),
        decreases v.len() - i,
    {
        if v[i] == op {
            depth = depth + 1;
        } else if v[i] == cl {
            if depth == 0 {
                return false;
            }
            depth = depth - 1;
        }
        i = i + 1;
    }
    depth == 0
}

/// Where the parens of `s` first fail to balance, scanning from `i` with `depth`
/// open parens pending, the outermost of them opened at `start`: `(true, j)` for
/// a close paren at `j` that matches nothing, `(false, start)` for a group still
/// open at the end, and `None` when they balance.
pub open spec fn paren_fault(s: Seq<char>, op: char, cl: char, i: int, depth: nat, start: int) -> Option<
    (bool, int),
>
    decreases s.len() - i,
{
    if i < 0 || i >= s.len() {
        if depth == 0 {
            None
        } else {
            Some((false, start))
        }
    } else if s[i] == op {
        paren_fault(
            s,
            op,
            cl,
            i + 1,
            depth + 1,
            if depth == 0 {
                i
            } else {
                start
            },
        )
    } else if s[i] == cl {
        if depth == 0 {
            Some((true, i))
        } else {
            paren_fault(s, op, cl, i + 1, (depth - 1) as nat, start)
        }
    } else {
        paren_fault(s, op, cl, i + 1, depth, start)
    }
}

proof fn lemma_paren_fault_balanced(s: Seq<char>, op: char, cl: char, i: int, depth: nat, start: int)
    ensures
        paren_fault(s, op, cl, i, depth, start) is None <==> parens_balanced(s, op, cl, i, depth),
    decreases s.len() - i,
{
    if !(i < 0 || i >= s.len()) {
        if s[i] == op {
            lemma_paren_fault_balanced(
                s,
                op,
                cl,
                i + 1,
                depth + 1,
                if depth == 0 {
                    i
                } else {
                    start
                },
            );
        } else if s[i] == cl {
            if depth > 0 {
                lemma_paren_fault_balanced(s, op, cl, i + 1, (depth - 1) as nat, start);
            }
        } else {
            lemma_paren_fault_balanced(s, op, cl, i + 1, depth, start);
        }
    }
}

/// The first unmatched paren of `s` (see `paren_fault`): whether it is a close
/// paren, and its character offset; `None` exactly when the parens balance.
pub fn paren_fault_at(s: &str, op: char, cl: char) -> (r: Option<(bool, usize)>)
    ensures
        r is None <==> parens_balanced(s@, op, cl, 0, 0),
        match r {
            Some((c, j)) => paren_fault(s@, op, cl, 0, 0, 0) == Some((c, j as int)),
            None => paren_fault(s@, op, cl, 0, 0, 0) is None,
        },
{
    proof {
        lemma_paren_fault_balanced(s@, op, cl, 0, 0, 0);
    }
    let v = chars_of(s);
    let mut depth: usize = 0;
    let mut start: usize = 0;
    let mut i: usize = 0;
    while i < v.len()
        invariant
            v@ == s@,
            i <= v.len(),
            depth <= i,
            start <= i,
            paren_fault(s@, op, cl, 0, 0, 0) is None <==> parens_balanced(s@, op, cl, 0, 0),
            paren_fault(s@, op, cl, 0, 0, 0) == paren_fault(
                s@,
                op,
                cl,
                i as int,
                depth as nat,
                start as int,
            ),
        decreases v.len() - i,
    {
        if v[i] == op {
            if depth == 0 {
                start = i;
            }
            depth = depth + 1;
        } else if v[i] == cl {
            if depth == 0 {
                assert(paren_fault(s@, op, cl, i as int, 0, start as int) == Some((true, i as int)));
                return Some((true, i));
            }
            depth = depth - 1;
        }
        i = i + 1;
    }
    if depth == 0 {
        None
    } else {
        Some((false, start))
    }
}

impl SExprTokenizer {
    /// Whether this tokenizer takes `s`: its parens are single characters and,
    /// when strict, the parens of `s` are balanced.
    pub fn accepts_text(&self, s: &str) -> (b: bool)
        ensures
            b == self.takes(s@),
    {
        let op = chars_of(self.open_paren.as_str());
        let cl = chars_of(self.close_paren.as_str());
        if op.len() != 1 || cl.len() != 1 {
            return false;
        }
        !self.strict || parens_balanced_exec(s, op[0], cl[0])
    }
}

impl Default for SExprTokenizer {
    /// `( )`, strict.
    fn default() -> (r: Self)
        ensures
            r.wf(),
            r.open_char() == '(',
            r.close_char() == ')',
            r.strict,
    {
        let p = vec!['(', ')'];
        let o = slice_chars(&p, 0, 1);
        let c = slice_chars(&p, 1, 2);
        assert(o@ =~= seq!['(']);
        assert(c@ =~= seq![')']);
        SExprTokenizer {
            open_paren: crate::text::string_of(o.as_slice()),
            close_paren: crate::text::string_of(c.as_slice()),
            strict: true,
        }
    }

}

impl TokenizerI for SExprTokenizer {
    open spec fn accepts(&self, s: Seq<char>) -> bool {
        self.takes(s)
    }

    open spec fn tokens_of(&self, s: Seq<char>) -> Seq<Seq<char>> {
        sexpr_tokens(s, self.open_char(), self.close_char())
    }

    open spec fn spans_ok(&self, s: Seq<char>) -> bool {
        self.takes(s) && alignment(self.tokens_of(s), s) is Some
    }

    open spec fn spans_of(&self, s: Seq<char>) -> Seq<(int, int)> {
        alignment(self.tokens_of(s), s).unwrap()
    }

    fn tokenize(&self, s: &str) -> (r: Vec<String>) {
        let v = chars_of(s);
        let op = chars_of(self.open_paren.as_str());
        let cl = chars_of(self.close_paren.as_str());
        let toks = sexpr_tokenize_chars(&v, op[0], cl[0], self.strict);
        strings_of(&toks)
    }

    fn span_tokenize(&self, s: &str) -> (r: Vec<(usize, usize)>) {
        let toks = self.tokenize(s);
        align_tokens(toks.as_slice(), s)
    }
}

/// Tokenizes `text` with `( )` parens, strictly.
pub fn sexpr_tokenize(text: &str) -> (r: Vec<String>)
    requires
        parens_balanced(text@, '(', ')', 0, 0),
    ensures
        str_views(r@) == sexpr_tokens(text@, '(', ')'),
{
    let t = SExprTokenizer::default();
    t.tokenize(text)
}

proof fn lemma_content_push(res: Seq<Seq<char>>, t: Seq<char>)
    ensures
        non_ws(res.push(t).flatten()) == non_ws(res.flatten()) + non_ws(t),
{
    res.lemma_flatten_push(t);
    lemma_non_ws_add(res.flatten(), t);
}

proof fn lemma_content_words(res: Seq<Seq<char>>, t: Seq<char>)
    ensures
        non_ws((res + split_ws(t)).flatten()) == non_ws(res.flatten()) + non_ws(t),
{
    vstd::seq_lib::lemma_flatten_concat(res, split_ws(t));
    lemma_non_ws_add(res.flatten(), split_ws(t).flatten());
    lemma_split_ws_content(t);
}

proof fn lemma_scan_content(
    s: Seq<char>,
    op: char,
    cl: char,
    i: int,
    pos: int,
    depth: nat,
    res: Seq<Seq<char>>,
)
    requires
        0 <= pos <= i <= s.len(),
    ensures
        non_ws(sexpr_scan(s, op, cl, i, pos, depth, res).flatten()) == non_ws(res.flatten())
            + non_ws(s.subrange(pos, s.len() as int)),
    decreases s.len() - i,
{
    let n = s.len() as int;
    if i >= n {
        if pos < n {
            if depth > 0 {
                lemma_content_push(res, s.subrange(pos, n));
            } else {
                lemma_content_words(res, s.subrange(pos, n));
            }
        } else {
            assert(s.subrange(pos, n) =~= Seq::<char>::empty());
            assert(non_ws(res.flatten()) + non_ws(Seq::<char>::empty()) =~= non_ws(res.flatten()));
        }
    } else if s[i] == op {
        if depth == 0 {
            lemma_scan_content(s, op, cl, i + 1, i, 1, res + split_ws(s.subrange(pos, i)));
            lemma_content_words(res, s.subrange(pos, i));
            lemma_non_ws_subrange_split(s, pos, i, n);
        } else {
            lemma_scan_content(s, op, cl, i + 1, pos, depth + 1, res);
        }
    } else if s[i] == cl {
        if depth == 0 {
            let r1 = res + split_ws(s.subrange(pos, i));
            lemma_scan_content(s, op, cl, i + 1, i + 1, 0, r1 + seq![seq![cl]]);
            lemma_content_words(res, s.subrange(pos, i));
            assert(r1 + seq![seq![cl]] =~= r1.push(seq![cl]));
            lemma_content_push(r1, seq![cl]);
            assert(s.subrange(i, i + 1) =~= seq![cl]);
            lemma_non_ws_subrange_split(s, pos, i, i + 1);
            lemma_non_ws_subrange_split(s, pos, i + 1, n);
        } else if depth == 1 {
            lemma_scan_content(s, op, cl, i + 1, i + 1, 0, res.push(s.subrange(pos, i + 1)));
            lemma_content_push(res, s.subrange(pos, i + 1));
            lemma_non_ws_subrange_split(s, pos, i + 1, n);
        } else {
            lemma_scan_content(s, op, cl, i + 1, pos, (depth - 1) as nat, res);
        }
    } else {
        lemma_scan_content(s, op, cl, i + 1, pos, depth, res);
    }
}

/// S-expression tokenization keeps every non-whitespace character of the text,
/// in order: the tokens, concatenated, are the text without its whitespace.
pub proof fn sexpr_tokens_keep_text(s: Seq<char>, op: char, cl: char)
    ensures
        non_ws(sexpr_tokens(s, op, cl).flatten()) == non_ws(s),
{
    lemma_scan_content(s, op, cl, 0, 0, 0, seq![]);
    lemma_flatten_filter_nonempty(sexpr_scan(s, op, cl, 0, 0, 0, seq![]));
    assert(s.subrange(0, s.len() as int) =~= s);
    assert(Seq::<Seq<char>>::empty().flatten() =~= Seq::<char>::empty());
    assert(non_ws(Seq::<char>::empty()) + non_ws(s) =~= non_ws(s));
}

} // verus!
