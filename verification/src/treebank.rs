//! Treebank detokenizer: joins tokens back into text by undoing the spacing that
//! word tokenization introduced.
use vstd::prelude::*;
use crate::destructive::{word_tokens, NLTKWordTokenizer};
use crate::text::{
    char_views, chars_of, chars_of_all, join_chars, join_seq, replace_chars, replace_seq, split_chars,
    split_seq, str_views, string_of, strings_of, trim, trim_chars, trim_end, trim_start, is_ws,
};

verus! {

// ---------------------------------------------------------------------------
// Spaces only: the two single-pass fixers delete spaces and nothing else.
// ---------------------------------------------------------------------------
/// `s` with every `' '` removed.
pub open spec fn drop_spaces(s: Seq<char>) -> Seq<char>
    decreases s.len(),
{
    if s.len() == 0 {
        seq![]
    } else if s[0] == ' ' {
        drop_spaces(s.drop_first())
    } else {
        seq![s[0]] + drop_spaces(s.drop_first())
    }
}

// ---------------------------------------------------------------------------
// Contractions and closing quotes
// ---------------------------------------------------------------------------
pub open spec fn end4_punct(c: char) -> bool {
    c == '.' || c == ',' || c == ':' || c == ')' || c == ']' || c == '>' || c == '}' || c == ';'
        || c == '%'
}

/// `r` starts with one of `'s 'S 'm 'M 'd 'D ' 'll 'LL 're 'RE 've 'VE`, then a space.
pub open spec fn clitic_prefix(r: Seq<char>) -> bool {
    ||| r.len() >= 2 && r[0] == '\'' && r[1] == ' '
    ||| r.len() >= 3 && r[0] == '\'' && (r[1] == 's' || r[1] == 'S' || r[1] == 'm' || r[1] == 'M'
        || r[1] == 'd' || r[1] == 'D') && r[2] == ' '
    ||| r.len() >= 4 && r[0] == '\'' && ((r[1] == 'l' && r[2] == 'l') || (r[1] == 'L' && r[2]
        == 'L') || (r[1] == 'r' && r[2] == 'e') || (r[1] == 'R' && r[2] == 'E') || (r[1] == 'v'
        && r[2] == 'e') || (r[1] == 'V' && r[2] == 'E')) && r[3] == ' '
}

/// `r` starts with `n't ` or `N'T `.
pub open spec fn nt_prefix(r: Seq<char>) -> bool {
    r.len() >= 4 && ((r[0] == 'n' && r[1] == '\'' && r[2] == 't') || (r[0] == 'N' && r[1] == '\''
        && r[2] == 'T')) && r[3] == ' '
}

/// The previous output character exists and is neither a quote nor a space.
pub open spec fn joins_left(prev: Option<char>) -> bool {
    prev matches Some(p) && p != '\'' && p != ' '
}

/// One left-to-right pass over `t`, `prev` being the last character written so far:
/// `'' ` before closing punctuation loses its space, `x ''` loses the space before
/// the quotes, and a space before a clitic (`'s`, `'ll`, `n't`, ...) that follows a
/// word character is removed.
pub open spec fn contraction_fix(t: Seq<char>, prev: Option<char>) -> Seq<char>
    decreases t.len(),
{
    if t.len() == 0 {
        seq![]
    } else if t.len() >= 4 && t[0] == '\'' && t[1] == '\'' && t[2] == ' ' && end4_punct(t[3]) {
        seq!['\'', '\'', t[3]] + contraction_fix(t.skip(4), Some(t[3]))
    } else if t.len() >= 4 && t[0] != ' ' && t[0] != '\t' && t[1] == ' ' && t[2] == '\'' && t[3]
        == '\'' {
        seq![t[0], '\'', '\''] + contraction_fix(t.skip(4), Some('\''))
    } else if t[0] == ' ' && (clitic_prefix(t.drop_first()) || nt_prefix(t.drop_first()))
        && joins_left(prev) {
        contraction_fix(t.drop_first(), prev)
    } else {
        seq![t[0]] + contraction_fix(t.drop_first(), Some(t[0]))
    }
}

pub open spec fn last_of(s: Seq<char>) -> Option<char> {
    if s.len() > 0 {
        Some(s.last())
    } else {
        None
    }
}

fn last_char(s: &Vec<char>) -> (r: Option<char>)
    ensures
        r == last_of(s@),
{
    if s.len() > 0 {
        Some(s[s.len() - 1])
    } else {
        None
    }
}

fn clitic_prefix_at(s: &Vec<char>, j: usize) -> (b: bool)
    requires
        j <= s.len(),
    ensures
        b == clitic_prefix(s@.skip(j as int)),
{
    let n = s.len();
    let b2 = n - j >= 2 && s[j] == '\'' && s[j + 1] == ' ';
    let b3 = n - j >= 3 && s[j] == '\'' && (s[j + 1] == 's' || s[j + 1] == 'S' || s[j + 1] == 'm'
        || s[j + 1] == 'M' || s[j + 1] == 'd' || s[j + 1] == 'D') && s[j + 2] == ' ';
    let b4 = n - j >= 4 && s[j] == '\'' && ((s[j + 1] == 'l' && s[j + 2] == 'l') || (s[j + 1]
        == 'L' && s[j + 2] == 'L') || (s[j + 1] == 'r' && s[j + 2] == 'e') || (s[j + 1] == 'R'
        && s[j + 2] == 'E') || (s[j + 1] == 'v' && s[j + 2] == 'e') || (s[j + 1] == 'V' && s[j
        + 2] == 'E')) && s[j + 3] == ' ';
    b2 || b3 || b4
}

fn nt_prefix_at(s: &Vec<char>, j: usize) -> (b: bool)
    requires
        j <= s.len(),
    ensures
        b == nt_prefix(s@.skip(j as int)),
{
    let n = s.len();
    n - j >= 4 && ((s[j] == 'n' && s[j + 1] == '\'' && s[j + 2] == 't') || (s[j] == 'N' && s[j
        + 1] == '\'' && s[j + 2] == 'T')) && s[j + 3] == ' '
}

proof fn lemma_drop_spaces_add(a: Seq<char>, b: Seq<char>)
    ensures
        drop_spaces(a + b) == drop_spaces(a) + drop_spaces(b),
    decreases a.len(),
{
    if a.len() == 0 {
        assert(a + b =~= b);
    } else {
        assert((a + b).drop_first() =~= a.drop_first() + b);
        lemma_drop_spaces_add(a.drop_first(), b);
        assert(drop_spaces(a + b) =~= drop_spaces(a) + drop_spaces(b));
    }
}

/// `drop_spaces` of the first `k` characters, then of the rest.
proof fn lemma_drop_spaces_split(t: Seq<char>, k: int)
    requires
        0 <= k <= t.len(),
    ensures
        drop_spaces(t) == drop_spaces(t.take(k)) + drop_spaces(t.skip(k)),
{
    assert(t =~= t.take(k) + t.skip(k));
    lemma_drop_spaces_add(t.take(k), t.skip(k));
}

proof fn lemma_contraction_fix_spaces(t: Seq<char>, prev: Option<char>)
    ensures
        drop_spaces(contraction_fix(t, prev)) == drop_spaces(t),
    decreases t.len(),
{
    if t.len() == 0 {
    } else if t.len() >= 4 && t[0] == '\'' && t[1] == '\'' && t[2] == ' ' && end4_punct(t[3]) {
        lemma_contraction_fix_spaces(t.skip(4), Some(t[3]));
        lemma_drop_spaces_add(seq!['\'', '\'', t[3]], contraction_fix(t.skip(4), Some(t[3])));
        lemma_drop_spaces_split(t, 4);
        assert(drop_spaces(t.take(4)) =~= seq!['\'', '\'', t[3]]) by {
            reveal_with_fuel(drop_spaces, 5);
        }
        assert(drop_spaces(seq!['\'', '\'', t[3]]) =~= seq!['\'', '\'', t[3]]) by {
            reveal_with_fuel(drop_spaces, 4);
        }
    } else if t.len() >= 4 && t[0] != ' ' && t[0] != '\t' && t[1] == ' ' && t[2] == '\'' && t[3]
        == '\'' {
        lemma_contraction_fix_spaces(t.skip(4), Some('\''));
        lemma_drop_spaces_add(seq![t[0], '\'', '\''], contraction_fix(t.skip(4), Some('\'')));
        lemma_drop_spaces_split(t, 4);
        assert(drop_spaces(t.take(4)) =~= seq![t[0], '\'', '\'']) by {
            reveal_with_fuel(drop_spaces, 5);
        }
        assert(drop_spaces(seq![t[0], '\'', '\'']) =~= seq![t[0], '\'', '\'']) by {
            reveal_with_fuel(drop_spaces, 4);
        }
    } else if t[0] == ' ' && (clitic_prefix(t.drop_first()) || nt_prefix(t.drop_first()))
        && joins_left(prev) {
        lemma_contraction_fix_spaces(t.drop_first(), prev);
    } else {
        lemma_contraction_fix_spaces(t.drop_first(), Some(t[0]));
        lemma_drop_spaces_add(seq![t[0]], contraction_fix(t.drop_first(), Some(t[0])));
        assert(drop_spaces(seq![t[0]]) == (if t[0] == ' ' { seq![] } else { seq![t[0]] })) by {
            reveal_with_fuel(drop_spaces, 2);
            assert(seq![t[0]].drop_first() =~= Seq::<char>::empty());
        }
    }
}

/// The contraction pass over `s`; it deletes spaces and nothing else.
fn fix_contractions(s: &Vec<char>) -> (r: Vec<char>)
    ensures
        r@ == contraction_fix(s@, None),
        drop_spaces(r@) == drop_spaces(s@),
{
    let n = s.len();
    let mut out: Vec<char> = Vec::new();
    let mut i: usize = 0;
    assert(s@.skip(0) =~= s@);
    while i < n
        invariant
            n == s.len(),
            i <= n,
            out@ + contraction_fix(s@.skip(i as int), last_of(out@)) == contraction_fix(s@, None),
        decreases n - i,
    {
        let ghost t = s@.skip(i as int);
        let ghost o = out@;
        let prev = last_char(&out);
        assert(t.drop_first() =~= s@.skip(i + 1));
        if n - i > 3 && s[i] == '\'' && s[i + 1] == '\'' && s[i + 2] == ' ' && (s[i + 3] == '.'
            || s[i + 3] == ',' || s[i + 3] == ':' || s[i + 3] == ')' || s[i + 3] == ']' || s[i
            + 3] == '>' || s[i + 3] == '}' || s[i + 3] == ';' || s[i + 3] == '%') {
            out.push('\'');
            out.push('\'');
            out.push(s[i + 3]);
            assert(out@ =~= o + seq!['\'', '\'', s@[i + 3]]);
            assert(t.skip(4) =~= s@.skip(i + 4));
            i = i + 4;
        } else if n - i > 3 && s[i] != ' ' && s[i] != '\t' && s[i + 1] == ' ' && s[i + 2] == '\''
            && s[i + 3] == '\'' {
            out.push(s[i]);
            out.push('\'');
            out.push('\'');
            assert(out@ =~= o + seq![s@[i as int], '\'', '\'']);
            assert(t.skip(4) =~= s@.skip(i + 4));
            i = i + 4;
        } else if s[i] == ' ' && (clitic_prefix_at(s, i + 1) || nt_prefix_at(s, i + 1)) && match
            prev {
            Some(p) => p != '\'' && p != ' ',
            None => false,
        } {
            assert(s@.skip(i + 1) =~= t.drop_first());
            i = i + 1;
        } else {
            proof {
                if i + 1 <= n {
                    assert(s@.skip(i + 1) =~= t.drop_first());
                }
            }
            out.push(s[i]);
            assert(out@ =~= o + seq![s@[i as int]]);
            i = i + 1;
        }
        assert(out@ + contraction_fix(s@.skip(i as int), last_of(out@)) == contraction_fix(
            s@,
            None,
        ));
    }
    assert(out@ =~= out@ + contraction_fix(s@.skip(i as int), last_of(out@)));
    proof {
        lemma_contraction_fix_spaces(s@, None);
    }
    out
}

// ---------------------------------------------------------------------------
// Brackets, punctuation and opening quotes
// ---------------------------------------------------------------------------
pub open spec fn open_bracket(c: char) -> bool {
    c == '[' || c == '(' || c == '{' || c == '<'
}

pub open spec fn close_bracket(c: char) -> bool {
    c == ']' || c == ')' || c == '}' || c == '>'
}

/// A bracket or a quote character.
pub open spec fn bracket_or_quote(c: char) -> bool {
    c == ']' || c == '[' || c == ')' || c == '(' || c == '}' || c == '{' || c == '>' || c == '<'
        || c == '"' || c == '\'' || c == '`'
}

/// `u` is brackets/quotes followed by spaces only (`in_brackets`: still in the first part).
pub open spec fn dot_tail(u: Seq<char>, in_brackets: bool) -> bool
    decreases u.len(),
{
    if u.len() == 0 {
        true
    } else if in_brackets && bracket_or_quote(u[0]) {
        dot_tail(u.drop_first(), true)
    } else if u[0] == ' ' {
        dot_tail(u.drop_first(), false)
    } else {
        false
    }
}

/// One left-to-right pass over `t`, `prev` being the last character written so far.
/// Each rule removes spaces: around ` ... `, after an opening bracket, between a
/// closing bracket and `:;,.`, before a closing bracket, before `?!%;,:`, after
/// `#$`, before a lone quote, before a final period, before and after `` `` ``.
pub open spec fn bracket_fix(t: Seq<char>, prev: Option<char>) -> Seq<char>
    decreases t.len(),
{
    if t.len() == 0 {
        seq![]
    } else if t.len() >= 5 && t[0] == ' ' && t[1] == '.' && t[2] == '.' && t[3] == '.' && t[4]
        == ' ' {
        seq!['.', '.', '.'] + bracket_fix(t.skip(5), Some('.'))
    } else if open_bracket(t[0]) && t.len() >= 2 && t[1] == ' ' {
        seq![t[0]] + bracket_fix(t.skip(2), Some(t[0]))
    } else if close_bracket(t[0]) && t.len() >= 3 && t[1] == ' ' && (t[2] == ':' || t[2] == ';'
        || t[2] == ',' || t[2] == '.') {
        seq![t[0], t[2]] + bracket_fix(t.skip(3), Some(t[2]))
    } else if t[0] == ' ' && t.len() >= 2 && (close_bracket(t[1]) || t[1] == '?' || t[1] == '!'
        || t[1] == '%' || t[1] == ';' || t[1] == ',' || t[1] == ':') {
        bracket_fix(t.drop_first(), prev)
    } else if (t[0] == '#' || t[0] == '$') && t.len() >= 2 && t[1] == ' ' {
        seq![t[0]] + bracket_fix(t.skip(2), Some(t[0]))
    } else if t[0] == ' ' && t.len() >= 3 && t[1] == '\'' && t[2] == ' ' && prev != Some('\'') {
        bracket_fix(t.drop_first(), prev)
    } else if t[0] == ' ' && t.len() >= 2 && t[1] == '.' && dot_tail(t.skip(2), true) && prev
        != Some('.') {
        bracket_fix(t.drop_first(), prev)
    } else if t[0] == ' ' && t.len() >= 3 && t[1] == '`' && t[2] == '`' && (prev matches Some(
        p,
    ) && (p == ' ' || p == '(' || p == '[' || p == '{' || p == '<')) {
        bracket_fix(t.drop_first(), prev)
    } else if t[0] == '`' && t.len() >= 3 && t[1] == '`' && t[2] == ' ' {
        seq!['`', '`'] + bracket_fix(t.skip(3), Some('`'))
    } else {
        seq![t[0]] + bracket_fix(t.drop_first(), Some(t[0]))
    }
}

fn dot_tail_at(s: &Vec<char>, j0: usize) -> (b: bool)
    requires
        j0 <= s.len(),
    ensures
        b == dot_tail(s@.skip(j0 as int), true),
{
    let n = s.len();
    let mut j = j0;
    while j < n && (s[j] == ']' || s[j] == '[' || s[j] == ')' || s[j] == '(' || s[j] == '}' || s[j]
        == '{' || s[j] == '>' || s[j] == '<' || s[j] == '"' || s[j] == '\'' || s[j] == '`')
        invariant
            j0 <= j <= n == s.len(),
            dot_tail(s@.skip(j0 as int), true) == dot_tail(s@.skip(j as int), true),
        decreases n - j,
    {
        assert(s@.skip(j as int).drop_first() =~= s@.skip(j + 1));
        j = j + 1;
    }
    let mut k = j;
    proof {
        if j < n {
            assert(s@.skip(j as int).drop_first() =~= s@.skip(j + 1));
        }
    }
    while k < n && s[k] == ' '
        invariant
            j <= k <= n == s.len(),
            dot_tail(s@.skip(j0 as int), true) == dot_tail(s@.skip(k as int), false),
        decreases n - k,
    {
        assert(s@.skip(k as int).drop_first() =~= s@.skip(k + 1));
        k = k + 1;
    }
    k == n
}

proof fn lemma_single_spaces(c: char)
    ensures
        drop_spaces(seq![c]) == (if c == ' ' { seq![] } else { seq![c] }),
{
    reveal_with_fuel(drop_spaces, 2);
    assert(seq![c].drop_first() =~= Seq::<char>::empty());
}

/// `drop_spaces` of a short prefix, computed character by character.
proof fn lemma_prefix_spaces(t: Seq<char>, k: int)
    requires
        0 <= k <= 5,
        k <= t.len(),
    ensures
        drop_spaces(t) == drop_spaces(t.take(k)) + drop_spaces(t.skip(k)),
{
    lemma_drop_spaces_split(t, k);
}

proof fn lemma_bracket_fix_spaces(t: Seq<char>, prev: Option<char>)
    ensures
        drop_spaces(bracket_fix(t, prev)) == drop_spaces(t),
    decreases t.len(),
{
    reveal_with_fuel(drop_spaces, 6);
    if t.len() == 0 {
    } else if t.len() >= 5 && t[0] == ' ' && t[1] == '.' && t[2] == '.' && t[3] == '.' && t[4]
        == ' ' {
        lemma_bracket_fix_spaces(t.skip(5), Some('.'));
        lemma_drop_spaces_add(seq!['.', '.', '.'], bracket_fix(t.skip(5), Some('.')));
        lemma_prefix_spaces(t, 5);
        assert(drop_spaces(t.take(5)) =~= seq!['.', '.', '.']);
        assert(drop_spaces(seq!['.', '.', '.']) =~= seq!['.', '.', '.']);
    } else if open_bracket(t[0]) && t.len() >= 2 && t[1] == ' ' {
        lemma_bracket_fix_spaces(t.skip(2), Some(t[0]));
        lemma_drop_spaces_add(seq![t[0]], bracket_fix(t.skip(2), Some(t[0])));
        lemma_prefix_spaces(t, 2);
        assert(drop_spaces(t.take(2)) =~= seq![t[0]]);
        lemma_single_spaces(t[0]);
    } else if close_bracket(t[0]) && t.len() >= 3 && t[1] == ' ' && (t[2] == ':' || t[2] == ';'
        || t[2] == ',' || t[2] == '.') {
        lemma_bracket_fix_spaces(t.skip(3), Some(t[2]));
        lemma_drop_spaces_add(seq![t[0], t[2]], bracket_fix(t.skip(3), Some(t[2])));
        lemma_prefix_spaces(t, 3);
        assert(drop_spaces(t.take(3)) =~= seq![t[0], t[2]]);
        assert(drop_spaces(seq![t[0], t[2]]) =~= seq![t[0], t[2]]);
    } else if t[0] == ' ' && t.len() >= 2 && (close_bracket(t[1]) || t[1] == '?' || t[1] == '!'
        || t[1] == '%' || t[1] == ';' || t[1] == ',' || t[1] == ':') {
        lemma_bracket_fix_spaces(t.drop_first(), prev);
    } else if (t[0] == '#' || t[0] == '$') && t.len() >= 2 && t[1] == ' ' {
        lemma_bracket_fix_spaces(t.skip(2), Some(t[0]));
        lemma_drop_spaces_add(seq![t[0]], bracket_fix(t.skip(2), Some(t[0])));
        lemma_prefix_spaces(t, 2);
        assert(drop_spaces(t.take(2)) =~= seq![t[0]]);
        lemma_single_spaces(t[0]);
    } else if t[0] == ' ' && t.len() >= 3 && t[1] == '\'' && t[2] == ' ' && prev != Some('\'') {
        lemma_bracket_fix_spaces(t.drop_first(), prev);
    } else if t[0] == ' ' && t.len() >= 2 && t[1] == '.' && dot_tail(t.skip(2), true) && prev
        != Some('.') {
        lemma_bracket_fix_spaces(t.drop_first(), prev);
    } else if t[0] == ' ' && t.len() >= 3 && t[1] == '`' && t[2] == '`' && (prev matches Some(
        p,
    ) && (p == ' ' || p == '(' || p == '[' || p == '{' || p == '<')) {
        lemma_bracket_fix_spaces(t.drop_first(), prev);
    } else if t[0] == '`' && t.len() >= 3 && t[1] == '`' && t[2] == ' ' {
        lemma_bracket_fix_spaces(t.skip(3), Some('`'));
        lemma_drop_spaces_add(seq!['`', '`'], bracket_fix(t.skip(3), Some('`')));
        lemma_prefix_spaces(t, 3);
        assert(drop_spaces(t.take(3)) =~= seq!['`', '`']);
        assert(drop_spaces(seq!['`', '`']) =~= seq!['`', '`']);
    } else {
        lemma_bracket_fix_spaces(t.drop_first(), Some(t[0]));
        lemma_drop_spaces_add(seq![t[0]], bracket_fix(t.drop_first(), Some(t[0])));
        lemma_single_spaces(t[0]);
    }
}

/// The bracket and punctuation pass over `s`; it deletes spaces and nothing else.
fn fix_brackets_and_punct(s: &Vec<char>) -> (r: Vec<char>)
    ensures
        r@ == bracket_fix(s@, None),
        drop_spaces(r@) == drop_spaces(s@),
{
    let n = s.len();
    let mut out: Vec<char> = Vec::new();
    let mut i: usize = 0;
    assert(s@.skip(0) =~= s@);
    while i < n
        invariant
            n == s.len(),
            i <= n,
            out@ + bracket_fix(s@.skip(i as int), last_of(out@)) == bracket_fix(s@, None),
        decreases n - i,
    {
        let ghost t = s@.skip(i as int);
        let ghost o = out@;
        let prev = last_char(&out);
        let b = s[i];
        assert(t.drop_first() =~= s@.skip(i + 1));
        if b == ' ' && n - i > 4 && s[i + 1] == '.' && s[i + 2] == '.' && s[i + 3] == '.' && s[i
            + 4] == ' ' {
            out.push('.');
            out.push('.');
            out.push('.');
            assert(out@ =~= o + seq!['.', '.', '.']);
            assert(t.skip(5) =~= s@.skip(i + 5));
            i = i + 5;
        } else if (b == '[' || b == '(' || b == '{' || b == '<') && n - i > 1 && s[i + 1] == ' ' {
            out.push(b);
            assert(out@ =~= o + seq![b]);
            assert(t.skip(2) =~= s@.skip(i + 2));
            i = i + 2;
        } else if (b == ']' || b == ')' || b == '}' || b == '>') && n - i > 2 && s[i + 1] == ' '
            && (s[i + 2] == ':' || s[i + 2] == ';' || s[i + 2] == ',' || s[i + 2] == '.') {
            out.push(b);
            out.push(s[i + 2]);
            assert(out@ =~= o + seq![b, s@[i + 2]]);
            assert(t.skip(3) =~= s@.skip(i + 3));
            i = i + 3;
        } else if b == ' ' && n - i > 1 && (s[i + 1] == ']' || s[i + 1] == ')' || s[i + 1] == '}'
            || s[i + 1] == '>' || s[i + 1] == '?' || s[i + 1] == '!' || s[i + 1] == '%' || s[i
            + 1] == ';' || s[i + 1] == ',' || s[i + 1] == ':') {
            i = i + 1;
        } else if (b == '#' || b == '$') && n - i > 1 && s[i + 1] == ' ' {
            out.push(b);
            assert(out@ =~= o + seq![b]);
            assert(t.skip(2) =~= s@.skip(i + 2));
            i = i + 2;
        } else if b == ' ' && n - i > 2 && s[i + 1] == '\'' && s[i + 2] == ' ' && prev != Some(
            '\'',
        ) {
            i = i + 1;
        } else if b == ' ' && n - i > 1 && s[i + 1] == '.' && dot_tail_at(s, i + 2) && prev
            != Some('.') {
            assert(t.skip(2) =~= s@.skip(i + 2));
            i = i + 1;
        } else if b == ' ' && n - i > 2 && s[i + 1] == '`' && s[i + 2] == '`' && match prev {
            Some(p) => p == ' ' || p == '(' || p == '[' || p == '{' || p == '<',
            None => false,
        } {
            i = i + 1;
        } else if b == '`' && n - i > 2 && s[i + 1] == '`' && s[i + 2] == ' ' {
            out.push('`');
            out.push('`');
            assert(out@ =~= o + seq!['`', '`']);
            assert(t.skip(3) =~= s@.skip(i + 3));
            i = i + 3;
        } else {
            proof {
                if n - i > 1 {
                    assert(t.skip(2) =~= s@.skip(i + 2));
                }
            }
            out.push(b);
            assert(out@ =~= o + seq![b]);
            i = i + 1;
        }
    }
    assert(out@ =~= out@ + bracket_fix(s@.skip(i as int), last_of(out@)));
    proof {
        lemma_bracket_fix_spaces(s@, None);
    }
    out
}

// ---------------------------------------------------------------------------
// Detokenizer
// ---------------------------------------------------------------------------
/// `-LRB- -RRB- -LSB- -RSB- -LCB- -RCB-` turned back into `( ) [ ] { }`.
pub open spec fn restore_brackets(t: Seq<char>) -> Seq<char> {
    let a = replace_seq(t, seq!['-', 'L', 'R', 'B', '-'], seq!['(']);
    let b = replace_seq(a, seq!['-', 'R', 'R', 'B', '-'], seq![')']);
    let c = replace_seq(b, seq!['-', 'L', 'S', 'B', '-'], seq!['[']);
    let d = replace_seq(c, seq!['-', 'R', 'S', 'B', '-'], seq![']']);
    let e = replace_seq(d, seq!['-', 'L', 'C', 'B', '-'], seq!['{']);
    replace_seq(e, seq!['-', 'R', 'C', 'B', '-'], seq!['}'])
}

/// The Treebank detokenizer: the tokens joined by single spaces, then contractions
/// rejoined, `''` and ` `` ` turned into `"`, ` -- ` into `--`, bracket codes
/// restored (when `convert_parentheses`), and the spacing around brackets and
/// punctuation removed; the result is trimmed.
pub open spec fn detokenize_spec(tokens: Seq<Seq<char>>, convert_parentheses: bool) -> Seq<char> {
    if tokens.len() == 0 {
        seq![]
    } else {
        let t0 = seq![' '] + join_seq(tokens, seq![' ']) + seq![' '];
        let t1 = contraction_fix(t0, None);
        let t2 = replace_seq(t1, seq!['\'', '\''], seq!['"']);
        let t3 = trim(t2);
        let t4 = replace_seq(t3, seq![' ', '-', '-', ' '], seq!['-', '-']);
        let t5 = if convert_parentheses {
            restore_brackets(t4)
        } else {
            t4
        };
        let t6 = bracket_fix(t5, None);
        let t7 = replace_seq(t6, seq!['`', '`'], seq!['"']);
        trim(t7)
    }
}

fn restore_brackets_chars(t: &Vec<char>) -> (r: Vec<char>)
    ensures
        r@ == restore_brackets(t@),
{
    let a = {
        let p = vec!['-', 'L', 'R', 'B', '-'];
        let q = vec!['('];
        assert(p@ =~= seq!['-', 'L', 'R', 'B', '-']);
        assert(q@ =~= seq!['(']);
        replace_chars(t, &p, &q)
    };
    let b = {
        let p = vec!['-', 'R', 'R', 'B', '-'];
        let q = vec![')'];
        assert(p@ =~= seq!['-', 'R', 'R', 'B', '-']);
        assert(q@ =~= seq![')']);
        replace_chars(&a, &p, &q)
    };
    let c = {
        let p = vec!['-', 'L', 'S', 'B', '-'];
        let q = vec!['['];
        assert(p@ =~= seq!['-', 'L', 'S', 'B', '-']);
        assert(q@ =~= seq!['[']);
        replace_chars(&b, &p, &q)
    };
    let d = {
        let p = vec!['-', 'R', 'S', 'B', '-'];
        let q = vec![']'];
        assert(p@ =~= seq!['-', 'R', 'S', 'B', '-']);
        assert(q@ =~= seq![']']);
        replace_chars(&c, &p, &q)
    };
    let e = {
        let p = vec!['-', 'L', 'C', 'B', '-'];
        let q = vec!['{'];
        assert(p@ =~= seq!['-', 'L', 'C', 'B', '-']);
        assert(q@ =~= seq!['{']);
        replace_chars(&d, &p, &q)
    };
    let f = {
        let p = vec!['-', 'R', 'C', 'B', '-'];
        let q = vec!['}'];
        assert(p@ =~= seq!['-', 'R', 'C', 'B', '-']);
        assert(q@ =~= seq!['}']);
        replace_chars(&e, &p, &q)
    };
    f
}

/// Joins word tokens back into a sentence (Treebank detokenization).
pub fn detokenize(tokens: &[String], convert_parentheses: bool) -> (r: String)
    ensures
        r@ == detokenize_spec(str_views(tokens@), convert_parentheses),
{
    if tokens.len() == 0 {
        return string_of(&[]);
    }
    let parts = chars_of_all(tokens);
    let sp = vec![' '];
    assert(sp@ =~= seq![' ']);
    let joined = join_chars(&parts, &sp);
    let mut t0: Vec<char> = vec![' '];
    crate::text::push_all(&mut t0, &joined);
    t0.push(' ');
    assert(t0@ =~= seq![' '] + join_seq(str_views(tokens@), seq![' ']) + seq![' ']);
    let t1 = fix_contractions(&t0);
    let t2 = {
        let p = vec!['\'', '\''];
        let q = vec!['"'];
        assert(p@ =~= seq!['\'', '\'']);
        assert(q@ =~= seq!['"']);
        replace_chars(&t1, &p, &q)
    };
    let t3 = trim_chars(&t2);
    let t4 = {
        let p = vec![' ', '-', '-', ' '];
        let q = vec!['-', '-'];
        assert(p@ =~= seq![' ', '-', '-', ' ']);
        assert(q@ =~= seq!['-', '-']);
        replace_chars(&t3, &p, &q)
    };
    let t5 = if convert_parentheses {
        restore_brackets_chars(&t4)
    } else {
        t4
    };
    let t6 = fix_brackets_and_punct(&t5);
    let t7 = {
        let p = vec!['`', '`'];
        let q = vec!['"'];
        assert(p@ =~= seq!['`', '`']);
        assert(q@ =~= seq!['"']);
        replace_chars(&t6, &p, &q)
    };
    let t8 = trim_chars(&t7);
    string_of(t8.as_slice())
}

/// Splits text into paragraphs at blank lines (`"\n\n"`), trimming each and
/// dropping the empty ones.
pub open spec fn paragraphs(text: Seq<char>) -> Seq<Seq<char>> {
    split_seq(text, seq!['\n', '\n']).map_values(|p: Seq<char>| trim(p)).filter(
        |p: Seq<char>| p.len() > 0,
    )
}

/// Splits text at blank lines into trimmed, non-empty pieces.
pub fn sent_tokenize_placeholder(text: &str) -> (r: Vec<String>)
    ensures
        str_views(r@) == paragraphs(text@),
{
    let v = chars_of(text);
    let pieces = split_chars(&v, &vec!['\n', '\n']);
    let ghost tr = char_views(pieces@).map_values(|p: Seq<char>| trim(p));
    let mut out: Vec<Vec<char>> = Vec::new();
    for i in 0..pieces.len()
        invariant
            tr == char_views(pieces@).map_values(|p: Seq<char>| trim(p)),
            char_views(out@) == tr.take(i as int).filter(|p: Seq<char>| p.len() > 0),
    {
        let p = trim_chars(&pieces[i]);
        let ghost before = char_views(out@);
        assert(tr.take(i + 1).drop_last() =~= tr.take(i as int));
        assert(tr.take(i + 1).last() == p@);
        reveal(Seq::filter);
        if p.len() > 0 {
            out.push(p);
            assert(char_views(out@) =~= before.push(tr[i as int]));
        }
    }
    assert(tr.take(pieces.len() as int) =~= tr);
    strings_of(&out)
}

/// The word tokens of `text`, brackets written as `-LRB-`, `-RRB-`, ... when
/// `convert_parentheses` is set.
pub fn word_tokenize_core(text: &str, convert_parentheses: bool) -> (r: Vec<String>)
    ensures
        str_views(r@) == word_tokens(text@, convert_parentheses),
{
    NLTKWordTokenizer::tokenize_core(text, convert_parentheses)
}

// ---------------------------------------------------------------------------
// The detokenizer rejoins `n't`
// ---------------------------------------------------------------------------
/// `w` has no space and no quote.
pub open spec fn plain_word(w: Seq<char>) -> bool {
    forall|i: int| 0 <= i < w.len() ==> w[i] != ' ' && w[i] != '\''
}

/// A plain word goes through the contraction pass unchanged, unless it is one
/// character followed by ` ''`.
proof fn lemma_contraction_word(w: Seq<char>, s: Seq<char>, prev: Option<char>)
    requires
        plain_word(w),
        !(s.len() >= 3 && s[0] == ' ' && s[1] == '\'' && s[2] == '\''),
    ensures
        contraction_fix(w + s, prev) == w + contraction_fix(
            s,
            if w.len() > 0 {
                Some(w.last())
            } else {
                prev
            },
        ),
    decreases w.len(),
{
    if w.len() == 0 {
        assert(w + s =~= s);
    } else {
        let t = w + s;
        let w2 = w.drop_first();
        assert(t.drop_first() =~= w2 + s);
        assert(t[0] == w[0]);
        if w.len() >= 2 {
            assert(t[1] == w[1]);
        } else {
            assert(t.len() >= 4 ==> t[1] == s[0] && t[2] == s[1] && t[3] == s[2]);
        }
        lemma_contraction_word(w2, s, Some(w[0]));
        if w2.len() > 0 {
            assert(w2.last() == w.last());
        }
        assert(contraction_fix(t, prev) == seq![t[0]] + contraction_fix(t.drop_first(), Some(t[0])));
        assert(w =~= seq![w[0]] + w2);
    }
}

/// The contraction pass joins `n't` (or `N'T`) to the plain word before it: the
/// space between them is dropped, and the word and the clitic are kept.
pub proof fn lemma_nt_joins_word(w: Seq<char>, nt: Seq<char>, rest: Seq<char>, prev: Option<char>)
    requires
        w.len() > 0,
        plain_word(w),
        nt == seq!['n', '\'', 't'] || nt == seq!['N', '\'', 'T'],
        !(rest.len() >= 2 && rest[0] == '\'' && rest[1] == '\''),
    ensures
        contraction_fix(w + seq![' '] + nt + seq![' '] + rest, prev) == w + nt + contraction_fix(
            seq![' '] + rest,
            Some(nt[2]),
        ),
{
    let s = seq![' '] + nt + seq![' '] + rest;
    assert(w + seq![' '] + nt + seq![' '] + rest =~= w + s);
    lemma_contraction_word(w, s, prev);
    let a = nt + seq![' '] + rest;
    assert(s.drop_first() =~= a);
    assert(nt_prefix(a));
    assert(contraction_fix(s, Some(w.last())) == contraction_fix(a, Some(w.last())));
    let b = a.drop_first();
    assert(contraction_fix(a, Some(w.last())) == seq![nt[0]] + contraction_fix(b, Some(nt[0])));
    let c = b.drop_first();
    assert(b[0] == '\'' && b[1] == nt[2]);
    assert(contraction_fix(b, Some(nt[0])) == seq!['\''] + contraction_fix(c, Some('\'')));
    let d = c.drop_first();
    assert(c[0] == nt[2] && c[1] == ' ');
    assert(d =~= seq![' '] + rest);
    assert(contraction_fix(c, Some('\'')) == seq![nt[2]] + contraction_fix(d, Some(nt[2])));
    assert(w + (seq![nt[0]] + (seq!['\''] + (seq![nt[2]] + contraction_fix(d, Some(nt[2])))))
        =~= w + nt + contraction_fix(d, Some(nt[2])));
}

/// Only ASCII letters.
pub open spec fn ascii_letters(w: Seq<char>) -> bool {
    forall|i: int|
        0 <= i < w.len() ==> (97 <= (#[trigger] w[i] as u32) <= 122) || (65 <= (w[i] as u32) <= 90)
}

proof fn lemma_replace_without_first(s: Seq<char>, pat: Seq<char>, rep: Seq<char>)
    requires
        pat.len() > 0,
        forall|i: int| 0 <= i < s.len() ==> s[i] != pat[0],
    ensures
        replace_seq(s, pat, rep) == s,
    decreases s.len(),
{
    if s.len() >= pat.len() {
        assert(s.take(pat.len() as int)[0] != pat[0]);
        lemma_replace_without_first(s.drop_first(), pat, rep);
        assert(s =~= seq![s[0]] + s.drop_first());
    }
}

proof fn lemma_replace_without_pair(s: Seq<char>, a: char, b: char, rep: Seq<char>)
    requires
        forall|i: int| 0 <= i < s.len() - 1 ==> !(#[trigger] s[i] == a && s[i + 1] == b),
    ensures
        replace_seq(s, seq![a, b], rep) == s,
    decreases s.len(),
{
    if s.len() >= 2 {
        assert(!(s[0] == a && s[1] == b));
        assert(s.take(2) != seq![a, b]) by {
            if s.take(2) == seq![a, b] {
                assert(s.take(2)[0] == s[0] && s.take(2)[1] == s[1]);
            }
        }
        let s2 = s.drop_first();
        assert forall|i: int| 0 <= i < s2.len() - 1 implies !(#[trigger] s2[i] == a && s2[i + 1] == b) by {
            assert(s2[i] == s[i + 1] && s2[i + 1] == s[i + 2]);
        }
        lemma_replace_without_pair(s2, a, b, rep);
        assert(s =~= seq![s[0]] + s2);
    }
}

proof fn lemma_bracket_fix_plain(t: Seq<char>, prev: Option<char>)
    requires
        forall|i: int|
            0 <= i < t.len() ==> t[i] != ' ' && t[i] != '#' && t[i] != '$' && t[i] != '`' && t[i]
                != '.' && !open_bracket(#[trigger] t[i]) && !close_bracket(t[i]),
    ensures
        bracket_fix(t, prev) == t,
    decreases t.len(),
{
    if t.len() > 0 {
        lemma_bracket_fix_plain(t.drop_first(), Some(t[0]));
        assert(t =~= seq![t[0]] + t.drop_first());
    }
}

proof fn lemma_trim_plain(x: Seq<char>)
    requires
        x.len() > 0,
        !is_ws(x[0]),
        !is_ws(x.last()),
    ensures
        trim(x) == x,
        trim(seq![' '] + x + seq![' ']) == x,
{
    assert(trim_start(x) == x);
    assert(trim_end(x) == x);
    let p = seq![' '] + x + seq![' '];
    assert(p.drop_first() =~= x + seq![' ']);
    assert(trim_start(x + seq![' ']) == x + seq![' ']) by {
        assert((x + seq![' '])[0] == x[0]);
    }
    assert((x + seq![' ']).drop_last() =~= x);
    assert(trim_end(x + seq![' ']) == trim_end(x));
}

/// The detokenizer rejoins a word of letters and the `n't` split off it:
/// `["ca", "n't"]` gives back `can't`.
pub proof fn lemma_detokenize_rejoins_nt(w: Seq<char>)
    requires
        w.len() > 0,
        ascii_letters(w),
    ensures
        detokenize_spec(seq![w, seq!['n', '\'', 't']], false) == w + seq!['n', '\'', 't'],
{
    let nt = seq!['n', '\'', 't'];
    let x = w + nt;
    let toks = seq![w, nt];
    assert(toks.drop_last() =~= seq![w]);
    assert(join_seq(seq![w], seq![' ']) == w);
    assert(join_seq(toks, seq![' ']) == w + seq![' '] + nt);
    let t0 = seq![' '] + join_seq(toks, seq![' ']) + seq![' '];
    assert(plain_word(w));
    lemma_nt_joins_word(w, nt, seq![], Some(' '));
    assert(w + seq![' '] + nt + seq![' '] + Seq::<char>::empty() =~= w + seq![' '] + nt + seq![' ']);
    assert(seq![' '] + Seq::<char>::empty() =~= seq![' ']);
    assert(contraction_fix(seq![' '], Some('t')) == seq![' ']) by {
        let e = Seq::<char>::empty();
        assert(seq![' '].drop_first() =~= e);
        assert(!clitic_prefix(e) && !nt_prefix(e));
        assert(contraction_fix(e, Some(' ')) == e);
        assert(contraction_fix(seq![' '], Some('t')) == seq![' '] + contraction_fix(e, Some(' ')));
        assert(seq![' '] + e =~= seq![' ']);
    }
    assert(t0.drop_first() =~= w + seq![' '] + nt + seq![' ']);
    assert(t0[0] == ' ');
    assert(contraction_fix(t0, None) == seq![' '] + contraction_fix(t0.drop_first(), Some(' ')));
    let t1 = contraction_fix(t0, None);
    assert(t1 =~= seq![' '] + x + seq![' ']);
    assert forall|i: int| 0 <= i < t1.len() - 1 implies !(#[trigger] t1[i] == '\'' && t1[i + 1] == '\'') by {
        if 1 <= i <= w.len() {
            assert(t1[i] == w[i - 1]);
        }
    }
    lemma_replace_without_pair(t1, '\'', '\'', seq!['"']);
    let t2 = replace_seq(t1, seq!['\'', '\''], seq!['"']);
    assert(!is_ws(x[0])) by {
        assert(x[0] == w[0]);
    }
    assert(x.last() == 't');
    lemma_trim_plain(x);
    let t3 = trim(t2);
    assert(t3 == x);
    assert forall|i: int| 0 <= i < x.len() implies x[i] != ' ' && x[i] != '#' && x[i] != '$' && x[i]
        != '`' && x[i] != '.' && !open_bracket(#[trigger] x[i]) && !close_bracket(x[i]) by {
        if i < w.len() {
            assert(x[i] == w[i]);
        }
    }
    lemma_replace_without_first(x, seq![' ', '-', '-', ' '], seq!['-', '-']);
    lemma_bracket_fix_plain(x, None);
    lemma_replace_without_first(x, seq!['`', '`'], seq!['"']);
}

} // verus!
