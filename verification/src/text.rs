//! Character-level text model shared by the tokenizers: whitespace, splitting,
//! trimming, joining, substring search and replacement over `Seq<char>`.
use vstd::prelude::*;

verus! {

/// Rust's `char::is_whitespace`: the Unicode `White_Space` property.
pub open spec fn is_ws(c: char) -> bool {
    ||| c == '\t' || c == '\n' || c == '\u{b}' || c == '\u{c}' || c == '\r' || c == ' '
    ||| c == '\u{85}' || c == '\u{a0}' || c == '\u{1680}'
    ||| ('\u{2000}' <= c && c <= '\u{200a}')
    ||| c == '\u{2028}' || c == '\u{2029}' || c == '\u{202f}' || c == '\u{205f}' || c == '\u{3000}'
}

pub fn char_is_ws(c: char) -> (b: bool)
    ensures
        b == is_ws(c),
{
    c == '\t' || c == '\n' || c == '\u{b}' || c == '\u{c}' || c == '\r' || c == ' ' || c
        == '\u{85}' || c == '\u{a0}' || c == '\u{1680}' || ('\u{2000}' <= c && c <= '\u{200a}')
        || c == '\u{2028}' || c == '\u{2029}' || c == '\u{202f}' || c == '\u{205f}' || c
        == '\u{3000}'
}

/// The characters of a string slice, in order.
pub fn chars_of(s: &str) -> (v: Vec<char>)
    ensures
        v@ == s@,
{
    broadcast use vstd::string::group_string_axioms;

    let mut v: Vec<char> = Vec::new();
    for c in it: s.chars()
        invariant
            v@ == it.seq().take(it.index() as int),
            it.seq() == s@,
    {
        v.push(c);
    }
    v
}

/// `String` made of the given characters (std's `FromIterator<char>` for `String`).
#[verifier::external_body]
pub fn string_of(v: &[char]) -> (s: String)
    ensures
        s@ == v@,
{
    v.iter().collect()
}

/// The character sequences of a sequence of strings.
pub open spec fn str_views(v: Seq<String>) -> Seq<Seq<char>> {
    v.map_values(|s: String| s@)
}

/// The character sequences of a sequence of character vectors.
pub open spec fn char_views(v: Seq<Vec<char>>) -> Seq<Seq<char>> {
    v.map_values(|s: Vec<char>| s@)
}

/// The strings made of each character sequence.
pub fn strings_of(v: &Vec<Vec<char>>) -> (r: Vec<String>)
    ensures
        str_views(r@) == char_views(v@),
{
    let mut r: Vec<String> = Vec::new();
    for i in 0..v.len()
        invariant
            r.len() == i,
            forall|j: int| 0 <= j < i ==> #[trigger] r@[j]@ == v@[j]@,
    {
        r.push(string_of(v[i].as_slice()));
    }
    assert(str_views(r@) =~= char_views(v@));
    r
}

/// The character sequences of each string.
pub fn chars_of_all(v: &[String]) -> (r: Vec<Vec<char>>)
    ensures
        char_views(r@) == str_views(v@),
{
    let mut r: Vec<Vec<char>> = Vec::new();
    for i in 0..v.len()
        invariant
            r.len() == i,
            forall|j: int| 0 <= j < i ==> #[trigger] r@[j]@ == v@[j]@,
    {
        r.push(chars_of(v[i].as_str()));
    }
    assert(char_views(r@) =~= str_views(v@));
    r
}

// ---------------------------------------------------------------------------
// Whitespace splitting (`str::split_whitespace`)
// ---------------------------------------------------------------------------
/// Maximal runs of non-whitespace characters of `s`, the run in progress being `cur`.
pub open spec fn split_ws_acc(s: Seq<char>, cur: Seq<char>) -> Seq<Seq<char>>
    decreases s.len(),
{
    if s.len() == 0 {
        if cur.len() > 0 {
            seq![cur]
        } else {
            seq![]
        }
    } else if is_ws(s[0]) {
        let rest = split_ws_acc(s.drop_first(), seq![]);
        if cur.len() > 0 {
            seq![cur] + rest
        } else {
            rest
        }
    } else {
        split_ws_acc(s.drop_first(), cur.push(s[0]))
    }
}

/// `str::split_whitespace`: the maximal runs of non-whitespace characters.
pub open spec fn split_ws(s: Seq<char>) -> Seq<Seq<char>> {
    split_ws_acc(s, seq![])
}

pub fn split_ws_chars(s: &Vec<char>) -> (r: Vec<Vec<char>>)
    ensures
        char_views(r@) == split_ws(s@),
{
    let mut out: Vec<Vec<char>> = Vec::new();
    let mut cur: Vec<char> = Vec::new();
    let mut i: usize = 0;
    assert(s@.skip(0) =~= s@);
    while i < s.len()
        invariant
            i <= s.len(),
            char_views(out@) + split_ws_acc(s@.skip(i as int), cur@) == split_ws(s@),
        decreases s.len() - i,
    {
        let c = s[i];
        let ghost t = s@.skip(i as int);
        assert(t.drop_first() =~= s@.skip(i + 1));
        assert(t[0] == c);
        if char_is_ws(c) {
            assert(split_ws_acc(t, cur@) == (if cur@.len() > 0 { seq![cur@] + split_ws_acc(
                t.drop_first(),
                seq![],
            ) } else { split_ws_acc(t.drop_first(), seq![]) }));
            if cur.len() == 0 {
                assert(cur@ =~= Seq::<char>::empty());
            }
            if cur.len() > 0 {
                let ghost od = char_views(out@);
                let ghost cd = cur@;
                out.push(cur);
                assert(char_views(out@) =~= od.push(cd));
                cur = Vec::new();
                assert(char_views(out@) + split_ws_acc(s@.skip(i + 1), cur@) =~= od + (seq![cd]
                    + split_ws_acc(s@.skip(i + 1), seq![])));
            }
        } else {
            assert(split_ws_acc(t, cur@) == split_ws_acc(t.drop_first(), cur@.push(c)));
            cur.push(c);
        }
        i = i + 1;
    }
    if cur.len() > 0 {
        let ghost od = char_views(out@);
        let ghost cd = cur@;
        out.push(cur);
        assert(char_views(out@) =~= od.push(cd));
    }
    assert(char_views(out@) =~= split_ws(s@));
    out
}

/// `split_whitespace` on a string slice, as owned strings.
pub fn split_ws_strings(s: &str) -> (r: Vec<String>)
    ensures
        str_views(r@) == split_ws(s@),
{
    let v = chars_of(s);
    let parts = split_ws_chars(&v);
    strings_of(&parts)
}

// ---------------------------------------------------------------------------
// Trimming (`str::trim`)
// ---------------------------------------------------------------------------
pub open spec fn trim_start(s: Seq<char>) -> Seq<char>
    decreases s.len(),
{
    if s.len() > 0 && is_ws(s[0]) {
        trim_start(s.drop_first())
    } else {
        s
    }
}

pub open spec fn trim_end(s: Seq<char>) -> Seq<char>
    decreases s.len(),
{
    if s.len() > 0 && is_ws(s.last()) {
        trim_end(s.drop_last())
    } else {
        s
    }
}

/// `str::trim`: whitespace removed at both ends.
pub open spec fn trim(s: Seq<char>) -> Seq<char> {
    trim_end(trim_start(s))
}

/// `trim_end(s)` is the prefix of `s` that it looks like.
pub proof fn lemma_trim_end_prefix(s: Seq<char>)
    ensures
        trim_end(s).len() <= s.len(),
        trim_end(s) == s.subrange(0, trim_end(s).len() as int),
        forall|k: int| trim_end(s).len() <= k < s.len() ==> is_ws(#[trigger] s[k]),
    decreases s.len(),
{
    if s.len() > 0 && is_ws(s.last()) {
        lemma_trim_end_prefix(s.drop_last());
        assert(s.drop_last().subrange(0, trim_end(s).len() as int) =~= s.subrange(
            0,
            trim_end(s).len() as int,
        ));
        assert forall|k: int| trim_end(s).len() <= k < s.len() implies is_ws(#[trigger] s[k]) by {
            if k < s.len() - 1 {
                assert(s.drop_last()[k] == s[k]);
            }
        }
    } else {
        assert(s.subrange(0, s.len() as int) =~= s);
    }
}

/// `trim_start(s)` is empty or starts with a character that is not whitespace.
pub proof fn lemma_trim_start_first(s: Seq<char>)
    ensures
        trim_start(s).len() == 0 || !is_ws(trim_start(s)[0]),
    decreases s.len(),
{
    if s.len() > 0 && is_ws(s[0]) {
        lemma_trim_start_first(s.drop_first());
    }
}

/// `trim_end(s)` is empty or ends with a character that is not whitespace.
pub proof fn lemma_trim_end_last(s: Seq<char>)
    ensures
        trim_end(s).len() == 0 || !is_ws(trim_end(s).last()),
    decreases s.len(),
{
    if s.len() > 0 && is_ws(s.last()) {
        lemma_trim_end_last(s.drop_last());
    }
}

/// Trimming trimmed text changes nothing.
pub proof fn lemma_trim_idempotent(x: Seq<char>)
    ensures
        trim(trim(x)) == trim(x),
{
    let y = trim_start(x);
    let z = trim_end(y);
    lemma_trim_start_first(x);
    lemma_trim_end_prefix(y);
    lemma_trim_end_last(y);
    if z.len() > 0 {
        assert(z[0] == y[0]);
        assert(trim_start(z) == z);
        assert(trim_end(z) == z);
    } else {
        assert(trim_start(z) == z);
        assert(trim_end(z) == z);
    }
}

pub fn trim_start_chars(s: &Vec<char>) -> (r: Vec<char>)
    ensures
        r@ == trim_start(s@),
{
    let mut i: usize = 0;
    assert(s@.skip(0) =~= s@);
    while i < s.len() && char_is_ws(s[i])
        invariant
            i <= s.len(),
            trim_start(s@.skip(i as int)) == trim_start(s@),
        decreases s.len() - i,
    {
        assert(s@.skip(i as int).drop_first() =~= s@.skip(i + 1));
        i = i + 1;
    }
    let r = slice_chars(s, i, s.len());
    assert(r@ =~= s@.skip(i as int));
    r
}

pub fn trim_end_chars(s: &Vec<char>) -> (r: Vec<char>)
    ensures
        r@ == trim_end(s@),
{
    let mut j: usize = s.len();
    assert(s@.take(j as int) =~= s@);
    while j > 0 && char_is_ws(s[j - 1])
        invariant
            j <= s.len(),
            trim_end(s@.take(j as int)) == trim_end(s@),
        decreases j,
    {
        assert(s@.take(j as int).drop_last() =~= s@.take(j - 1));
        j = j - 1;
    }
    let r = slice_chars(s, 0, j);
    assert(r@ =~= s@.take(j as int));
    r
}

pub fn trim_chars(s: &Vec<char>) -> (r: Vec<char>)
    ensures
        r@ == trim(s@),
{
    let a = trim_start_chars(s);
    trim_end_chars(&a)
}

/// The characters `s[from..to]`.
pub fn slice_chars(s: &Vec<char>, from: usize, to: usize) -> (r: Vec<char>)
    requires
        from <= to <= s.len(),
    ensures
        r@ == s@.subrange(from as int, to as int),
{
    let mut r: Vec<char> = Vec::new();
    let mut k = from;
    while k < to
        invariant
            from <= k <= to <= s.len(),
            r@ == s@.subrange(from as int, k as int),
        decreases to - k,
    {
        r.push(s[k]);
        k = k + 1;
        assert(r@ =~= s@.subrange(from as int, k as int));
    }
    r
}

/// Whether `a` and `b` hold the same characters.
pub fn chars_eq(a: &Vec<char>, b: &Vec<char>) -> (r: bool)
    ensures
        r == (a@ == b@),
{
    if a.len() != b.len() {
        return false;
    }
    let r = occurs_at_exec(a, 0, b);
    assert(r ==> a@.subrange(0, b@.len() as int) =~= a@);
    proof {
        if a@ == b@ {
            assert(a@.subrange(0, b@.len() as int) =~= b@);
        }
    }
    r
}

/// A copy of `v`.
pub fn copy_chars(v: &Vec<char>) -> (r: Vec<char>)
    ensures
        r@ == v@,
{
    let r = slice_chars(v, 0, v.len());
    assert(r@ =~= v@);
    r
}

/// Appends `b` to `a`.
pub fn push_all(a: &mut Vec<char>, b: &Vec<char>)
    ensures
        final(a)@ == old(a)@ + b@,
{
    let mut k: usize = 0;
    let ghost a0 = a@;
    while k < b.len()
        invariant
            k <= b.len(),
            a@ == a0 + b@.take(k as int),
        decreases b.len() - k,
    {
        a.push(b[k]);
        k = k + 1;
        assert(a@ =~= a0 + b@.take(k as int));
    }
    assert(b@.take(b.len() as int) =~= b@);
}

// ---------------------------------------------------------------------------
// Substrings
// ---------------------------------------------------------------------------
/// `pat` occurs in `s` at position `i`.
pub open spec fn occurs_at(s: Seq<char>, i: int, pat: Seq<char>) -> bool {
    0 <= i && i + pat.len() <= s.len() && s.subrange(i, i + pat.len()) == pat
}

pub fn occurs_at_exec(s: &Vec<char>, i: usize, pat: &Vec<char>) -> (b: bool)
    ensures
        b == occurs_at(s@, i as int, pat@),
{
    if i > s.len() || pat.len() > s.len() - i {
        return false;
    }
    let mut k: usize = 0;
    while k < pat.len()
        invariant
            i + pat.len() <= s.len(),
            k <= pat.len(),
            forall|j: int| 0 <= j < k ==> s@[i + j] == pat@[j],
        decreases pat.len() - k,
    {
        if s[i + k] != pat[k] {
            assert(s@.subrange(i as int, i + pat.len())[k as int] != pat@[k as int]);
            return false;
        }
        k = k + 1;
    }
    assert(s@.subrange(i as int, i + pat.len()) =~= pat@);
    true
}

/// `str::replace`: every non-overlapping occurrence of `pat`, scanning left to
/// right, replaced by `rep`.
pub open spec fn replace_seq(s: Seq<char>, pat: Seq<char>, rep: Seq<char>) -> Seq<char>
    decreases s.len(),
{
    if pat.len() == 0 || s.len() < pat.len() {
        s
    } else if s.take(pat.len() as int) == pat {
        rep + replace_seq(s.skip(pat.len() as int), pat, rep)
    } else {
        seq![s[0]] + replace_seq(s.drop_first(), pat, rep)
    }
}

proof fn lemma_replace_short(s: Seq<char>, pat: Seq<char>, rep: Seq<char>)
    requires
        s.len() < pat.len(),
    ensures
        replace_seq(s, pat, rep) == s,
{
}

pub fn replace_chars(s: &Vec<char>, pat: &Vec<char>, rep: &Vec<char>) -> (r: Vec<char>)
    ensures
        r@ == replace_seq(s@, pat@, rep@),
{
    if pat.len() == 0 {
        return s.clone();
    }
    let mut out: Vec<char> = Vec::new();
    let mut i: usize = 0;
    assert(s@.skip(0) =~= s@);
    while i < s.len()
        invariant
            i <= s.len(),
            pat.len() > 0,
            out@ + replace_seq(s@.skip(i as int), pat@, rep@) == replace_seq(s@, pat@, rep@),
        decreases s.len() - i,
    {
        let ghost t = s@.skip(i as int);
        if occurs_at_exec(s, i, pat) {
            assert(t.take(pat.len() as int) =~= s@.subrange(i as int, i + pat.len()));
            assert(t.skip(pat.len() as int) =~= s@.skip(i + pat.len()));
            let ghost o = out@;
            push_all(&mut out, rep);
            assert(out@ + replace_seq(s@.skip(i + pat.len()), pat@, rep@) =~= o + (rep@
                + replace_seq(t.skip(pat.len() as int), pat@, rep@)));
            i = i + pat.len();
        } else {
            proof {
                if t.len() >= pat.len() {
                    assert(t.take(pat.len() as int) =~= s@.subrange(i as int, i + pat.len()));
                }
            }
            assert(t.drop_first() =~= s@.skip(i + 1));
            let ghost o = out@;
            out.push(s[i]);
            proof {
                if t.len() < pat.len() {
                    lemma_replace_short(t, pat@, rep@);
                    lemma_replace_short(t.drop_first(), pat@, rep@);
                }
            }
            assert(out@ + replace_seq(s@.skip(i + 1), pat@, rep@) =~= o + (seq![s@[i as int]]
                + replace_seq(t.drop_first(), pat@, rep@)));
            i = i + 1;
        }
    }
    assert(s@.skip(i as int) =~= Seq::<char>::empty());
    out
}

// ---------------------------------------------------------------------------
// Joining (`[T]::join`)
// ---------------------------------------------------------------------------
/// The parts, in order, with `sep` between consecutive parts.
pub open spec fn join_seq(parts: Seq<Seq<char>>, sep: Seq<char>) -> Seq<char>
    decreases parts.len(),
{
    if parts.len() == 0 {
        seq![]
    } else if parts.len() == 1 {
        parts[0]
    } else {
        join_seq(parts.drop_last(), sep) + sep + parts.last()
    }
}

pub fn join_chars(parts: &Vec<Vec<char>>, sep: &Vec<char>) -> (r: Vec<char>)
    ensures
        r@ == join_seq(char_views(parts@), sep@),
{
    let mut out: Vec<char> = Vec::new();
    let ghost d = char_views(parts@);
    for i in 0..parts.len()
        invariant
            d == char_views(parts@),
            out@ == join_seq(d.take(i as int), sep@),
    {
        assert(d.take(i + 1).drop_last() =~= d.take(i as int));
        if i > 0 {
            push_all(&mut out, sep);
        }
        push_all(&mut out, &parts[i]);
    }
    assert(d.take(parts.len() as int) =~= d);
    out
}

// ---------------------------------------------------------------------------
// Splitting on a separator (`str::split`)
// ---------------------------------------------------------------------------
/// The pieces of `s` between non-overlapping occurrences of `sep` (found left to
/// right), the piece in progress being `cur`; empty pieces are kept.
pub open spec fn split_acc(s: Seq<char>, sep: Seq<char>, cur: Seq<char>) -> Seq<Seq<char>>
    decreases s.len(),
{
    if s.len() == 0 || sep.len() == 0 {
        seq![cur + s]
    } else if s.len() >= sep.len() && s.take(sep.len() as int) == sep {
        seq![cur] + split_acc(s.skip(sep.len() as int), sep, seq![])
    } else {
        split_acc(s.drop_first(), sep, cur.push(s[0]))
    }
}

/// `str::split` with a non-empty separator: the pieces between occurrences of `sep`.
pub open spec fn split_seq(s: Seq<char>, sep: Seq<char>) -> Seq<Seq<char>> {
    split_acc(s, sep, seq![])
}

pub fn split_chars(s: &Vec<char>, sep: &Vec<char>) -> (r: Vec<Vec<char>>)
    requires
        sep.len() > 0,
    ensures
        char_views(r@) == split_seq(s@, sep@),
{
    let mut out: Vec<Vec<char>> = Vec::new();
    let mut cur: Vec<char> = Vec::new();
    let mut i: usize = 0;
    assert(s@.skip(0) =~= s@);
    while i < s.len()
        invariant
            i <= s.len(),
            sep.len() > 0,
            char_views(out@) + split_acc(s@.skip(i as int), sep@, cur@) == split_seq(s@, sep@),
        decreases s.len() - i,
    {
        let ghost t = s@.skip(i as int);
        if occurs_at_exec(s, i, sep) {
            assert(t.take(sep.len() as int) =~= s@.subrange(i as int, i + sep.len()));
            assert(t.skip(sep.len() as int) =~= s@.skip(i + sep.len()));
            let ghost od = char_views(out@);
            let ghost cd = cur@;
            out.push(cur);
            assert(char_views(out@) =~= od.push(cd));
            cur = Vec::new();
            assert(char_views(out@) + split_acc(s@.skip(i + sep.len()), sep@, cur@) =~= od + (
            seq![cd] + split_acc(t.skip(sep.len() as int), sep@, seq![])));
            i = i + sep.len();
        } else {
            proof {
                if t.len() >= sep.len() {
                    assert(t.take(sep.len() as int) =~= s@.subrange(i as int, i + sep.len()));
                }
            }
            assert(t.drop_first() =~= s@.skip(i + 1));
            assert(split_acc(t, sep@, cur@) == split_acc(t.drop_first(), sep@, cur@.push(t[0])));
            cur.push(s[i]);
            i = i + 1;
        }
    }
    let ghost od = char_views(out@);
    let ghost cd = cur@;
    assert(s@.skip(i as int) =~= Seq::<char>::empty());
    assert(cd + s@.skip(i as int) =~= cd);
    out.push(cur);
    assert(char_views(out@) =~= od.push(cd));
    assert(char_views(out@) =~= od + seq![cd]);
    out
}

// ---------------------------------------------------------------------------
// Non-whitespace content
// ---------------------------------------------------------------------------
/// `s` with every whitespace character removed.
pub open spec fn non_ws(s: Seq<char>) -> Seq<char>
    decreases s.len(),
{
    if s.len() == 0 {
        seq![]
    } else if is_ws(s[0]) {
        non_ws(s.drop_first())
    } else {
        seq![s[0]] + non_ws(s.drop_first())
    }
}

pub proof fn lemma_non_ws_add(a: Seq<char>, b: Seq<char>)
    ensures
        non_ws(a + b) == non_ws(a) + non_ws(b),
    decreases a.len(),
{
    if a.len() == 0 {
        assert(a + b =~= b);
    } else {
        assert((a + b).drop_first() =~= a.drop_first() + b);
        lemma_non_ws_add(a.drop_first(), b);
        assert(non_ws(a + b) =~= non_ws(a) + non_ws(b));
    }
}

pub proof fn lemma_non_ws_subrange_split(s: Seq<char>, a: int, b: int, c: int)
    requires
        0 <= a <= b <= c <= s.len(),
    ensures
        non_ws(s.subrange(a, c)) == non_ws(s.subrange(a, b)) + non_ws(s.subrange(b, c)),
{
    assert(s.subrange(a, c) =~= s.subrange(a, b) + s.subrange(b, c));
    lemma_non_ws_add(s.subrange(a, b), s.subrange(b, c));
}

proof fn lemma_split_ws_acc_content(s: Seq<char>, cur: Seq<char>)
    ensures
        non_ws(split_ws_acc(s, cur).flatten()) == non_ws(cur) + non_ws(s),
    decreases s.len(),
{
    if s.len() == 0 {
        if cur.len() > 0 {
            seq![cur].lemma_flatten_singleton();
        } else {
            assert(cur =~= Seq::<char>::empty());
        }
        assert(s =~= Seq::<char>::empty());
        assert(non_ws(cur) + non_ws(s) =~= non_ws(cur));
    } else if is_ws(s[0]) {
        let rest = split_ws_acc(s.drop_first(), seq![]);
        lemma_split_ws_acc_content(s.drop_first(), seq![]);
        assert(non_ws(Seq::<char>::empty()) =~= Seq::<char>::empty());
        if cur.len() > 0 {
            vstd::seq_lib::lemma_flatten_concat(seq![cur], rest);
            seq![cur].lemma_flatten_singleton();
            lemma_non_ws_add(cur, rest.flatten());
        } else {
            assert(cur =~= Seq::<char>::empty());
        }
        assert(non_ws(split_ws_acc(s, cur).flatten()) =~= non_ws(cur) + non_ws(s));
    } else {
        lemma_split_ws_acc_content(s.drop_first(), cur.push(s[0]));
        assert(cur.push(s[0]) =~= cur + seq![s[0]]);
        lemma_non_ws_add(cur, seq![s[0]]);
        assert(non_ws(seq![s[0]]) =~= seq![s[0]]) by {
            reveal_with_fuel(non_ws, 2);
            assert(seq![s[0]].drop_first() =~= Seq::<char>::empty());
        }
        assert(non_ws(split_ws_acc(s, cur).flatten()) =~= non_ws(cur) + non_ws(s));
    }
}

/// Splitting at whitespace loses only the whitespace.
pub proof fn lemma_split_ws_content(s: Seq<char>)
    ensures
        non_ws(split_ws(s).flatten()) == non_ws(s),
{
    lemma_split_ws_acc_content(s, seq![]);
    assert(non_ws(Seq::<char>::empty()) + non_ws(s) =~= non_ws(s));
}

/// Dropping empty pieces does not change their concatenation.
pub proof fn lemma_flatten_filter_nonempty(x: Seq<Seq<char>>)
    ensures
        x.filter(|t: Seq<char>| t.len() > 0).flatten() == x.flatten(),
    decreases x.len(),
{
    reveal(Seq::filter);
    if x.len() > 0 {
        let f = |t: Seq<char>| t.len() > 0;
        lemma_flatten_filter_nonempty(x.drop_last());
        x.drop_last().lemma_flatten_and_flatten_alt_are_equivalent();
        x.lemma_flatten_and_flatten_alt_are_equivalent();
        if x.last().len() > 0 {
            x.drop_last().filter(f).lemma_flatten_push(x.last());
        } else {
            assert(x.flatten_alt() =~= x.drop_last().flatten_alt());
        }
    }
}

// ---------------------------------------------------------------------------
// Unicode case and character classes (std)
// ---------------------------------------------------------------------------
/// `char::is_alphanumeric` (the Unicode `Alphabetic` or `Numeric` property).
pub uninterp spec fn alphanumeric(c: char) -> bool;

/// `char::is_alphabetic` (the Unicode `Alphabetic` property).
pub uninterp spec fn alphabetic(c: char) -> bool;

/// `char::is_uppercase` (the Unicode `Uppercase` property).
pub uninterp spec fn uppercase(c: char) -> bool;

/// `char::is_lowercase` (the Unicode `Lowercase` property).
pub uninterp spec fn lowercase_char(c: char) -> bool;

/// `str::to_lowercase`: the Unicode lowercase mapping of a string.
pub uninterp spec fn lowercase(s: Seq<char>) -> Seq<char>;

/// std's `char::is_alphanumeric`.
#[verifier::external_body]
pub fn is_alphanumeric(c: char) -> (b: bool)
    ensures
        b == alphanumeric(c),
{
    c.is_alphanumeric()
}

/// std's `char::is_alphabetic`.
#[verifier::external_body]
pub fn is_alphabetic(c: char) -> (b: bool)
    ensures
        b == alphabetic(c),
{
    c.is_alphabetic()
}

/// std's `char::is_uppercase`.
#[verifier::external_body]
pub fn is_uppercase(c: char) -> (b: bool)
    ensures
        b == uppercase(c),
{
    c.is_uppercase()
}

/// std's `char::is_lowercase`.
#[verifier::external_body]
pub fn is_lowercase(c: char) -> (b: bool)
    ensures
        b == lowercase_char(c),
{
    c.is_lowercase()
}

/// std's `str::to_lowercase`.
#[verifier::external_body]
pub fn to_lowercase(s: &str) -> (r: String)
    ensures
        r@ == lowercase(s@),
{
    s.to_lowercase()
}

/// A Unicode scalar value: not a surrogate and at most `0x10FFFF`.
pub open spec fn is_scalar_value(n: u32) -> bool {
    n < 0xD800 || (0xE000 <= n && n <= 0x10FFFF)
}

/// std's `char::from_u32`: the character with code `n`, if `n` is a scalar value.
#[verifier::external_body]
pub fn char_from_u32(n: u32) -> (r: Option<char>)
    ensures
        r == (if is_scalar_value(n) { Some(n as char) } else { None::<char> }),
{
    char::from_u32(n)
}

/// ASCII `[A-Za-z0-9]`.
pub open spec fn ascii_alnum(c: char) -> bool {
    ('a' <= c && c <= 'z') || ('A' <= c && c <= 'Z') || ('0' <= c && c <= '9')
}

pub fn is_ascii_alnum(c: char) -> (b: bool)
    ensures
        b == ascii_alnum(c),
{
    ('a' <= c && c <= 'z') || ('A' <= c && c <= 'Z') || ('0' <= c && c <= '9')
}

/// Whether `c` occurs in `s`.
pub fn contains_char(s: &Vec<char>, c: char) -> (b: bool)
    ensures
        b == s@.contains(c),
{
    for i in 0..s.len()
        invariant
            forall|j: int| 0 <= j < i ==> s@[j] != c,
    {
        if s[i] == c {
            return true;
        }
    }
    false
}

/// Whether `pat` occurs somewhere in `s`.
pub open spec fn contains_seq(s: Seq<char>, pat: Seq<char>) -> bool {
    exists|i: int| #[trigger] occurs_at(s, i, pat)
}

pub fn contains_chars(s: &Vec<char>, pat: &Vec<char>) -> (b: bool)
    ensures
        b == contains_seq(s@, pat@),
{
    let mut i: usize = 0;
    while i < s.len()
        invariant
            i <= s.len(),
            forall|j: int| 0 <= j < i ==> !occurs_at(s@, j, pat@),
        decreases s.len() - i,
    {
        if occurs_at_exec(s, i, pat) {
            return true;
        }
        i = i + 1;
    }
    if occurs_at_exec(s, i, pat) {
        return true;
    }
    assert forall|j: int| !occurs_at(s@, j, pat@) by {
        if 0 <= j && j < i {
        } else if j > i {
            assert(j + pat@.len() > s@.len());
        }
    }
    false
}

} // verus!
