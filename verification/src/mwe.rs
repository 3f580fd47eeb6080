//! Multi-word expressions: runs of tokens that form a known phrase are merged
//! into one token, the longest phrase winning.
use vstd::prelude::*;
use crate::api::TokenizerI;
use crate::destructive::{align_tokens, alignment};
use crate::text::{
    char_views, chars_eq, chars_of, chars_of_all, join_chars, join_seq, occurs_at_exec, split_ws,
    split_ws_strings, str_views, strings_of,
};

verus! {

/// The end (inclusive) of the longest phrase of `ph` that starts at token `i` and
/// ends at or before token `e`.
pub open spec fn longest_end(ph: Seq<Seq<Seq<char>>>, toks: Seq<Seq<char>>, i: int, e: int) -> Option<
    int,
>
    decreases e - i + 1,
{
    if e < i {
        None
    } else if ph.contains(toks.subrange(i, e + 1)) {
        Some(e)
    } else {
        longest_end(ph, toks, i, e - 1)
    }
}

/// A phrase found by `longest_end` lies between `i` and `e`.
pub proof fn lemma_longest_end_range(ph: Seq<Seq<Seq<char>>>, toks: Seq<Seq<char>>, i: int, e: int)
    ensures
        longest_end(ph, toks, i, e) matches Some(x) ==> i <= x <= e && ph.contains(
            toks.subrange(i, x + 1),
        ),
    decreases e - i + 1,
{
    if e >= i && !ph.contains(toks.subrange(i, e + 1)) {
        lemma_longest_end_range(ph, toks, i, e - 1);
    }
}

/// The tokens from `i` on with each longest phrase merged into one token, its
/// words joined by `sep`.
pub open spec fn merge_from(ph: Seq<Seq<Seq<char>>>, toks: Seq<Seq<char>>, sep: Seq<char>, i: int) -> Seq<
    Seq<char>,
>
    decreases toks.len() - i,
{
    if i < 0 || i >= toks.len() {
        seq![]
    } else {
        match longest_end(ph, toks, i, toks.len() - 1) {
            Some(e) => {
                proof {
                    lemma_longest_end_range(ph, toks, i, toks.len() - 1);
                }
                seq![join_seq(toks.subrange(i, e + 1), sep)] + merge_from(ph, toks, sep, e + 1)
            },
            None => seq![toks[i]] + merge_from(ph, toks, sep, i + 1),
        }
    }
}

/// The tokens with each longest phrase merged.
pub open spec fn merge_phrases(ph: Seq<Seq<Seq<char>>>, toks: Seq<Seq<char>>, sep: Seq<char>) -> Seq<
    Seq<char>,
> {
    merge_from(ph, toks, sep, 0)
}

/// Merges runs of tokens that spell a multi-word expression into one token.
pub struct MWETokenizer {
    mwes: Vec<Vec<String>>,
    separator: String,
}

/// The phrases of a list of multi-word expressions.
pub open spec fn phrase_views(mwes: Seq<Vec<String>>) -> Seq<Seq<Seq<char>>> {
    mwes.map_values(|m: Vec<String>| str_views(m@))
}

/// Whether the phrase `m` begins with the tokens `toks[i..k]`.
fn starts_with_range(m: &Vec<Vec<char>>, toks: &Vec<Vec<char>>, i: usize, k: usize) -> (r: bool)
    requires
        i <= k <= toks.len(),
    ensures
        r == (m.len() >= k - i && char_views(m@).subrange(0, (k - i) as int) == char_views(
            toks@,
        ).subrange(i as int, k as int)),
{
    let ghost mv = char_views(m@);
    let ghost tv = char_views(toks@);
    if m.len() < k - i {
        return false;
    }
    let mut q: usize = 0;
    while q < k - i
        invariant
            i <= k <= toks.len(),
            m.len() >= k - i,
            mv == char_views(m@),
            tv == char_views(toks@),
            q <= k - i,
            forall|x: int| 0 <= x < q ==> mv[x] == tv[i + x],
        decreases k - i - q,
    {
        if !chars_eq(&m[q], &toks[i + q]) {
            assert(mv.subrange(0, (k - i) as int)[q as int] != tv.subrange(i as int, k as int)[q as int]);
            return false;
        }
        q = q + 1;
    }
    assert(mv.subrange(0, (k - i) as int) =~= tv.subrange(i as int, k as int));
    true
}

impl MWETokenizer {
    /// The phrases to merge.
    pub closed spec fn phrases(&self) -> Seq<Seq<Seq<char>>> {
        phrase_views(self.mwes@)
    }

    /// The text that joins the words of a merged phrase.
    pub closed spec fn sep(&self) -> Seq<char> {
        self.separator@
    }

    /// A tokenizer for the phrases `mwes`, whose words are joined by `separator`.
    pub fn new(mwes: Vec<Vec<String>>, separator: &str) -> (r: Self)
        ensures
            r.phrases() == phrase_views(mwes@),
            r.sep() == separator@,
    {
        MWETokenizer { mwes, separator: separator.to_owned() }
    }

    /// Adds the phrase `mwe`.
    pub fn add_mwe(&mut self, mwe: Vec<String>)
        ensures
            final(self).phrases() == old(self).phrases().push(str_views(mwe@)),
            final(self).sep() == old(self).sep(),
    {
        let ghost before = self.mwes@;
        self.mwes.push(mwe);
        assert(phrase_views(self.mwes@) =~= phrase_views(before).push(str_views(mwe@)));
    }

    /// The tokens with each longest run that spells a phrase merged into one
    /// token, its words joined by the separator.
    pub fn tokenize(&self, tokens: &[String]) -> (r: Vec<String>)
        ensures
            str_views(r@) == merge_phrases(self.phrases(), str_views(tokens@), self.sep()),
    {
        let ghost pv = self.phrases();
        let mut ph: Vec<Vec<Vec<char>>> = Vec::new();
        for q in 0..self.mwes.len()
            invariant
                pv == phrase_views(self.mwes@),
                ph.len() == q,
                forall|x: int| 0 <= x < q ==> #[trigger] char_views(ph@[x]@) == pv[x],
        {
            ph.push(chars_of_all(self.mwes[q].as_slice()));
        }
        let ghost phv = ph@.map_values(|m: Vec<Vec<char>>| char_views(m@));
        assert(phv =~= pv);
        let toks = chars_of_all(tokens);
        let sep = chars_of(self.separator.as_str());
        let ghost tv = char_views(toks@);
        let n = toks.len();
        let mut out: Vec<Vec<char>> = Vec::new();
        let mut i: usize = 0;
        assert(char_views(out@) + merge_from(pv, tv, sep@, 0) =~= merge_from(pv, tv, sep@, 0));
        while i < n
            invariant
                n == toks.len(),
                tv == char_views(toks@),
                tv == str_views(tokens@),
                sep@ == self.sep(),
                pv == self.phrases(),
                phv == pv,
                phv == ph@.map_values(|m: Vec<Vec<char>>| char_views(m@)),
                i <= n,
                char_views(out@) + merge_from(pv, tv, sep@, i as int) == merge_from(pv, tv, sep@, 0),
            decreases n - i,
        {
            let longest = longest_phrase(&ph, &toks, i);
            let ghost before = char_views(out@);
            proof {
                lemma_longest_end_range(pv, tv, i as int, n - 1);
            }
            match longest {
                Some(end) => {
                    let mut words: Vec<Vec<char>> = Vec::new();
                    let mut k = i;
                    while k <= end
                        invariant
                            i <= k <= end + 1,
                            end < n,
                            n == toks.len(),
                            char_views(words@) == char_views(toks@).subrange(i as int, k as int),
                        decreases end + 1 - k,
                    {
                        let ghost wb = char_views(words@);
                        words.push(crate::text::copy_chars(&toks[k]));
                        assert(char_views(words@) =~= wb.push(toks@[k as int]@));
                        assert(char_views(toks@)[k as int] == toks@[k as int]@);
                        assert(char_views(words@) =~= char_views(toks@).subrange(i as int, k + 1));
                        k = k + 1;
                    }
                    let merged = join_chars(&words, &sep);
                    out.push(merged);
                    assert(char_views(out@) =~= before + seq![join_seq(tv.subrange(i as int, end + 1), sep@)]);
                    i = end + 1;
                },
                None => {
                    let w = crate::text::copy_chars(&toks[i]);
                    out.push(w);
                    assert(char_views(out@) =~= before + seq![tv[i as int]]);
                    i = i + 1;
                },
            }
        }
        strings_of(&out)
    }
}

/// Whether some phrase begins with the tokens `toks[i..k]`.
fn some_phrase_starts_with(ph: &Vec<Vec<Vec<char>>>, toks: &Vec<Vec<char>>, i: usize, k: usize) -> (r: bool)
    requires
        i <= k <= toks.len(),
    ensures
        r == exists|q: int|
            0 <= q < ph@.len() && #[trigger] char_views(ph@[q]@).len() >= k - i && char_views(
                ph@[q]@,
            ).subrange(0, (k - i) as int) == char_views(toks@).subrange(i as int, k as int),
{
    for q in 0..ph.len()
        invariant
            i <= k <= toks.len(),
            forall|x: int|
                0 <= x < q ==> !(#[trigger] char_views(ph@[x]@).len() >= k - i && char_views(
                    ph@[x]@,
                ).subrange(0, (k - i) as int) == char_views(toks@).subrange(i as int, k as int)),
    {
        if starts_with_range(&ph[q], toks, i, k) {
            assert(char_views(ph@[q as int]@).len() >= k - i);
            return true;
        }
    }
    false
}

/// Whether some phrase is exactly the tokens `toks[i..k]`.
fn some_phrase_is(ph: &Vec<Vec<Vec<char>>>, toks: &Vec<Vec<char>>, i: usize, k: usize) -> (r: bool)
    requires
        i <= k <= toks.len(),
    ensures
        r == ph@.map_values(|m: Vec<Vec<char>>| char_views(m@)).contains(
            char_views(toks@).subrange(i as int, k as int),
        ),
{
    let ghost phv = ph@.map_values(|m: Vec<Vec<char>>| char_views(m@));
    let ghost target = char_views(toks@).subrange(i as int, k as int);
    for q in 0..ph.len()
        invariant
            i <= k <= toks.len(),
            phv == ph@.map_values(|m: Vec<Vec<char>>| char_views(m@)),
            target == char_views(toks@).subrange(i as int, k as int),
            forall|x: int| 0 <= x < q ==> phv[x] != target,
    {
        if ph[q].len() == k - i && starts_with_range(&ph[q], toks, i, k) {
            assert(char_views(ph@[q as int]@).subrange(0, (k - i) as int) =~= char_views(
                ph@[q as int]@,
            ));
            assert(phv[q as int] == target);
            return true;
        }
        proof {
            if phv[q as int] == target {
                assert(char_views(ph@[q as int]@).subrange(0, (k - i) as int) =~= target);
            }
        }
    }
    false
}

/// If no phrase begins with `toks[i..j + 1]`, no phrase is a longer run from `i`.
proof fn lemma_longest_stops(ph: Seq<Seq<Seq<char>>>, toks: Seq<Seq<char>>, i: int, j: int, e: int)
    requires
        0 <= i <= j < toks.len(),
        j <= e < toks.len(),
        !(exists|q: int|
            0 <= q < ph.len() && #[trigger] ph[q].len() >= j + 1 - i && ph[q].subrange(0, j + 1 - i)
                == toks.subrange(i, j + 1)),
    ensures
        longest_end(ph, toks, i, e) == longest_end(ph, toks, i, j - 1),
    decreases e - j,
{
    if ph.contains(toks.subrange(i, e + 1)) {
        let q = choose|q: int| 0 <= q < ph.len() && ph[q] == toks.subrange(i, e + 1);
        assert(ph[q].len() >= j + 1 - i);
        assert(ph[q].subrange(0, j + 1 - i) =~= toks.subrange(i, j + 1));
        assert(false);
    }
    if e > j {
        lemma_longest_stops(ph, toks, i, j, e - 1);
    }
}

/// The end of the longest phrase that starts at token `i`: the tokens are walked
/// while some phrase begins with the run so far.
fn longest_phrase(ph: &Vec<Vec<Vec<char>>>, toks: &Vec<Vec<char>>, i: usize) -> (r: Option<usize>)
    requires
        i < toks.len(),
    ensures
        match r {
            Some(e) => longest_end(
                ph@.map_values(|m: Vec<Vec<char>>| char_views(m@)),
                char_views(toks@),
                i as int,
                toks.len() - 1,
            ) == Some(e as int),
            None => longest_end(
                ph@.map_values(|m: Vec<Vec<char>>| char_views(m@)),
                char_views(toks@),
                i as int,
                toks.len() - 1,
            ) is None,
        },
{
    let ghost phv = ph@.map_values(|m: Vec<Vec<char>>| char_views(m@));
    let ghost tv = char_views(toks@);
    let n = toks.len();
    let mut longest: Option<usize> = None;
    let mut j = i;
    while j < n && some_phrase_starts_with(ph, toks, i, j + 1)
        invariant
            n == toks.len(),
            i <= j <= n,
            i < n,
            phv == ph@.map_values(|m: Vec<Vec<char>>| char_views(m@)),
            tv == char_views(toks@),
            match longest {
                Some(e) => longest_end(phv, tv, i as int, j - 1) == Some(e as int),
                None => longest_end(phv, tv, i as int, j - 1) is None,
            },
        decreases n - j,
    {
        if some_phrase_is(ph, toks, i, j + 1) {
            longest = Some(j);
        }
        j = j + 1;
    }
    proof {
        if j < n {
            assert forall|q: int| 0 <= q < phv.len() implies !(#[trigger] phv[q].len() >= j + 1 - i
                && phv[q].subrange(0, j + 1 - i) == tv.subrange(i as int, j + 1)) by {
                assert(phv[q] == char_views(ph@[q]@));
            }
            lemma_longest_stops(phv, tv, i as int, j as int, n - 1);
        }
    }
    longest
}

impl TokenizerI for MWETokenizer {
    open spec fn accepts(&self, s: Seq<char>) -> bool {
        true
    }

    open spec fn tokens_of(&self, s: Seq<char>) -> Seq<Seq<char>> {
        merge_phrases(self.phrases(), split_ws(s), self.sep())
    }

    open spec fn spans_ok(&self, s: Seq<char>) -> bool {
        alignment(self.tokens_of(s), s) is Some
    }

    open spec fn spans_of(&self, s: Seq<char>) -> Seq<(int, int)> {
        alignment(self.tokens_of(s), s).unwrap()
    }

    fn tokenize(&self, s: &str) -> (r: Vec<String>) {
        let words = split_ws_strings(s);
        MWETokenizer::tokenize(self, words.as_slice())
    }

    fn span_tokenize(&self, s: &str) -> (r: Vec<(usize, usize)>) {
        let toks = TokenizerI::tokenize(self, s);
        align_tokens(toks.as_slice(), s)
    }
}

/// With no phrases, the tokens come out as they went in.
pub proof fn lemma_no_phrases_identity(toks: Seq<Seq<char>>, sep: Seq<char>, i: int)
    requires
        0 <= i <= toks.len(),
    ensures
        merge_from(seq![], toks, sep, i) == toks.skip(i),
    decreases toks.len() - i,
{
    if i < toks.len() {
        lemma_no_phrases_none(toks, i, toks.len() - 1);
        lemma_no_phrases_identity(toks, sep, i + 1);
        assert(seq![toks[i]] + toks.skip(i + 1) =~= toks.skip(i));
    } else {
        assert(toks.skip(i) =~= Seq::<Seq<char>>::empty());
    }
}

proof fn lemma_no_phrases_none(toks: Seq<Seq<char>>, i: int, e: int)
    ensures
        longest_end(seq![], toks, i, e) is None,
    decreases e - i + 1,
{
    if e >= i {
        lemma_no_phrases_none(toks, i, e - 1);
    }
}

/// Tokenizing the words of a known phrase gives that phrase as one token, its
/// words joined by the separator.
pub proof fn lemma_known_phrase_merges(ph: Seq<Seq<Seq<char>>>, m: Seq<Seq<char>>, sep: Seq<char>)
    requires
        ph.contains(m),
        m.len() >= 1,
    ensures
        merge_phrases(ph, m, sep) == seq![join_seq(m, sep)],
{
    assert(m.subrange(0, m.len() as int) =~= m);
    assert(longest_end(ph, m, 0, m.len() - 1) == Some(m.len() - 1));
    assert(merge_from(ph, m, sep, m.len() as int) == Seq::<Seq<char>>::empty());
    assert(merge_from(ph, m, sep, 0) =~= seq![join_seq(m, sep)]);
}

/// After `add_mwe(m)` (from `before` to `after`), tokenizing the words of `m`
/// gives `m` joined by the separator, and every phrase known before still
/// merges the same way: adding a phrase forgets none.
pub proof fn lemma_add_mwe_merges(before: MWETokenizer, after: MWETokenizer, m: Seq<Seq<char>>)
    requires
        after.phrases() == before.phrases().push(m),
        after.sep() == before.sep(),
    ensures
        m.len() >= 1 ==> merge_phrases(after.phrases(), m, after.sep()) == seq![join_seq(m, after.sep())],
        forall|k: int|
            0 <= k < before.phrases().len() && before.phrases()[k].len() >= 1 ==> merge_phrases(
                after.phrases(),
                #[trigger] before.phrases()[k],
                after.sep(),
            ) == seq![join_seq(before.phrases()[k], after.sep())],
{
    let ph = after.phrases();
    if m.len() >= 1 {
        assert(ph[ph.len() - 1] == m);
        lemma_known_phrase_merges(ph, m, after.sep());
    }
    assert forall|k: int|
        0 <= k < before.phrases().len() && before.phrases()[k].len() >= 1 implies merge_phrases(
        ph,
        #[trigger] before.phrases()[k],
        after.sep(),
    ) == seq![join_seq(before.phrases()[k], after.sep())] by {
        assert(ph[k] == before.phrases()[k]);
        lemma_known_phrase_merges(ph, before.phrases()[k], after.sep());
    }
}

} // verus!
