//! Syllable tokenizers (the legality principle and sonority sequencing) and the
//! TextTiling segmenter's paragraph and short-text paths.
use vstd::prelude::*;
use crate::api::{spans_view, TokenizerI};
use crate::text::{
    alphabetic, char_from_u32, char_views, chars_of, chars_of_all, contains_char, copy_chars,
    is_alphabetic, lowercase, push_all, slice_chars, split_ws, split_ws_chars, str_views,
    string_of, strings_of, to_lowercase,
};
use crate::destructive::{align_tokens, alignment};
use crate::simple::nonblank_lines;
use crate::text::{contains_chars, contains_seq, join_chars, join_seq, trim, trim_chars};
use crate::treebank::{paragraphs, sent_tokenize_placeholder};
use crate::util::{gap_spans, gap_spans_of};

verus! {

/// `char::to_ascii_lowercase`.
pub open spec fn ascii_lower(c: char) -> char {
    if 'A' <= c && c <= 'Z' {
        ((c as u32) + 32) as char
    } else {
        c
    }
}

/// `char::to_ascii_uppercase`.
pub open spec fn ascii_upper(c: char) -> char {
    if 'a' <= c && c <= 'z' {
        ((c as u32) - 32) as char
    } else {
        c
    }
}

fn to_ascii_lower(c: char) -> (r: char)
    ensures
        r == ascii_lower(c),
{
    if 'A' <= c && c <= 'Z' {
        match char_from_u32((c as u32) + 32) {
            Some(l) => l,
            None => c,
        }
    } else {
        c
    }
}

fn to_ascii_upper(c: char) -> (r: char)
    ensures
        r == ascii_upper(c),
{
    if 'a' <= c && c <= 'z' {
        match char_from_u32((c as u32) - 32) {
            Some(u) => u,
            None => c,
        }
    } else {
        c
    }
}

/// No character of `w` is alphabetic.
pub open spec fn no_letters(w: Seq<char>) -> bool {
    forall|i: int| 0 <= i < w.len() ==> !alphabetic(#[trigger] w[i])
}

fn has_no_letters(w: &Vec<char>) -> (b: bool)
    ensures
        b == no_letters(w@),
{
    for i in 0..w.len()
        invariant
            forall|j: int| 0 <= j < i ==> !alphabetic(#[trigger] w@[j]),
    {
        if is_alphabetic(w[i]) {
            return false;
        }
    }
    true
}

/// The pieces of `w` between consecutive offsets of `bounds`.
pub open spec fn pieces(w: Seq<char>, bounds: Seq<int>) -> Seq<Seq<char>>
    decreases bounds.len(),
{
    if bounds.len() < 2 {
        seq![]
    } else {
        pieces(w, bounds.drop_last()) + seq![w.subrange(bounds[bounds.len() - 2], bounds.last())]
    }
}

/// Joining the pieces between non-decreasing offsets gives back the text between
/// the first and the last offset.
pub proof fn lemma_pieces_concat(w: Seq<char>, bounds: Seq<int>)
    requires
        bounds.len() >= 1,
        forall|i: int, j: int| 0 <= i <= j < bounds.len() ==> 0 <= #[trigger] bounds[i] <= #[trigger] bounds[j] <= w.len(),
    ensures
        pieces(w, bounds).flatten() == w.subrange(bounds[0], bounds.last()),
    decreases bounds.len(),
{
    if bounds.len() == 1 {
        assert(pieces(w, bounds) =~= Seq::<Seq<char>>::empty());
        assert(w.subrange(bounds[0], bounds[0]) =~= Seq::<char>::empty());
    } else {
        let b = bounds.drop_last();
        lemma_pieces_concat(w, b);
        let x = w.subrange(bounds[bounds.len() - 2], bounds.last());
        assert(pieces(w, bounds) == pieces(w, b).push(x));
        pieces(w, b).lemma_flatten_push(x);
        assert(w.subrange(bounds[0], bounds[bounds.len() - 2]) + x =~= w.subrange(
            bounds[0],
            bounds.last(),
        ));
    }
}

// ---------------------------------------------------------------------------
// The legality principle
// ---------------------------------------------------------------------------
/// A character that ends an onset: a vowel, or an uppercase ASCII vowel.
pub open spec fn ends_onset(vowels: Seq<char>, c: char) -> bool {
    vowels.contains(c) || vowels.contains(ascii_lower(c))
}

/// The characters of `w` before the first one that ends an onset.
pub open spec fn onset_prefix(vowels: Seq<char>, w: Seq<char>) -> Seq<char>
    decreases w.len(),
{
    if w.len() == 0 || ends_onset(vowels, w[0]) {
        seq![]
    } else {
        seq![w[0]] + onset_prefix(vowels, w.drop_first())
    }
}

/// The onset of `w`, lowercased.
pub open spec fn onset_of(vowels: Seq<char>, w: Seq<char>) -> Seq<char> {
    lowercase(onset_prefix(vowels, w))
}

/// How many items of `v` equal `x`.
pub open spec fn count_eq(v: Seq<Seq<char>>, x: Seq<char>) -> nat
    decreases v.len(),
{
    if v.len() == 0 {
        0
    } else {
        count_eq(v.drop_last(), x) + if v.last() == x {
            1nat
        } else {
            0nat
        }
    }
}

/// How many items of `v` are not empty.
pub open spec fn count_nonempty(v: Seq<Seq<char>>) -> nat
    decreases v.len(),
{
    if v.len() == 0 {
        0
    } else {
        count_nonempty(v.drop_last()) + if v.last().len() > 0 {
            1nat
        } else {
            0nat
        }
    }
}

/// The onsets of the words.
pub open spec fn onsets_of(vowels: Seq<char>, words: Seq<Seq<char>>) -> Seq<Seq<char>> {
    words.map_values(|w: Seq<char>| onset_of(vowels, w))
}

/// A legal onset: a non-empty onset of at least one in a thousand of the words
/// that have a non-empty onset.
pub open spec fn legal_onset(vowels: Seq<char>, words: Seq<Seq<char>>, x: Seq<char>) -> bool {
    let ons = onsets_of(vowels, words);
    let total = if count_nonempty(ons) == 0 {
        1
    } else {
        count_nonempty(ons)
    };
    x.len() > 0 && 1000 * count_eq(ons, x) >= total
}

/// A vowel, compared in ASCII lowercase.
pub open spec fn is_vowel(vowels: Seq<char>, c: char) -> bool {
    vowels.contains(ascii_lower(c))
}

/// The positions of the vowels among the first `n` characters of `w`.
pub open spec fn vowels_upto(vowels: Seq<char>, w: Seq<char>, n: int) -> Seq<int>
    decreases n,
{
    if n <= 0 {
        seq![]
    } else if is_vowel(vowels, w[n - 1]) {
        vowels_upto(vowels, w, n - 1).push(n - 1)
    } else {
        vowels_upto(vowels, w, n - 1)
    }
}

/// The longest suffix (at most `k` long) of `cluster` whose lowercase form is a
/// legal onset (or empty).
pub open spec fn best_suffix(legal: Seq<Seq<char>>, cluster: Seq<char>, k: int) -> int
    decreases k,
{
    if k <= 0 {
        0
    } else {
        let cand = lowercase(cluster.subrange(cluster.len() - k, cluster.len() as int));
        if cand.len() == 0 || legal.contains(cand) {
            k
        } else {
            best_suffix(legal, cluster, k - 1)
        }
    }
}

/// How many consonants of the cluster between two vowels open the next
/// syllable: the longest legal onset, or half the cluster when none is legal.
pub open spec fn onset_len(legal: Seq<Seq<char>>, cluster: Seq<char>) -> int {
    let b = best_suffix(legal, cluster, cluster.len() as int);
    if b == 0 && cluster.len() > 0 {
        (cluster.len() / 2) as int
    } else {
        b
    }
}

/// The syllable boundaries: 0, then for each pair of consecutive vowels the
/// start of the onset before the second, then the length of the word.
pub open spec fn legality_bounds(legal: Seq<Seq<char>>, w: Seq<char>, vp: Seq<int>, t: int) -> Seq<
    int,
>
    decreases t,
{
    if t <= 0 {
        seq![0]
    } else {
        legality_bounds(legal, w, vp, t - 1).push(
            vp[t] - onset_len(legal, w.subrange(vp[t - 1] + 1, vp[t])),
        )
    }
}

/// The syllables of a word by the legality principle.
pub open spec fn legality_syllables(vowels: Seq<char>, legal: Seq<Seq<char>>, w: Seq<char>) -> Seq<
    Seq<char>,
> {
    let vp = vowels_upto(vowels, w, w.len() as int);
    if w.len() == 0 {
        seq![]
    } else if no_letters(w) || vp.len() == 0 {
        seq![w]
    } else {
        pieces(w, legality_bounds(legal, w, vp, vp.len() - 1).push(w.len() as int))
    }
}

/// Splits words into syllables: each syllable takes the longest onset, among
/// those legal in the source words, that precedes its vowel.
pub struct LegalityPrincipleTokenizer {
    vowels: String,
    legal_onsets: Vec<String>,
}

proof fn lemma_count_eq_pos(v: Seq<Seq<char>>, x: Seq<char>)
    requires
        count_eq(v, x) > 0,
    ensures
        v.contains(x),
    decreases v.len(),
{
    if v.last() != x {
        lemma_count_eq_pos(v.drop_last(), x);
        assert(v.drop_last().contains(x));
        let k = choose|k: int| 0 <= k < v.drop_last().len() && v.drop_last()[k] == x;
        assert(v[k] == x);
    } else {
        assert(v[v.len() - 1] == x);
    }
}

/// The index of the first key equal to `x`.
fn find_key(keys: &Vec<Vec<char>>, x: &Vec<char>) -> (r: Option<usize>)
    ensures
        match r {
            Some(j) => j < keys.len() && keys@[j as int]@ == x@,
            None => forall|q: int| 0 <= q < keys.len() ==> keys@[q]@ != x@,
        },
{
    let mut j: usize = 0;
    while j < keys.len()
        invariant
            j <= keys.len(),
            forall|q: int| 0 <= q < j ==> keys@[q]@ != x@,
        decreases keys.len() - j,
    {
        if crate::text::chars_eq(&keys[j], x) {
            return Some(j);
        }
        j = j + 1;
    }
    None
}

/// The distinct non-empty items of `ov`, how often each occurs, and how many
/// items are not empty.
fn tally(ov: &Vec<Vec<char>>) -> (r: (Vec<Vec<char>>, Vec<usize>, usize))
    ensures
        r.0.len() == r.1.len(),
        r.2 == count_nonempty(char_views(ov@)),
        forall|q: int| 0 <= q < r.0.len() ==> #[trigger] r.1@[q] == count_eq(char_views(ov@), r.0@[q]@),
        forall|q: int| 0 <= q < r.0.len() ==> (#[trigger] r.0@[q]@).len() > 0,
        forall|k: int| 0 <= k < ov.len() && (#[trigger] char_views(ov@)[k]).len() > 0 ==> exists|q: int|
            0 <= q < r.0.len() && #[trigger] r.0@[q]@ == char_views(ov@)[k],
{
    let ghost cv = char_views(ov@);
    let n = ov.len();
    let mut keys: Vec<Vec<char>> = Vec::new();
    let mut counts: Vec<usize> = Vec::new();
    let mut total: usize = 0;
    for i in 0..n
        invariant
            n == ov.len(),
            cv == char_views(ov@),
            keys.len() == counts.len(),
            total == count_nonempty(cv.take(i as int)),
            total <= i,
            forall|q: int| 0 <= q < keys.len() ==> #[trigger] counts@[q] == count_eq(cv.take(i as int), keys@[q]@),
            forall|q: int| 0 <= q < keys.len() ==> #[trigger] counts@[q] <= i,
            forall|q: int| 0 <= q < keys.len() ==> (#[trigger] keys@[q]@).len() > 0,
            forall|q: int, p: int| 0 <= q < p < keys.len() ==> keys@[q]@ != keys@[p]@,
            forall|k: int| 0 <= k < i && (#[trigger] cv[k]).len() > 0 ==> exists|q: int|
                0 <= q < keys.len() && #[trigger] keys@[q]@ == cv[k],
    {
        let ghost pre = cv.take(i as int);
        let ghost post = cv.take(i + 1);
        let ghost x = cv[i as int];
        assert(post.drop_last() =~= pre);
        assert(post.last() == x);
        assert(x == ov@[i as int]@);
        let ghost keys0 = keys@;
        let ghost counts0 = counts@;
        let ghost mut wi: int = 0;
        if ov[i].len() > 0 {
            total = total + 1;
            match find_key(&keys, &ov[i]) {
                Some(j) => {
                    proof {
                        wi = j as int;
                    }
                    let c = counts[j];
                    counts.set(j, c + 1);
                    assert forall|q: int| 0 <= q < keys.len() implies #[trigger] counts@[q] == count_eq(post, keys@[q]@) by {
                        if q != j {
                            assert(keys@[q]@ != x);
                        }
                    }
                },
                None => {
                    assert(count_eq(pre, x) == 0) by {
                        if count_eq(pre, x) > 0 {
                            lemma_count_eq_pos(pre, x);
                            let k = choose|k: int| 0 <= k < pre.len() && pre[k] == x;
                            assert(cv[k] == x);
                            let q = choose|q: int| 0 <= q < keys0.len() && #[trigger] keys0[q]@ == cv[k];
                        }
                    }
                    keys.push(copy_chars(&ov[i]));
                    counts.push(1);
                    proof {
                        wi = keys0.len() as int;
                    }
                    assert forall|q: int| 0 <= q < keys.len() implies #[trigger] counts@[q] == count_eq(post, keys@[q]@) by {
                        if q < keys0.len() {
                            assert(keys@[q] == keys0[q]);
                            assert(counts@[q] == counts0[q]);
                        }
                    }
                },
            }
        } else {
            assert forall|q: int| 0 <= q < keys.len() implies #[trigger] counts@[q] == count_eq(post, keys@[q]@) by {
                assert(keys@[q]@ != x);
            }
        }
        assert forall|k: int| 0 <= k < i + 1 && (#[trigger] cv[k]).len() > 0 implies exists|q: int|
            0 <= q < keys.len() && #[trigger] keys@[q]@ == cv[k] by {
            if k < i {
                let q = choose|q: int| 0 <= q < keys0.len() && #[trigger] keys0[q]@ == cv[k];
                assert(keys@[q] == keys0[q]);
            } else {
                assert(keys@[wi]@ == cv[k]);
            }
        }
    }
    assert(cv.take(n as int) =~= cv);
    let r = (keys, counts, total);
    assert forall|k: int| 0 <= k < ov.len() && (#[trigger] char_views(ov@)[k]).len() > 0 implies exists|q: int|
        0 <= q < r.0.len() && #[trigger] r.0@[q]@ == char_views(ov@)[k] by {
        assert(cv[k] == char_views(ov@)[k]);
        let q = choose|q: int| 0 <= q < r.0.len() && #[trigger] r.0@[q]@ == cv[k];
    }
    r
}

impl LegalityPrincipleTokenizer {
    /// The vowels.
    pub closed spec fn vowel_set(&self) -> Seq<char> {
        self.vowels@
    }

    /// The legal onsets.
    pub closed spec fn legal(&self) -> Seq<Seq<char>> {
        str_views(self.legal_onsets@)
    }

    /// The syllables of `w`.
    pub open spec fn syllables(&self, w: Seq<char>) -> Seq<Seq<char>> {
        legality_syllables(self.vowel_set(), self.legal(), w)
    }

    /// A tokenizer whose legal onsets are those of `source_words`.
    pub fn new(source_words: Vec<String>, vowels: &str) -> (r: Self)
        ensures
            r.vowel_set() == vowels@,
            forall|x: Seq<char>| #[trigger] r.legal().contains(x) <==> legal_onset(vowels@, str_views(source_words@), x),
    {
        let mut tok = LegalityPrincipleTokenizer { vowels: vowels.to_owned(), legal_onsets: Vec::new() };
        tok.legal_onsets = tok.find_legal_onsets(source_words.as_slice());
        tok
    }

    /// The legal onsets of `words` (see `legal_onset`), each once.
    pub fn find_legal_onsets(&self, words: &[String]) -> (r: Vec<String>)
        ensures
            forall|x: Seq<char>| #[trigger] str_views(r@).contains(x) <==> legal_onset(self.vowel_set(), str_views(words@), x),
    {
        let ghost wv = str_views(words@);
        let ghost ons = onsets_of(self.vowel_set(), wv);
        let n = words.len();
        let mut ov: Vec<Vec<char>> = Vec::new();
        for i in 0..n
            invariant
                n == words.len(),
                wv == str_views(words@),
                ons == onsets_of(self.vowel_set(), wv),
                ov.len() == i,
                forall|j: int| 0 <= j < i ==> #[trigger] ov@[j]@ == ons[j],
        {
            let o = self.onset(words[i].as_str());
            ov.push(chars_of(o.as_str()));
        }
        assert(char_views(ov@) =~= ons);
        let (keys, counts, total) = tally(&ov);
        let denom: usize = if total == 0 { 1 } else { total };
        let mut out: Vec<String> = Vec::new();
        for j in 0..keys.len()
            invariant
                keys.len() == counts.len(),
                ons.len() == n,
                denom == (if count_nonempty(ons) == 0 { 1 } else { count_nonempty(ons) }),
                forall|q: int| 0 <= q < keys.len() ==> #[trigger] counts@[q] == count_eq(ons, keys@[q]@),
                forall|q: int| 0 <= q < keys.len() ==> (#[trigger] keys@[q]@).len() > 0,
                forall|x: Seq<char>| #[trigger] str_views(out@).contains(x) <==> exists|q: int|
                    0 <= q < j && #[trigger] keys@[q]@ == x && legal_onset(self.vowel_set(), wv, x),
                ons == onsets_of(self.vowel_set(), wv),
        {
            let ghost before = str_views(out@);
            let keep = (counts[j] as u128) * 1000 >= (denom as u128);
            assert(keep == legal_onset(self.vowel_set(), wv, keys@[j as int]@));
            if keep {
                out.push(string_of(keys[j].as_slice()));
                assert(str_views(out@) =~= before.push(keys@[j as int]@));
            } else {
                assert(str_views(out@) =~= before);
            }
            assert forall|x: Seq<char>| #[trigger] str_views(out@).contains(x) implies exists|q: int|
                0 <= q < j + 1 && #[trigger] keys@[q]@ == x && legal_onset(self.vowel_set(), wv, x) by {
                let k = choose|k: int| 0 <= k < str_views(out@).len() && str_views(out@)[k] == x;
                if k < before.len() {
                    assert(before[k] == x);
                    assert(before.contains(x));
                } else {
                    assert(keys@[j as int]@ == x);
                }
            }
            assert forall|x: Seq<char>| (exists|q: int|
                0 <= q < j + 1 && #[trigger] keys@[q]@ == x && legal_onset(self.vowel_set(), wv, x)) implies #[trigger] str_views(out@).contains(x) by {
                let q = choose|q: int| 0 <= q < j + 1 && #[trigger] keys@[q]@ == x && legal_onset(self.vowel_set(), wv, x);
                if q < j {
                    assert(before.contains(x));
                    let k = choose|k: int| 0 <= k < before.len() && before[k] == x;
                    assert(str_views(out@)[k] == x);
                } else {
                    assert(str_views(out@)[before.len() as int] == x);
                }
            }
        }
        assert forall|x: Seq<char>| #[trigger] str_views(out@).contains(x) <==> legal_onset(self.vowel_set(), wv, x) by {
            if legal_onset(self.vowel_set(), wv, x) {
                lemma_count_eq_pos(ons, x);
                let k = choose|k: int| 0 <= k < ons.len() && ons[k] == x;
                assert(ons.take(ons.len() as int) =~= ons);
                let q = choose|q: int| 0 <= q < keys.len() && #[trigger] keys@[q]@ == ons[k];
                assert(keys@[q]@ == x);
            }
        }
        out
    }

    /// The onset of `word`: its characters before the first vowel (compared as
    /// is and in ASCII lowercase), lowercased.
    pub fn onset(&self, word: &str) -> (r: String)
        ensures
            r@ == onset_of(self.vowel_set(), word@),
    {
        let v = chars_of(self.vowels.as_str());
        let w = chars_of(word);
        let mut k: usize = 0;
        assert(w@.skip(0) =~= w@);
        assert(w@.subrange(0, 0) + onset_prefix(v@, w@) =~= onset_prefix(v@, w@));
        while k < w.len() && !(contains_char(&v, w[k]) || contains_char(&v, to_ascii_lower(w[k])))
            invariant
                v@ == self.vowel_set(),
                k <= w.len(),
                onset_prefix(v@, w@) == w@.subrange(0, k as int) + onset_prefix(v@, w@.skip(k as int)),
            decreases w.len() - k,
        {
            assert(w@.skip(k as int).drop_first() =~= w@.skip(k + 1));
            assert(w@.subrange(0, k + 1) =~= w@.subrange(0, k as int) + seq![w@[k as int]]);
            k = k + 1;
        }
        assert(onset_prefix(v@, w@.skip(k as int)) =~= Seq::<char>::empty()) by {
            if k < w.len() {
                assert(w@.skip(k as int)[0] == w@[k as int]);
            }
        }
        let pre = slice_chars(&w, 0, k);
        assert(pre@ =~= onset_prefix(v@, w@));
        to_lowercase(string_of(pre.as_slice()).as_str())
    }

    fn legal_contains(&self, cand: &Vec<char>) -> (b: bool)
        ensures
            b == self.legal().contains(cand@),
    {
        let ghost lv = self.legal();
        for q in 0..self.legal_onsets.len()
            invariant
                lv == self.legal(),
                forall|x: int| 0 <= x < q ==> lv[x] != cand@,
        {
            let o = chars_of(self.legal_onsets[q].as_str());
            if crate::text::chars_eq(&o, cand) {
                assert(lv[q as int] == cand@);
                return true;
            }
        }
        false
    }

    fn onset_len_exec(&self, cluster: &Vec<char>) -> (r: usize)
        ensures
            r == onset_len(self.legal(), cluster@),
    {
        let n = cluster.len();
        let mut k: usize = n;
        let mut best: usize = 0;
        let mut done = false;
        while !done && k > 0
            invariant
                k <= n,
                n == cluster.len(),
                !done ==> best_suffix(self.legal(), cluster@, n as int) == best_suffix(self.legal(), cluster@, k as int),
                done ==> best_suffix(self.legal(), cluster@, n as int) == best as int,
            decreases k, (if done { 0int } else { 1int }),
        {
            let tail = slice_chars(cluster, n - k, n);
            let cand = to_lowercase(string_of(tail.as_slice()).as_str());
            let cv = chars_of(cand.as_str());
            if cv.len() == 0 || self.legal_contains(&cv) {
                best = k;
                done = true;
            } else {
                k = k - 1;
            }
        }
        if !done {
            best = 0;
        }
        if best == 0 && n > 0 {
            n / 2
        } else {
            best
        }
    }

    /// The syllables of `word` (see `legality_syllables`).
    pub fn tokenize_word(&self, word: &str) -> (r: Vec<String>)
        ensures
            str_views(r@) == self.syllables(word@),
    {
        let w = chars_of(word);
        let n = w.len();
        let vw = chars_of(self.vowels.as_str());
        if n == 0 {
            let r: Vec<String> = Vec::new();
            assert(str_views(r@) =~= Seq::<Seq<char>>::empty());
            return r;
        }
        let ghost vp = vowels_upto(vw@, w@, n as int);
        let mut vpos: Vec<usize> = Vec::new();
        for i in 0..n
            invariant
                n == w.len(),
                vw@ == self.vowel_set(),
                vpos@.map_values(|x: usize| x as int) == vowels_upto(vw@, w@, i as int),
                forall|j: int| 0 <= j < vpos.len() ==> #[trigger] vpos@[j] < i,
                forall|j: int, k: int| 0 <= j < k < vpos.len() ==> vpos@[j] < vpos@[k],
        {
            let ghost before = vpos@;
            if contains_char(&vw, to_ascii_lower(w[i])) {
                vpos.push(i);
                assert(vpos@.map_values(|x: usize| x as int) =~= before.map_values(|x: usize| x as int).push(i as int));
            }
        }
        if has_no_letters(&w) || vpos.len() == 0 {
            let mut r: Vec<String> = Vec::new();
            r.push(word.to_owned());
            assert(str_views(r@) =~= seq![word@]);
            return r;
        }
        let m = vpos.len();
        assert(vp =~= vpos@.map_values(|x: usize| x as int));
        let mut out: Vec<Vec<char>> = Vec::new();
        let mut start: usize = 0;
        let mut t: usize = 0;
        let ghost lg = self.legal();
        assert(pieces(w@, legality_bounds(lg, w@, vp, 0)) =~= Seq::<Seq<char>>::empty());
        while t + 1 < m
            invariant
                n == w.len(),
                m == vpos.len(),
                m >= 1,
                t < m,
                vp == vpos@.map_values(|x: usize| x as int),
                forall|j: int| 0 <= j < vpos.len() ==> #[trigger] vpos@[j] < n,
                forall|j: int, k: int| 0 <= j < k < vpos.len() ==> vpos@[j] < vpos@[k],
                lg == self.legal(),
                start as int == legality_bounds(lg, w@, vp, t as int).last(),
                start <= vpos@[t as int],
                char_views(out@) == pieces(w@, legality_bounds(lg, w@, vp, t as int)),
            decreases m - t,
        {
            let a = vpos[t];
            let b = vpos[t + 1];
            let cluster = slice_chars(&w, a + 1, b);
            let ol = self.onset_len_exec(&cluster);
            assert(ol <= cluster.len()) by {
                lemma_best_suffix_le(lg, cluster@, cluster@.len() as int);
            }
            let end = b - ol;
            let ghost bounds = legality_bounds(lg, w@, vp, t as int);
            assert(legality_bounds(lg, w@, vp, t + 1) == bounds.push(end as int));
            let ghost before = char_views(out@);
            out.push(slice_chars(&w, start, end));
            assert(char_views(out@) =~= before + seq![w@.subrange(start as int, end as int)]);
            assert(bounds.push(end as int).drop_last() =~= bounds);
            start = end;
            t = t + 1;
        }
        let ghost bounds = legality_bounds(lg, w@, vp, t as int);
        let ghost before = char_views(out@);
        out.push(slice_chars(&w, start, n));
        assert(bounds.push(n as int).drop_last() =~= bounds);
        assert(char_views(out@) =~= pieces(w@, bounds.push(n as int)));
        strings_of(&out)
    }
}

impl LegalityPrincipleTokenizer {
    /// The syllables of each of `words`, in order.
    pub open spec fn syllables_of_words(&self, words: Seq<Seq<char>>) -> Seq<Seq<char>>
        decreases words.len(),
    {
        if words.len() == 0 {
            seq![]
        } else {
            self.syllables_of_words(words.drop_last()) + self.syllables(words.last())
        }
    }
}

impl TokenizerI for LegalityPrincipleTokenizer {
    open spec fn accepts(&self, s: Seq<char>) -> bool {
        true
    }

    open spec fn tokens_of(&self, s: Seq<char>) -> Seq<Seq<char>> {
        self.syllables_of_words(split_ws(s))
    }

    open spec fn spans_ok(&self, s: Seq<char>) -> bool {
        true
    }

    open spec fn spans_of(&self, s: Seq<char>) -> Seq<(int, int)> {
        gap_spans(RE_WS@, s)
    }

    fn tokenize(&self, s: &str) -> (r: Vec<String>) {
        let v = chars_of(s);
        let words = split_ws_chars(&v);
        let ghost wv = char_views(words@);
        let mut out: Vec<String> = Vec::new();
        for i in 0..words.len()
            invariant
                wv == char_views(words@),
                wv == split_ws(s@),
                str_views(out@) == self.syllables_of_words(wv.take(i as int)),
        {
            assert(wv.take(i + 1).drop_last() =~= wv.take(i as int));
            let word = string_of(words[i].as_slice());
            let syl = self.tokenize_word(word.as_str());
            let ghost before = str_views(out@);
            let mut k: usize = 0;
            while k < syl.len()
                invariant
                    k <= syl.len(),
                    str_views(out@) == before + str_views(syl@).take(k as int),
                decreases syl.len() - k,
            {
                let ghost o = str_views(out@);
                out.push(syl[k].clone());
                assert(str_views(out@) =~= o.push(syl@[k as int]@));
                assert(str_views(syl@).take(k + 1) =~= str_views(syl@).take(k as int).push(syl@[k as int]@));
                assert(str_views(out@) =~= before + str_views(syl@).take(k + 1));
                k = k + 1;
            }
            assert(str_views(syl@).take(syl.len() as int) =~= str_views(syl@));
        }
        assert(wv.take(words.len() as int) =~= wv);
        out
    }

    fn span_tokenize(&self, s: &str) -> (r: Vec<(usize, usize)>) {
        gap_spans_of(RE_WS, s)
    }
}

/// The whitespace between words.
pub const RE_WS: &'static str = r"\s+";

/// The positions that `vowels_upto` lists are increasing and inside the word.
proof fn lemma_vowels_upto(vowels: Seq<char>, w: Seq<char>, n: int)
    requires
        0 <= n <= w.len(),
    ensures
        forall|i: int| 0 <= i < vowels_upto(vowels, w, n).len() ==> 0 <= #[trigger] vowels_upto(vowels, w, n)[i] < n,
        forall|i: int, j: int| 0 <= i < j < vowels_upto(vowels, w, n).len() ==> vowels_upto(vowels, w, n)[i] < vowels_upto(vowels, w, n)[j],
    decreases n,
{
    if n > 0 {
        lemma_vowels_upto(vowels, w, n - 1);
        let prev = vowels_upto(vowels, w, n - 1);
        let cur = vowels_upto(vowels, w, n);
        if is_vowel(vowels, w[n - 1]) {
            assert(cur == prev.push(n - 1));
            assert forall|i: int| 0 <= i < cur.len() implies 0 <= #[trigger] cur[i] < n by {
                if i < prev.len() {
                    assert(cur[i] == prev[i]);
                }
            }
            assert forall|i: int, j: int| 0 <= i < j < cur.len() implies cur[i] < cur[j] by {
                assert(cur[i] == prev[i]);
                if j < prev.len() {
                    assert(cur[j] == prev[j]);
                }
            }
        }
    }
}

/// The boundaries between syllables grow: each lies after the vowel before it
/// and at or before its own vowel.
proof fn lemma_legality_bounds(legal: Seq<Seq<char>>, w: Seq<char>, vp: Seq<int>, t: int)
    requires
        0 <= t < vp.len(),
        forall|i: int| 0 <= i < vp.len() ==> 0 <= #[trigger] vp[i] < w.len(),
        forall|i: int, j: int| 0 <= i < j < vp.len() ==> vp[i] < vp[j],
    ensures
        legality_bounds(legal, w, vp, t).len() == t + 1,
        legality_bounds(legal, w, vp, t)[0] == 0,
        forall|i: int| 0 <= i <= t ==> #[trigger] legality_bounds(legal, w, vp, t)[i] <= vp[i],
        forall|i: int| 1 <= i <= t ==> #[trigger] legality_bounds(legal, w, vp, t)[i] > vp[i - 1],
    decreases t,
{
    if t > 0 {
        lemma_legality_bounds(legal, w, vp, t - 1);
        let cl = w.subrange(vp[t - 1] + 1, vp[t]);
        lemma_best_suffix_le(legal, cl, cl.len() as int);
        let bt = legality_bounds(legal, w, vp, t);
        let bp = legality_bounds(legal, w, vp, t - 1);
        assert forall|i: int| 0 <= i <= t implies #[trigger] bt[i] <= vp[i] by {
            if i < t {
                assert(bt[i] == bp[i]);
            }
        }
        assert forall|i: int| 1 <= i <= t implies #[trigger] bt[i] > vp[i - 1] by {
            if i < t {
                assert(bt[i] == bp[i]);
            }
        }
    }
}

/// The syllables of a word, joined, give back the word.
pub proof fn lemma_legality_syllables_concat(vowels: Seq<char>, legal: Seq<Seq<char>>, w: Seq<char>)
    ensures
        legality_syllables(vowels, legal, w).flatten() == w,
{
    let vp = vowels_upto(vowels, w, w.len() as int);
    if w.len() == 0 {
        assert(legality_syllables(vowels, legal, w) =~= Seq::<Seq<char>>::empty());
    } else if no_letters(w) || vp.len() == 0 {
        assert(seq![w].drop_first() =~= Seq::<Seq<char>>::empty());
        assert(seq![w].flatten() == w + seq![w].drop_first().flatten());
        assert(w + Seq::<char>::empty() =~= w);
    } else {
        lemma_vowels_upto(vowels, w, w.len() as int);
        let t = vp.len() - 1;
        lemma_legality_bounds(legal, w, vp, t);
        let b = legality_bounds(legal, w, vp, t);
        let bounds = b.push(w.len() as int);
        assert forall|i: int, j: int| 0 <= i <= j < bounds.len() implies 0 <= #[trigger] bounds[i] <= #[trigger] bounds[j] <= w.len() by {
            if j < bounds.len() - 1 {
                assert(bounds[j] == b[j]);
                assert(bounds[i] == b[i]);
                if i < j {
                    lemma_bounds_increase(b, vp, i, j);
                }
                if j >= 1 {
                    assert(b[j] > vp[j - 1]);
                }
            } else if i < j {
                assert(bounds[i] == b[i]);
                assert(b[i] <= vp[i]);
            }
        }
        lemma_pieces_concat(w, bounds);
        assert(w.subrange(0, w.len() as int) =~= w);
    }
}

proof fn lemma_bounds_increase(b: Seq<int>, vp: Seq<int>, i: int, j: int)
    requires
        0 <= i < j < b.len(),
        b.len() <= vp.len(),
        forall|x: int| 0 <= x < b.len() ==> #[trigger] b[x] <= vp[x],
        forall|x: int| 1 <= x < b.len() ==> #[trigger] b[x] > vp[x - 1],
        forall|x: int, y: int| 0 <= x < y < vp.len() ==> vp[x] < vp[y],
    ensures
        b[i] <= b[j],
{
    assert(b[i] <= vp[i]);
    assert(b[j] > vp[j - 1]);
    if i < j - 1 {
        assert(vp[i] < vp[j - 1]);
    }
}

proof fn lemma_best_suffix_le(legal: Seq<Seq<char>>, cluster: Seq<char>, k: int)
    requires
        k <= cluster.len(),
    ensures
        0 <= best_suffix(legal, cluster, k) <= cluster.len(),
        k >= 0 ==> best_suffix(legal, cluster, k) <= k,
    decreases k,
{
    if k > 0 {
        lemma_best_suffix_le(legal, cluster, k - 1);
    }
}

impl Default for LegalityPrincipleTokenizer {
    fn default() -> (r: Self)
        ensures
            r.vowel_set() == "aeiouy"@,
            forall|x: Seq<char>| #[trigger] r.legal().contains(x) <==> legal_onset("aeiouy"@, seq![], x),
    {
        let words: Vec<String> = Vec::new();
        assert(str_views(words@) =~= Seq::<Seq<char>>::empty());
        Self::new(words, "aeiouy")
    }
}


// ---------------------------------------------------------------------------
// Sonority sequencing
// ---------------------------------------------------------------------------
/// A level of the hierarchy holds `c`, as written or as the ASCII uppercase of
/// one of its characters.
pub open spec fn level_has(level: Seq<char>, c: char) -> bool {
    level.contains(c) || exists|i: int| 0 <= i < level.len() && #[trigger] ascii_upper(level[i]) == c
}

/// The last of the first `n` levels that holds `c`.
pub open spec fn rank_upto(h: Seq<Seq<char>>, n: int, c: char) -> Option<int>
    decreases n,
{
    if n <= 0 {
        None
    } else if level_has(h[n - 1], c) {
        Some(n - 1)
    } else {
        rank_upto(h, n - 1, c)
    }
}

/// The sonority of `c`: minus its level, or -10 for a character of no level.
pub open spec fn sonority_of(h: Seq<Seq<char>>, c: char) -> int {
    match rank_upto(h, h.len() as int, c) {
        Some(r) => -r,
        None => -10,
    }
}

/// The vowels: the first level of the hierarchy.
pub open spec fn ssp_vowels(h: Seq<Seq<char>>) -> Seq<char> {
    if h.len() > 0 {
        h[0]
    } else {
        seq![]
    }
}

/// A syllable begins at `i`: the sonority there is lower than before it and no
/// higher than after it, and the character is not a vowel.
pub open spec fn ssp_break(h: Seq<Seq<char>>, w: Seq<char>, i: int) -> bool {
    &&& 1 <= i < w.len() - 1
    &&& sonority_of(h, w[i]) < sonority_of(h, w[i - 1])
    &&& sonority_of(h, w[i]) <= sonority_of(h, w[i + 1])
    &&& !ssp_vowels(h).contains(ascii_lower(w[i]))
}

/// The syllables of `w` from `start` on, the breaks searched for from `i`.
pub open spec fn ssp_pieces(h: Seq<Seq<char>>, w: Seq<char>, start: int, i: int) -> Seq<Seq<char>>
    decreases w.len() - i,
{
    if i >= w.len() - 1 {
        seq![w.subrange(start, w.len() as int)]
    } else if ssp_break(h, w, i) {
        seq![w.subrange(start, i)] + ssp_pieces(h, w, i, i + 1)
    } else {
        ssp_pieces(h, w, start, i + 1)
    }
}

/// The syllables of a word by sonority sequencing: words of at most three
/// characters, or without letters, stay whole.
pub open spec fn sonority_syllables(h: Seq<Seq<char>>, w: Seq<char>) -> Seq<Seq<char>> {
    if w.len() == 0 {
        seq![]
    } else if no_letters(w) || w.len() <= 3 {
        seq![w]
    } else {
        ssp_pieces(h, w, 0, 1)
    }
}

/// Splits words into syllables before each sonority trough, by a hierarchy of
/// character levels from most to least sonorous.
pub struct SonoritySequencingTokenizer {
    hierarchy: Vec<String>,
    vowels: String,
}

impl SonoritySequencingTokenizer {
    #[verifier::type_invariant]
    closed spec fn small_hierarchy(&self) -> bool {
        &&& self.hierarchy.len() <= i32::MAX
        &&& self.vowels@ == ssp_vowels(str_views(self.hierarchy@))
    }

    /// The levels, most sonorous first.
    pub closed spec fn levels(&self) -> Seq<Seq<char>> {
        str_views(self.hierarchy@)
    }

    /// The syllables of `w`.
    pub open spec fn syllables(&self, w: Seq<char>) -> Seq<Seq<char>> {
        sonority_syllables(self.levels(), w)
    }

    /// The syllables of each of `words`, in order.
    pub open spec fn syllables_of_words(&self, words: Seq<Seq<char>>) -> Seq<Seq<char>>
        decreases words.len(),
    {
        if words.len() == 0 {
            seq![]
        } else {
            self.syllables_of_words(words.drop_last()) + self.syllables(words.last())
        }
    }

    /// The hierarchy vowels, `lmnrw`, `zvsf`, `bcdgtkpqxhj`.
    pub fn new() -> (r: Self)
        ensures
            r.levels() == seq!["aeiouy"@, "lmnrw"@, "zvsf"@, "bcdgtkpqxhj"@],
    {
        let mut h: Vec<String> = Vec::new();
        h.push("aeiouy".to_owned());
        h.push("lmnrw".to_owned());
        h.push("zvsf".to_owned());
        h.push("bcdgtkpqxhj".to_owned());
        assert(str_views(h@) =~= seq!["aeiouy"@, "lmnrw"@, "zvsf"@, "bcdgtkpqxhj"@]);
        Self::with_hierarchy(h)
    }

    /// A tokenizer for the levels of `hierarchy`, most sonorous first; the first
    /// level holds the vowels.
    pub fn with_hierarchy(hierarchy: Vec<String>) -> (r: Self)
        requires
            hierarchy@.len() <= i32::MAX,
        ensures
            r.levels() == str_views(hierarchy@),
    {
        let vowels = if hierarchy.len() > 0 {
            hierarchy[0].clone()
        } else {
            String::new()
        };
        assert(vowels@ == ssp_vowels(str_views(hierarchy@)));
        SonoritySequencingTokenizer { hierarchy, vowels }
    }

    /// The sonority of `c` (see `sonority_of`).
    pub fn sonority(&self, c: char) -> (r: i32)
        ensures
            r as int == sonority_of(self.levels(), c),
    {
        proof {
            use_type_invariant(self);
        }
        let ghost h = self.levels();
        let mut n = self.hierarchy.len();
        while n > 0
            invariant
                h == self.levels(),
                n <= self.hierarchy.len(),
                self.hierarchy.len() <= i32::MAX,
                rank_upto(h, h.len() as int, c) == rank_upto(h, n as int, c),
            decreases n,
        {
            let level = chars_of(self.hierarchy[n - 1].as_str());
            if level_has_exec(&level, c) {
                let r = (n - 1) as i32;
                return -r;
            }
            n = n - 1;
        }
        -10
    }

    fn son_all(&self, w: &Vec<char>) -> (r: Vec<i32>)
        ensures
            r.len() == w.len(),
            forall|i: int| 0 <= i < w.len() ==> #[trigger] r@[i] as int == sonority_of(self.levels(), w@[i]),
    {
        let mut r: Vec<i32> = Vec::new();
        for i in 0..w.len()
            invariant
                r.len() == i,
                forall|j: int| 0 <= j < i ==> #[trigger] r@[j] as int == sonority_of(self.levels(), w@[j]),
        {
            r.push(self.sonority(w[i]));
        }
        r
    }

    /// The syllables of `word` (see `sonority_syllables`).
    pub fn tokenize_word(&self, word: &str) -> (r: Vec<String>)
        ensures
            str_views(r@) == self.syllables(word@),
    {
        proof {
            use_type_invariant(self);
        }
        let w = chars_of(word);
        let n = w.len();
        if n == 0 {
            let r: Vec<String> = Vec::new();
            assert(str_views(r@) =~= Seq::<Seq<char>>::empty());
            return r;
        }
        if has_no_letters(&w) || n <= 3 {
            let mut r: Vec<String> = Vec::new();
            r.push(word.to_owned());
            assert(str_views(r@) =~= seq![word@]);
            return r;
        }
        let son = self.son_all(&w);
        let vw = chars_of(self.vowels.as_str());
        let ghost h = self.levels();
        let mut out: Vec<Vec<char>> = Vec::new();
        let mut start: usize = 0;
        let mut i: usize = 1;
        while i < n - 1
            invariant
                n == w.len(),
                n > 3,
                son.len() == n,
                forall|j: int| 0 <= j < n ==> #[trigger] son@[j] as int == sonority_of(h, w@[j]),
                vw@ == ssp_vowels(h),
                h == self.levels(),
                1 <= i <= n - 1,
                start < i,
                char_views(out@) + ssp_pieces(h, w@, start as int, i as int) == ssp_pieces(h, w@, 0, 1),
            decreases n - i,
        {
            let brk = son[i] < son[i - 1] && son[i] <= son[i + 1] && !contains_char(&vw, to_ascii_lower(w[i]));
            assert(brk == ssp_break(h, w@, i as int));
            if brk {
                let ghost before = char_views(out@);
                out.push(slice_chars(&w, start, i));
                assert(char_views(out@) =~= before + seq![w@.subrange(start as int, i as int)]);
                start = i;
            }
            i = i + 1;
        }
        let ghost before = char_views(out@);
        out.push(slice_chars(&w, start, n));
        assert(char_views(out@) =~= before + seq![w@.subrange(start as int, n as int)]);
        strings_of(&out)
    }
}

fn level_has_exec(level: &Vec<char>, c: char) -> (b: bool)
    ensures
        b == level_has(level@, c),
{
    if contains_char(level, c) {
        return true;
    }
    for i in 0..level.len()
        invariant
            forall|j: int| 0 <= j < i ==> ascii_upper(#[trigger] level@[j]) != c,
    {
        if to_ascii_upper(level[i]) == c {
            assert(ascii_upper(level@[i as int]) == c);
            return true;
        }
    }
    false
}

impl Default for SonoritySequencingTokenizer {
    fn default() -> (r: Self)
        ensures
            r.levels() == seq!["aeiouy"@, "lmnrw"@, "zvsf"@, "bcdgtkpqxhj"@],
    {
        Self::new()
    }
}

impl TokenizerI for SonoritySequencingTokenizer {
    open spec fn accepts(&self, s: Seq<char>) -> bool {
        true
    }

    open spec fn tokens_of(&self, s: Seq<char>) -> Seq<Seq<char>> {
        self.syllables_of_words(split_ws(s))
    }

    open spec fn spans_ok(&self, s: Seq<char>) -> bool {
        true
    }

    open spec fn spans_of(&self, s: Seq<char>) -> Seq<(int, int)> {
        gap_spans(RE_WS@, s)
    }

    fn tokenize(&self, s: &str) -> (r: Vec<String>) {
        let v = chars_of(s);
        let words = split_ws_chars(&v);
        let ghost wv = char_views(words@);
        let mut out: Vec<String> = Vec::new();
        for i in 0..words.len()
            invariant
                wv == char_views(words@),
                wv == split_ws(s@),
                str_views(out@) == self.syllables_of_words(wv.take(i as int)),
        {
            assert(wv.take(i + 1).drop_last() =~= wv.take(i as int));
            let word = string_of(words[i].as_slice());
            let syl = self.tokenize_word(word.as_str());
            let ghost before = str_views(out@);
            let mut k: usize = 0;
            while k < syl.len()
                invariant
                    k <= syl.len(),
                    str_views(out@) == before + str_views(syl@).take(k as int),
                decreases syl.len() - k,
            {
                let ghost o = str_views(out@);
                out.push(syl[k].clone());
                assert(str_views(out@) =~= o.push(syl@[k as int]@));
                assert(str_views(syl@).take(k + 1) =~= str_views(syl@).take(k as int).push(syl@[k as int]@));
                assert(str_views(out@) =~= before + str_views(syl@).take(k + 1));
                k = k + 1;
            }
            assert(str_views(syl@).take(syl.len() as int) =~= str_views(syl@));
        }
        assert(wv.take(words.len() as int) =~= wv);
        out
    }

    fn span_tokenize(&self, s: &str) -> (r: Vec<(usize, usize)>) {
        gap_spans_of(RE_WS, s)
    }
}

/// The pieces of `ssp_pieces`, joined, give back the word from `start`.
proof fn lemma_ssp_pieces_concat(h: Seq<Seq<char>>, w: Seq<char>, start: int, i: int)
    requires
        0 <= start < i,
        start < w.len(),
    ensures
        ssp_pieces(h, w, start, i).flatten() == w.subrange(start, w.len() as int),
    decreases w.len() - i,
{
    if i >= w.len() - 1 {
        let x = w.subrange(start, w.len() as int);
        assert(seq![x].drop_first() =~= Seq::<Seq<char>>::empty());
        assert(seq![x].flatten() == x + seq![x].drop_first().flatten());
        assert(x + Seq::<char>::empty() =~= x);
    } else if ssp_break(h, w, i) {
        lemma_ssp_pieces_concat(h, w, i, i + 1);
        let x = w.subrange(start, i);
        let rest = ssp_pieces(h, w, i, i + 1);
        assert((seq![x] + rest).drop_first() =~= rest);
        assert((seq![x] + rest).flatten() == x + rest.flatten());
        assert(x + w.subrange(i, w.len() as int) =~= w.subrange(start, w.len() as int));
    } else {
        lemma_ssp_pieces_concat(h, w, start, i + 1);
    }
}

/// The syllables of a word, joined, give back the word.
pub proof fn lemma_sonority_syllables_concat(h: Seq<Seq<char>>, w: Seq<char>)
    ensures
        sonority_syllables(h, w).flatten() == w,
{
    if w.len() == 0 {
        assert(sonority_syllables(h, w) =~= Seq::<Seq<char>>::empty());
    } else if no_letters(w) || w.len() <= 3 {
        assert(seq![w].drop_first() =~= Seq::<Seq<char>>::empty());
        assert(seq![w].flatten() == w + seq![w].drop_first().flatten());
        assert(w + Seq::<char>::empty() =~= w);
    } else {
        lemma_ssp_pieces_concat(h, w, 0, 1);
        assert(w.subrange(0, w.len() as int) =~= w);
    }
}


proof fn lemma_pieces_nonempty(w: Seq<char>, bounds: Seq<int>)
    requires
        forall|i: int| 0 <= i < bounds.len() - 1 ==> #[trigger] bounds[i] < bounds[i + 1],
    ensures
        forall|k: int| 0 <= k < pieces(w, bounds).len() ==> #[trigger] pieces(w, bounds)[k].len() > 0
            || !(0 <= bounds[k] && bounds[k + 1] <= w.len()),
        pieces(w, bounds).len() == if bounds.len() < 2 {
            0
        } else {
            bounds.len() - 1
        },
        forall|k: int| 0 <= k < pieces(w, bounds).len() ==> #[trigger] pieces(w, bounds)[k] == w.subrange(
            bounds[k],
            bounds[k + 1],
        ),
    decreases bounds.len(),
{
    if bounds.len() >= 2 {
        let b = bounds.drop_last();
        lemma_pieces_nonempty(w, b);
        let p = pieces(w, bounds);
        let pb = pieces(w, b);
        assert(p == pb + seq![w.subrange(bounds[bounds.len() - 2], bounds.last())]);
        assert forall|k: int| 0 <= k < p.len() implies #[trigger] p[k] == w.subrange(bounds[k], bounds[k + 1]) by {
            if k < pb.len() {
                assert(p[k] == pb[k]);
                assert(b[k] == bounds[k]);
                assert(b[k + 1] == bounds[k + 1]);
            }
        }
    }
}

/// No syllable of the legality principle is empty.
pub proof fn lemma_legality_syllables_nonempty(vowels: Seq<char>, legal: Seq<Seq<char>>, w: Seq<char>)
    ensures
        forall|k: int|
            0 <= k < legality_syllables(vowels, legal, w).len() ==> #[trigger] legality_syllables(
                vowels,
                legal,
                w,
            )[k].len() > 0,
{
    let vp = vowels_upto(vowels, w, w.len() as int);
    if !(w.len() == 0 || no_letters(w) || vp.len() == 0) {
        lemma_vowels_upto(vowels, w, w.len() as int);
        let t = vp.len() - 1;
        lemma_legality_bounds(legal, w, vp, t);
        let b = legality_bounds(legal, w, vp, t);
        let bounds = b.push(w.len() as int);
        assert forall|i: int| 0 <= i < bounds.len() - 1 implies #[trigger] bounds[i] < bounds[i + 1] by {
            assert(bounds[i] == b[i]);
            assert(b[i] <= vp[i]);
            if i + 1 < bounds.len() - 1 {
                assert(bounds[i + 1] == b[i + 1]);
                assert(b[i + 1] > vp[i]);
            }
        }
        lemma_pieces_nonempty(w, bounds);
        assert forall|k: int| 0 <= k < pieces(w, bounds).len() implies #[trigger] pieces(w, bounds)[k].len() > 0 by {
            assert(bounds[k] == b[k]);
            assert(b[k] >= 0) by {
                if k == 0 {
                } else {
                    assert(b[k] > vp[k - 1]);
                }
            }
            if k + 1 < bounds.len() - 1 {
                assert(bounds[k + 1] == b[k + 1]);
                assert(b[k + 1] <= vp[k + 1]);
            }
        }
    }
}

proof fn lemma_ssp_pieces_nonempty(h: Seq<Seq<char>>, w: Seq<char>, start: int, i: int)
    requires
        0 <= start < i,
        start < w.len(),
    ensures
        forall|k: int| 0 <= k < ssp_pieces(h, w, start, i).len() ==> #[trigger] ssp_pieces(h, w, start, i)[k].len() > 0,
    decreases w.len() - i,
{
    if i >= w.len() - 1 {
        let x = w.subrange(start, w.len() as int);
        assert(ssp_pieces(h, w, start, i) == seq![x]);
        assert(x.len() > 0);
    } else if ssp_break(h, w, i) {
        lemma_ssp_pieces_nonempty(h, w, i, i + 1);
        let x = w.subrange(start, i);
        let rest = ssp_pieces(h, w, i, i + 1);
        assert(ssp_pieces(h, w, start, i) == seq![x] + rest);
        assert forall|k: int| 0 <= k < (seq![x] + rest).len() implies #[trigger] (seq![x] + rest)[k].len() > 0 by {
            if k > 0 {
                assert((seq![x] + rest)[k] == rest[k - 1]);
            }
        }
    } else {
        lemma_ssp_pieces_nonempty(h, w, start, i + 1);
        assert(ssp_pieces(h, w, start, i) == ssp_pieces(h, w, start, i + 1));
    }
}

/// No syllable of sonority sequencing is empty.
pub proof fn lemma_sonority_syllables_nonempty(h: Seq<Seq<char>>, w: Seq<char>)
    ensures
        forall|k: int|
            0 <= k < sonority_syllables(h, w).len() ==> #[trigger] sonority_syllables(h, w)[k].len() > 0,
{
    if !(w.len() == 0 || no_letters(w) || w.len() <= 3) {
        lemma_ssp_pieces_nonempty(h, w, 0, 1);
    }
}

// ---------------------------------------------------------------------------
// TextTiling
// ---------------------------------------------------------------------------
/// Offsets as integers.
pub open spec fn usize_ints(v: Seq<usize>) -> Seq<int> {
    v.map_values(|c: usize| c as int)
}

/// The cuts kept: in order, each at least `half` tokens after the last one kept.
pub open spec fn keep_cuts(cuts: Seq<int>, half: int) -> Seq<int>
    decreases cuts.len(),
{
    if cuts.len() == 0 {
        seq![]
    } else {
        let prev = keep_cuts(cuts.drop_last(), half);
        if prev.len() == 0 || cuts.last() - prev.last() >= half {
            prev.push(cuts.last())
        } else {
            prev
        }
    }
}

/// The tokens between consecutive offsets of `bounds`, joined by spaces.
pub open spec fn seg_texts(toks: Seq<Seq<char>>, bounds: Seq<int>) -> Seq<Seq<char>>
    decreases bounds.len(),
{
    if bounds.len() < 2 {
        seq![]
    } else {
        seg_texts(toks, bounds.drop_last()).push(
            join_seq(toks.subrange(bounds[bounds.len() - 2], bounds.last()), seq![' ']),
        )
    }
}

/// Splits text into topical segments. Blank lines, when the text has them, end
/// the segments, and text of at most `2 * w` words is one segment; otherwise the
/// segments end at valleys of lexical similarity between windows of `w` words.
pub struct TextTilingTokenizer {
    pub w: usize,
    pub k: usize,
}

impl TextTilingTokenizer {
    pub fn new(w: usize, k: usize) -> (r: Self)
        ensures
            r.w == w,
            r.k == k,
    {
        TextTilingTokenizer { w, k }
    }

    /// The segments that need no similarity scores: none for blank text, the
    /// paragraphs when there are several, the whole text when it is short.
    pub open spec fn quick_segments(&self, s: Seq<char>) -> Option<Seq<Seq<char>>> {
        if trim(s).len() == 0 {
            Some(seq![])
        } else if paragraphs(s).len() > 1 && contains_seq(s, seq!['\n', '\n']) {
            Some(paragraphs(s))
        } else if split_ws(s).len() <= 2 * self.w {
            Some(seq![trim(s)])
        } else {
            None
        }
    }

    /// The segments of text cut before the tokens at `cuts` (cuts closer than
    /// `w / 2` tokens to the one before are dropped, and so are blank segments);
    /// the whole text, trimmed, when nothing is left.
    pub open spec fn cut_segments(&self, s: Seq<char>, cuts: Seq<int>) -> Seq<Seq<char>> {
        let toks = split_ws(s);
        let fc = keep_cuts(cuts, (self.w / 2) as int);
        let segs = nonblank_lines(seg_texts(toks, seq![0int] + fc + seq![toks.len() as int]));
        if fc.len() == 0 || segs.len() == 0 {
            seq![trim(s)]
        } else {
            segs
        }
    }

    /// The segments of `quick_segments`, or `None` when the text needs scoring.
    pub fn segment_quick(&self, s: &str) -> (r: Option<Vec<String>>)
        ensures
            match r {
                Some(v) => self.quick_segments(s@) == Some(str_views(v@)),
                None => self.quick_segments(s@) is None,
            },
    {
        let v = chars_of(s);
        let t = trim_chars(&v);
        if t.len() == 0 {
            let r: Vec<String> = Vec::new();
            assert(str_views(r@) =~= Seq::<Seq<char>>::empty());
            return Some(r);
        }
        let paras = sent_tokenize_placeholder(s);
        let nn = vec!['\n', '\n'];
        assert(nn@ =~= seq!['\n', '\n']);
        if paras.len() > 1 && contains_chars(&v, &nn) {
            return Some(paras);
        }
        let words = split_ws_chars(&v);
        if (words.len() as u128) <= 2 * (self.w as u128) {
            let mut r: Vec<String> = Vec::new();
            r.push(string_of(t.as_slice()));
            assert(str_views(r@) =~= seq![trim(s@)]);
            return Some(r);
        }
        None
    }

    /// The segments of `cut_segments`; the cuts come in order and lie within the
    /// words of the text.
    pub fn segment_at_cuts(&self, s: &str, cuts: &[usize]) -> (r: Vec<String>)
        requires
            forall|i: int, j: int| 0 <= i <= j < cuts@.len() ==> #[trigger] cuts@[i] <= #[trigger] cuts@[j],
            forall|i: int| 0 <= i < cuts@.len() ==> #[trigger] cuts@[i] <= split_ws(s@).len(),
        ensures
            str_views(r@) == self.cut_segments(s@, usize_ints(cuts@)),
    {
        let ghost cv = usize_ints(cuts@);
        let half = self.w / 2;
        let mut fc: Vec<usize> = Vec::new();
        for i in 0..cuts.len()
            invariant
                cv == usize_ints(cuts@),
                half == self.w / 2,
                usize_ints(fc@) == keep_cuts(cv.take(i as int), half as int),
                forall|x: int| 0 <= x < fc.len() ==> exists|y: int| 0 <= y < i && #[trigger] fc@[x] == cuts@[y],
                fc.len() > 0 ==> exists|y: int| 0 <= y < i && fc@[fc.len() - 1] == #[trigger] cuts@[y],
                forall|i2: int, j2: int| 0 <= i2 <= j2 < cuts@.len() ==> #[trigger] cuts@[i2] <= #[trigger] cuts@[j2],
                forall|x: int, y: int| 0 <= x <= y < fc.len() ==> #[trigger] fc@[x] <= #[trigger] fc@[y],
        {
            assert(cv.take(i + 1).drop_last() =~= cv.take(i as int));
            let c = cuts[i];
            let ghost before = usize_ints(fc@);
            let keep = if fc.len() == 0 {
                true
            } else {
                let last = fc[fc.len() - 1];
                proof {
                    let y = choose|y: int| 0 <= y < i && fc@[fc.len() - 1] == #[trigger] cuts@[y];
                    assert(cuts@[y] <= cuts@[i as int]);
                }
                c - last >= half
            };
            let ghost fc0 = fc@;
            if keep {
                fc.push(c);
                assert(usize_ints(fc@) =~= before.push(c as int));
                assert(fc@ == fc0.push(c));
                assert forall|x: int, y: int| 0 <= x <= y < fc.len() implies #[trigger] fc@[x] <= #[trigger] fc@[y] by {
                    if y == fc.len() - 1 {
                        if x < y {
                            assert(fc@[x] == fc0[x]);
                            let z = choose|z: int| 0 <= z < i && #[trigger] fc0[x] == cuts@[z];
                            assert(cuts@[z] <= cuts@[i as int]);
                        }
                    } else {
                        assert(fc@[x] == fc0[x]);
                        assert(fc@[y] == fc0[y]);
                    }
                }
                assert forall|x: int| 0 <= x < fc.len() implies exists|y: int| 0 <= y < i + 1 && #[trigger] fc@[x] == cuts@[y] by {
                    if x < fc.len() - 1 {
                        assert(fc@[x] == fc0[x]);
                        let z = choose|z: int| 0 <= z < i && #[trigger] fc0[x] == cuts@[z];
                        assert(fc@[x] == cuts@[z]);
                    } else {
                        assert(fc@[x] == cuts@[i as int]);
                    }
                }
            }
        }
        assert(cv.take(cuts.len() as int) =~= cv);
        let v = chars_of(s);
        let toks = split_ws_chars(&v);
        let ghost tv = char_views(toks@);
        let ghost fcv = usize_ints(fc@);
        let ghost bounds = seq![0int] + fcv + seq![toks.len() as int];
        let mut segs: Vec<Vec<char>> = Vec::new();
        let mut start: usize = 0;
        let sp = vec![' '];
        assert(sp@ =~= seq![' ']);
        let mut q: usize = 0;
        assert(bounds.take(1) =~= seq![0int]);
        while q < fc.len()
            invariant
                tv == char_views(toks@),
                fcv == usize_ints(fc@),
                bounds == seq![0int] + fcv + seq![toks.len() as int],
                q <= fc.len(),
                start as int == bounds[q as int],
                start <= toks.len(),
                forall|x: int| 0 <= x < fc.len() ==> exists|y: int| 0 <= y < cuts@.len() && #[trigger] fc@[x] == cuts@[y],
                forall|i: int| 0 <= i < cuts@.len() ==> #[trigger] cuts@[i] <= split_ws(s@).len(),
                forall|x: int, y: int| 0 <= x <= y < fc.len() ==> #[trigger] fc@[x] <= #[trigger] fc@[y],
                tv == split_ws(s@),
                sp@ == seq![' '],
                char_views(segs@) == nonblank_lines(seg_texts(tv, bounds.take(q + 1))),
            decreases fc.len() - q,
        {
            let cut = fc[q];
            proof {
                let y = choose|y: int| 0 <= y < cuts@.len() && #[trigger] fc@[q as int] == cuts@[y];
                if q > 0 {
                    assert(fc@[q - 1] <= fc@[q as int]);
                }
            }
            let mut words: Vec<Vec<char>> = Vec::new();
            let mut k = start;
            while k < cut
                invariant
                    start <= k <= cut,
                    cut <= toks.len(),
                    char_views(words@) == char_views(toks@).subrange(start as int, k as int),
                decreases cut - k,
            {
                let ghost wb = char_views(words@);
                words.push(copy_chars(&toks[k]));
                assert(char_views(words@) =~= wb.push(toks@[k as int]@));
                assert(char_views(toks@)[k as int] == toks@[k as int]@);
                assert(char_views(words@) =~= char_views(toks@).subrange(start as int, k + 1));
                k = k + 1;
            }
            let seg = join_chars(&words, &sp);
            let tr = trim_chars(&seg);
            let ghost texts = seg_texts(tv, bounds.take(q + 2));
            assert(bounds.take(q + 2).drop_last() =~= bounds.take(q + 1));
            assert(texts == seg_texts(tv, bounds.take(q + 1)).push(seg@));
            assert(texts.drop_last() == seg_texts(tv, bounds.take(q + 1)));
            if tr.len() > 0 {
                let ghost before = char_views(segs@);
                segs.push(seg);
                assert(char_views(segs@) =~= before.push(texts.last()));
            }
            start = cut;
            q = q + 1;
        }
        let mut words: Vec<Vec<char>> = Vec::new();
        let mut k = start;
        let n = toks.len();
        while k < n
            invariant
                start <= k <= n,
                n == toks.len(),
                char_views(words@) == char_views(toks@).subrange(start as int, k as int),
            decreases n - k,
        {
            let ghost wb = char_views(words@);
            words.push(copy_chars(&toks[k]));
            assert(char_views(words@) =~= wb.push(toks@[k as int]@));
            assert(char_views(toks@)[k as int] == toks@[k as int]@);
            assert(char_views(words@) =~= char_views(toks@).subrange(start as int, k + 1));
            k = k + 1;
        }
        let tail = join_chars(&words, &sp);
        let tr = trim_chars(&tail);
        let ghost texts = seg_texts(tv, bounds);
        assert(bounds.take(fc.len() + 2) =~= bounds);
        assert(bounds.drop_last() =~= bounds.take(fc.len() + 1));
        assert(bounds[bounds.len() - 2] == start as int);
        assert(bounds.last() == n as int);
        let ghost prevsegs = seg_texts(tv, bounds.take(fc.len() + 1));
        assert(texts == prevsegs.push(tail@));
        assert(char_views(segs@) == nonblank_lines(prevsegs));
        assert(texts.drop_last() =~= prevsegs);
        assert(texts.last() == tail@);
        if tr.len() > 0 {
            let ghost before = char_views(segs@);
            segs.push(tail);
            assert(char_views(segs@) =~= before.push(texts.last()));
            assert(nonblank_lines(texts) == nonblank_lines(prevsegs).push(tail@));
        } else {
            assert(nonblank_lines(texts) == nonblank_lines(prevsegs));
        }
        assert(fcv == keep_cuts(usize_ints(cuts@), (self.w / 2) as int));
        assert(tv == split_ws(s@));
        assert(bounds == seq![0int] + fcv + seq![tv.len() as int]);
        assert(char_views(segs@) == nonblank_lines(seg_texts(tv, bounds)));
        if fc.len() == 0 || segs.len() == 0 {
            let t = trim_chars(&v);
            let mut r: Vec<String> = Vec::new();
            r.push(string_of(t.as_slice()));
            assert(str_views(r@) =~= seq![trim(s@)]);
            return r;
        }
        strings_of(&segs)
    }
}

impl Default for TextTilingTokenizer {
    fn default() -> (r: Self)
        ensures
            r.w == 20,
            r.k == 10,
    {
        Self::new(20, 10)
    }
}

impl TokenizerI for TextTilingTokenizer {
    /// The texts segmented without similarity scores (see `quick_segments`).
    open spec fn accepts(&self, s: Seq<char>) -> bool {
        self.quick_segments(s) is Some
    }

    open spec fn tokens_of(&self, s: Seq<char>) -> Seq<Seq<char>> {
        self.quick_segments(s).unwrap()
    }

    open spec fn spans_ok(&self, s: Seq<char>) -> bool {
        self.quick_segments(s) is Some && alignment(self.quick_segments(s).unwrap(), s) is Some
    }

    open spec fn spans_of(&self, s: Seq<char>) -> Seq<(int, int)> {
        alignment(self.quick_segments(s).unwrap(), s).unwrap()
    }

    fn tokenize(&self, s: &str) -> (r: Vec<String>) {
        match self.segment_quick(s) {
            Some(v) => v,
            None => Vec::new(),
        }
    }

    fn span_tokenize(&self, s: &str) -> (r: Vec<(usize, usize)>) {
        let toks = TokenizerI::tokenize(self, s);
        align_tokens(toks.as_slice(), s)
    }
}

} // verus!
