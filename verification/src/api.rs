//! The interface shared by the string tokenizers.
use vstd::prelude::*;
use crate::text::str_views;

verus! {

/// Character offsets of spans, as integers.
pub open spec fn spans_view(v: Seq<(usize, usize)>) -> Seq<(int, int)> {
    v.map_values(|p: (usize, usize)| (p.0 as int, p.1 as int))
}

/// Each span lies in `t` and picks out of it the token at the same place.
pub open spec fn picks_out(t: Seq<char>, sp: Seq<(int, int)>, toks: Seq<Seq<char>>) -> bool {
    &&& sp.len() == toks.len()
    &&& forall|i: int|
        0 <= i < sp.len() ==> 0 <= (#[trigger] sp[i]).0 <= sp[i].1 <= t.len() && t.subrange(
            sp[i].0,
            sp[i].1,
        ) == toks[i]
}

/// Spans that pick out tokens, followed by more such spans, pick out all the
/// tokens.
pub proof fn lemma_picks_out_concat(
    t: Seq<char>,
    sp1: Seq<(int, int)>,
    tk1: Seq<Seq<char>>,
    sp2: Seq<(int, int)>,
    tk2: Seq<Seq<char>>,
)
    requires
        picks_out(t, sp1, tk1),
        picks_out(t, sp2, tk2),
    ensures
        picks_out(t, sp1 + sp2, tk1 + tk2),
{
    let sp = sp1 + sp2;
    let tk = tk1 + tk2;
    assert forall|i: int| 0 <= i < sp.len() implies 0 <= (#[trigger] sp[i]).0 <= sp[i].1 <= t.len()
        && t.subrange(sp[i].0, sp[i].1) == tk[i] by {
        if i < sp1.len() {
            assert(sp[i] == sp1[i]);
            assert(tk[i] == tk1[i]);
        } else {
            assert(sp[i] == sp2[i - sp1.len()]);
            assert(tk[i] == tk2[i - sp1.len()]);
        }
    }
}

/// A tokenizer that splits a string into tokens and can report where each token
/// lies in the string (as character offsets).
pub trait TokenizerI {
    /// The inputs this tokenizer accepts.
    spec fn accepts(&self, s: Seq<char>) -> bool;

    /// The tokens of `s`.
    spec fn tokens_of(&self, s: Seq<char>) -> Seq<Seq<char>>;

    /// The inputs for which the token spans can be found.
    spec fn spans_ok(&self, s: Seq<char>) -> bool;

    /// The spans of the tokens of `s`.
    spec fn spans_of(&self, s: Seq<char>) -> Seq<(int, int)>;

    fn tokenize(&self, s: &str) -> (r: Vec<String>)
        requires
            self.accepts(s@),
        ensures
            str_views(r@) == self.tokens_of(s@),
    ;

    fn span_tokenize(&self, s: &str) -> (r: Vec<(usize, usize)>)
        requires
            self.spans_ok(s@),
        ensures
            spans_view(r@) == self.spans_of(s@),
    ;

    /// Tokenizes each sentence.
    fn tokenize_sents(&self, sents: &[String]) -> (r: Vec<Vec<String>>)
        requires
            forall|i: int| 0 <= i < sents@.len() ==> self.accepts(#[trigger] sents@[i]@),
        ensures
            r.len() == sents.len(),
            forall|i: int| 0 <= i < sents@.len() ==> str_views(#[trigger] r@[i]@) == self.tokens_of(
                sents@[i]@,
            ),
    {
        let mut out: Vec<Vec<String>> = Vec::new();
        for i in 0..sents.len()
            invariant
                out.len() == i,
                forall|j: int| 0 <= j < sents@.len() ==> self.accepts(#[trigger] sents@[j]@),
                forall|j: int| 0 <= j < i ==> str_views(#[trigger] out@[j]@) == self.tokens_of(
                    sents@[j]@,
                ),
        {
            out.push(self.tokenize(sents[i].as_str()));
        }
        out
    }
}

} // verus!
