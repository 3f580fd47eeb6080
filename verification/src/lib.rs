//! Tokenizers: text split into sentences, words, syllables and other units,
//! with the offsets of each piece.
use vstd::prelude::*;

pub mod text;
pub mod treebank;
pub mod api;
pub mod destructive;
pub mod sexpr;
pub mod rx;
pub mod casual;
pub mod toktok;
pub mod nist;
pub mod util;
pub mod simple;
pub mod regexp;
pub mod mwe;
pub mod deferrable;
pub mod punkt;
pub mod punkt_trainer;
pub mod gpu;
pub mod pipeline;

verus! {

/// The sum of `a` and `b`, which must fit in an `i64`.
pub fn add_core(a: i64, b: i64) -> (r: i64)
    requires
        i64::MIN <= a + b <= i64::MAX,
    ensures
        r == a + b,
{
    a + b
}

} // verus!
