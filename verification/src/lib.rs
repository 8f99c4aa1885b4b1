//! Parallel-friendly enumeration of the fixed-length combinations and
//! arrangements (permutations of a chosen length) of a slice, with and
//! without replacement.
//!
//! Each enumeration is indexed: the item at any index can be produced
//! directly, and a cursor can be stepped forwards and backwards, so the
//! index range can be split into independent pieces.
use vstd::prelude::*;

pub mod counting;
pub mod sequences;
pub mod traits;
pub mod comb_model;
pub mod combinations_array;
pub mod perm_model;
pub mod permutations_array;
pub mod laws;

pub use traits::{ImplType, ImplIterator, ImplSlice};
pub use combinations_array::ParallelCombinationArray;
pub use permutations_array::ParallelPermutationArray;

verus! {

} // verus!
