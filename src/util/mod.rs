//! Permutation objects, index shuffles and counting.
pub mod count;
pub mod perm;
pub mod shift;
use vstd::prelude::*;

verus! {

/// Shuffling and permuting of a held collection.
pub trait MergeShuffle<T> {
    type Perm;

    fn merge_shuffle(&self) -> Vec<T>;

    fn permute(&self) -> Option<Self::Perm>;
}

} // verus!
