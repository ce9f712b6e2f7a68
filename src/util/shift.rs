//! Apply permutations to a vector by a permutation of its index vector.
use vstd::prelude::*;
use crate::cycles::single_cycle;
use crate::shift::{apply_spec, apply_transform, identity, identity_spec, is_index_permutation, is_permutation_of_indices};

verus! {

/// A permutation of the positions `0..n`.
pub struct Transform(pub Vec<usize>);

impl View for Transform {
    type V = Seq<usize>;

    open spec fn view(&self) -> Seq<usize> {
        self.0@
    }
}

impl Transform {
    /// The identity transform `[0, 1, ..., len - 1]`.
    pub fn new(len: usize) -> (r: Self)
        ensures
            r@ == identity_spec(len as nat),
    {
        Transform(identity(len))
    }

    /// A random transform of the same length, drawn by [`fy_shuffle`].
    pub fn shuffle(&mut self) -> (r: Self)
        ensures
            *final(self) == *old(self),
            r@.len() == old(self)@.len(),
            is_index_permutation(r@),
    {
        Transform(fy_shuffle(self.0.len()))
    }

    /// Whether every entry is below the length and no entry occurs twice.
    pub fn is_valid(&self) -> (r: bool)
        ensures
            r == is_index_permutation(self@),
    {
        is_permutation_of_indices(&self.0)
    }
}

/// Applies the index permutation `t` to `v`: position `i` of the result
/// holds `v[t[i]]`. A transform of another length, or with an index out of
/// range or repeated, is malformed: the result is `None`.
pub fn shift<T: Copy>(v: &[T], t: Transform) -> (r: Option<Vec<T>>)
    ensures
        r is Some <==> (v@.len() == t@.len() && is_index_permutation(t@)),
        r matches Some(w) ==> w@ == apply_spec(v@, t@),
{
    if v.len() != t.0.len() || !t.is_valid() {
        return None;
    }
    let w = crate::order::copy_of(v);
    Some(apply_transform(&w, &t.0))
}

/// A random permutation of `0..len`, drawn as by [`crate::shift::algo_p`].
pub fn fy_shuffle(len: usize) -> (r: Vec<usize>)
    ensures
        r@.len() == len,
        is_index_permutation(r@),
        len >= 1 ==> single_cycle(r@),
        len >= 2 ==> forall|i: int| 0 <= i < len ==> #[trigger] r@[i] != i,
{
    crate::shift::algo_p(len)
}

} // verus!
