//! A multiset backed by a sorted `Vec`.
use vstd::prelude::*;
use crate::order::{Ordered, same_elements, sort_in_place, sorted};

verus! {

/// A multiset backed by `Vec`, its elements kept in non-decreasing order.
#[derive(PartialEq, Eq, Default, Debug)]
pub struct MultiSet<T>(pub Vec<T>);

impl<T: Ordered> MultiSet<T> {
    /// A new empty set.
    pub fn new() -> (s: Self)
        ensures
            s.0@ == Seq::<T>::empty(),
    {
        MultiSet(Vec::new())
    }

    /// A set of the elements of `v`, sorted first.
    pub fn from(v: Vec<T>) -> (s: Self)
        ensures
            sorted(s.0@),
            same_elements(s.0@, v@),
    {
        let mut v = v;
        sort_in_place(&mut v);
        Self::from_sorted_set(v)
    }

    /// A set of the elements of `v`, taken to be sorted already.
    pub fn from_sorted_set(v: Vec<T>) -> (s: Self)
        ensures
            s.0@ == v@,
    {
        MultiSet(v)
    }

    /// Removes every element.
    pub fn clear(&mut self)
        ensures
            final(self).0@ == Seq::<T>::empty(),
    {
        self.0.clear();
    }

    /// The elements in non-increasing order: the sorted order reversed.
    pub fn tail(self) -> (r: Vec<T>)
        ensures
            r@ == self.0@.reverse(),
    {
        let n = self.0.len();
        let mut r: Vec<T> = Vec::new();
        let mut i: usize = n;
        while i > 0
            invariant
                i <= n == self.0@.len(),
                r@ == self.0@.subrange(i as int, n as int).reverse(),
            decreases i,
        {
            i = i - 1;
            r.push(self.0[i]);
            assert(r@ =~= self.0@.subrange(i as int, n as int).reverse());
        }
        assert(self.0@.subrange(0, n as int) =~= self.0@);
        r
    }
}

} // verus!
