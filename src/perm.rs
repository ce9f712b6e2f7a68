//! Multipermutations: every r-permutation of a multiset, listed at once.
use vstd::prelude::*;
use crate::math::count::{checked_range_product, falling};
use crate::order::{Ordered, copy_of, same_elements};
use crate::permute::{generate_all, lex_enumeration, views};

verus! {

/// A multiset whose r-permutations can be listed in lexicographic order.
pub struct Permutation<T>(Vec<T>);

impl<T> View for Permutation<T> {
    type V = Seq<T>;

    closed spec fn view(&self) -> Seq<T> {
        self.0@
    }
}

impl<T: Ordered> Permutation<T> {
    /// A multiset holding a copy of `v`.
    pub fn new(v: &[T]) -> (p: Permutation<T>)
        ensures
            p@ == v@,
    {
        Permutation(copy_of(v))
    }

    /// `n! / (n - r)!`; `None` when `r == 0`, `r > n`, `n == 0` or the count
    /// exceeds `usize::MAX`.
    pub fn count(&self, r: usize) -> (c: Option<usize>)
        ensures
            c is Some <==> (0 < r <= self@.len() && falling(self@.len(), r as nat) <= usize::MAX),
            c matches Some(k) ==> k == falling(self@.len(), r as nat),
    {
        let n = self.0.len();
        if n == 0 || r == 0 || r > n {
            None
        } else {
            checked_range_product(n - r + 1, n)
        }
    }

    /// The r-permutations of the multiset in lexicographic order, from the
    /// sorted arrangement on (Knuth, TAOCP 7.2.1.2); `None` when `r > n`,
    /// `n == 0` or `r == 0`. The elements are left reordered.
    pub fn generate(&mut self, r: usize) -> (res: Option<Vec<Vec<T>>>)
        ensures
            res is None <==> (r > old(self)@.len() || old(self)@.len() == 0 || r == 0),
            same_elements(final(self)@, old(self)@),
            res matches Some(out) ==> lex_enumeration(views(out@), old(self)@, r as nat),
    {
        let n = self.0.len();
        if r > n || n == 0 || r == 0 {
            return None;
        }
        Some(generate_all(&mut self.0, r))
    }
}

} // verus!
