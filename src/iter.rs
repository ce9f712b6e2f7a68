//! Lexicographic r-permutations of a multiset, pulled one at a time.
use vstd::prelude::*;
use crate::math::count::{checked_range_product, falling};
use crate::order::{Ordered, copy_of, dedup_adjacent, dedup_spec, same_elements, sort_in_place, sorted};
use crate::permute::{lex_next, lex_next_spec};

verus! {

/// Pulls the r-permutations of a multiset in strictly increasing
/// lexicographic order, starting from the sorted arrangement.
pub struct Permutations<T> {
    /// The working array.
    pub mset: Vec<T>,
    /// The subset size `r`.
    pub size: usize,
    /// Whether the first arrangement has been emitted.
    pub started: bool,
    /// Whether the enumeration has ended.
    pub done: bool,
}

impl<T: Ordered> Permutations<T> {
    /// `1 <= r <= n`: the only sizes with results.
    pub open spec fn has_results(&self) -> bool {
        0 < self.size <= self.mset@.len()
    }

    /// A generator over `mset`, sorted, for arrangements of `size` elements.
    pub fn new(mset: Vec<T>, size: usize) -> (g: Self)
        ensures
            sorted(g.mset@),
            same_elements(g.mset@, mset@),
            g.size == size,
            !g.started,
            !g.done,
    {
        let mut mset = mset;
        sort_in_place(&mut mset);
        Permutations { mset, size, started: false, done: false }
    }

    /// Drops repeated elements, so that equal elements count once.
    pub fn to_set(&mut self)
        ensures
            final(self).mset@ == dedup_spec(old(self).mset@),
            final(self).size == old(self).size,
            final(self).started == old(self).started,
            final(self).done == old(self).done,
    {
        self.mset = dedup_adjacent(&self.mset);
    }

    /// The next r-permutation, or `None` once there is none; see
    /// [`lex_next_spec`] for how each result relates to the one before.
    pub fn next(&mut self) -> (res: Option<Vec<T>>)
        ensures
            final(self).size == old(self).size,
            lex_next_spec(
                old(self).size as nat,
                old(self).mset@,
                old(self).started,
                old(self).done,
                final(self).mset@,
                final(self).started,
                final(self).done,
                res,
            ),
    {
        lex_next(&mut self.mset, self.size, &mut self.started, &mut self.done)
    }

    /// `(0, Some(0))` when `r == 0`, `r > n` or `n == 0`; else
    /// `(1, Some(n! / (n - r)!))`, with `None` for a count above `usize::MAX`.
    pub fn size_hint(&self) -> (h: (usize, Option<usize>))
        ensures
            !self.has_results() ==> h == (0usize, Some(0usize)),
            self.has_results() ==> h.0 == 1 && (h.1 is Some <==> falling(
                self.mset@.len(),
                self.size as nat,
            ) <= usize::MAX) && (h.1 matches Some(c) ==> c == falling(
                self.mset@.len(),
                self.size as nat,
            )),
    {
        let n = self.mset.len();
        let r = self.size;
        if n == 0 || r == 0 || r > n {
            (0, Some(0))
        } else {
            (1, checked_range_product(n - r + 1, n))
        }
    }
}

/// A generator of the `size`-permutations of a copy of `s`.
pub fn permutations<T: Ordered>(s: &[T], size: usize) -> (g: Permutations<T>)
    ensures
        sorted(g.mset@),
        same_elements(g.mset@, s@),
        g.size == size,
        !g.started,
        !g.done,
{
    let mset = copy_of(s);
    Permutations::new(mset, size)
}

} // verus!
