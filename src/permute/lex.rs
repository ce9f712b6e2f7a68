//! Lexicographic r-permutation generator.
use vstd::prelude::*;
use crate::math::count::{checked_range_product, falling};
use crate::order::{Ordered, same_elements, sort_in_place, sorted};
use crate::permute::{lex_next, lex_next_spec};

verus! {

/// Pulls the r-permutations of a multiset one at a time, in strictly
/// increasing lexicographic order, starting from the sorted arrangement.
pub struct Lex<T> {
    /// The working array.
    pub mset: Vec<T>,
    /// The subset size `r`.
    pub size: usize,
    /// Whether the first arrangement has been emitted.
    pub started: bool,
    /// Whether the enumeration has ended.
    pub done: bool,
}

impl<T: Ordered> Lex<T> {
    /// `r` as given at construction.
    pub open spec fn r(&self) -> nat {
        self.size as nat
    }

    /// Whether the first arrangement has been emitted.
    pub open spec fn is_started(&self) -> bool {
        self.started
    }

    /// Whether the enumeration has ended.
    pub open spec fn is_done(&self) -> bool {
        self.done
    }

    /// `1 <= r <= n`: the only sizes with results.
    pub open spec fn has_results(&self) -> bool {
        0 < self.r() <= self.mset@.len()
    }

    /// A generator over `mset`, sorted, for arrangements of `size` elements.
    pub fn new(mset: Vec<T>, size: usize) -> (g: Self)
        ensures
            sorted(g.mset@),
            same_elements(g.mset@, mset@),
            g.r() == size,
            !g.is_started(),
            !g.is_done(),
    {
        let mut mset = mset;
        sort_in_place(&mut mset);
        Lex { mset, size, started: false, done: false }
    }

    /// The subset size `r`.
    pub fn size(&self) -> (r: usize)
        ensures
            r == self.r(),
    {
        self.size
    }

    /// The next r-permutation, or `None` once there is none; see
    /// [`lex_next_spec`] for how each result relates to the one before.
    pub fn next(&mut self) -> (res: Option<Vec<T>>)
        ensures
            final(self).size == old(self).size,
            lex_next_spec(
                old(self).size as nat,
                old(self).mset@,
                old(self).started,
                old(self).done,
                final(self).mset@,
                final(self).started,
                final(self).done,
                res,
            ),
    {
        lex_next(&mut self.mset, self.size, &mut self.started, &mut self.done)
    }

    /// `(0, Some(0))` when `r == 0`, `r > n` or `n == 0`; else
    /// `(1, Some(n! / (n - r)!))`, with `None` for a count above `usize::MAX`.
    pub fn size_hint(&self) -> (h: (usize, Option<usize>))
        ensures
            !self.has_results() ==> h == (0usize, Some(0usize)),
            self.has_results() ==> h.0 == 1 && (h.1 is Some <==> falling(
                self.mset@.len(),
                self.r(),
            ) <= usize::MAX) && (h.1 matches Some(c) ==> c == falling(
                self.mset@.len(),
                self.r(),
            )),
    {
        let n = self.mset.len();
        let r = self.size;
        if n == 0 || r == 0 || r > n {
            (0, Some(0))
        } else {
            (1, checked_range_product(n - r + 1, n))
        }
    }
}

} // verus!
