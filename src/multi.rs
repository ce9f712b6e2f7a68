//! Multipermutations and combinations: generator states for the
//! Steinhaus–Johnson–Trotter algorithm and for Heap's algorithm over
//! r-subsets.
use vstd::prelude::*;
use crate::math::count::{checked_range_product, falling};
use crate::order::copy_of;

verus! {

/// Maximum number of elements to generate permutations for with Heap's algorithm.
pub const MAXHEAP: usize = 16;

/// `(0, Some(0))` when `r == 0`, `r > n` or `n == 0`; else
/// `(1, Some(n! / (n - r)!))`, with `None` for a count above `usize::MAX`.
fn subset_size_hint(n: usize, r: usize) -> (h: (usize, Option<usize>))
    ensures
        !(0 < r <= n) ==> h == (0usize, Some(0usize)),
        0 < r <= n ==> h.0 == 1 && (h.1 is Some <==> falling(n as nat, r as nat) <= usize::MAX)
            && (h.1 matches Some(c) ==> c == falling(n as nat, r as nat)),
{
    if n == 0 || r == 0 || r > n {
        (0, Some(0))
    } else {
        (1, checked_range_product(n - r + 1, n))
    }
}

/// State of the Steinhaus–Johnson–Trotter algorithm for in-place permutations.
pub struct JohnsonTrotter<T> {
    pub vec: Vec<T>,
    pub subsize: usize,
    pub pointer: usize,
    pub counter: Vec<u8>,
}

impl<T: Copy> JohnsonTrotter<T> {
    /// A generator over a copy of `v` for arrangements of `subsize` elements,
    /// at its start.
    pub fn new(v: &[T], subsize: usize) -> (g: JohnsonTrotter<T>)
        ensures
            g.vec@ == v@,
            g.subsize == subsize,
            g.pointer == 0,
            g.counter@ == Seq::new((MAXHEAP - 1) as nat, |i: int| 0u8),
    {
        let vec = copy_of(v);
        JohnsonTrotter { vec, subsize, pointer: 0, counter: zero_counters() }
    }

    /// `(1, Some(n! / (n - r)!))` for `1 <= r <= n`, else `(0, Some(0))`.
    pub fn size_hint(&self) -> (h: (usize, Option<usize>))
        ensures
            !(0 < self.subsize <= self.vec@.len()) ==> h == (0usize, Some(0usize)),
            0 < self.subsize <= self.vec@.len() ==> h.0 == 1 && (h.1 is Some <==> falling(
                self.vec@.len(),
                self.subsize as nat,
            ) <= usize::MAX) && (h.1 matches Some(c) ==> c == falling(
                self.vec@.len(),
                self.subsize as nat,
            )),
    {
        subset_size_hint(self.vec.len(), self.subsize)
    }
}

/// State of Heap's algorithm over r-subsets.
pub struct Heaps<T> {
    pub vec: Vec<T>,
    pub subsize: usize,
    pub pointer: usize,
    pub counter: Vec<u8>,
}

impl<T: Copy> Heaps<T> {
    /// A generator over a copy of `v` for arrangements of `subsize` elements,
    /// at its start.
    pub fn new(v: &[T], subsize: usize) -> (g: Heaps<T>)
        ensures
            g.vec@ == v@,
            g.subsize == subsize,
            g.pointer == 0,
            g.counter@ == Seq::new((MAXHEAP - 1) as nat, |i: int| 0u8),
    {
        let vec = copy_of(v);
        Heaps { vec, subsize, pointer: 0, counter: zero_counters() }
    }

    /// `(1, Some(n! / (n - r)!))` for `1 <= r <= n`, else `(0, Some(0))`.
    pub fn size_hint(&self) -> (h: (usize, Option<usize>))
        ensures
            !(0 < self.subsize <= self.vec@.len()) ==> h == (0usize, Some(0usize)),
            0 < self.subsize <= self.vec@.len() ==> h.0 == 1 && (h.1 is Some <==> falling(
                self.vec@.len(),
                self.subsize as nat,
            ) <= usize::MAX) && (h.1 matches Some(c) ==> c == falling(
                self.vec@.len(),
                self.subsize as nat,
            )),
    {
        subset_size_hint(self.vec.len(), self.subsize)
    }
}

/// One zero counter for each depth below `MAXHEAP`.
fn zero_counters() -> (v: Vec<u8>)
    ensures
        v@ == Seq::new((MAXHEAP - 1) as nat, |i: int| 0u8),
{
    let mut v: Vec<u8> = Vec::new();
    let mut i: usize = 0;
    while i < MAXHEAP - 1
        invariant
            i <= MAXHEAP - 1,
            v@ == Seq::new(i as nat, |k: int| 0u8),
        decreases MAXHEAP - 1 - i,
    {
        v.push(0);
        i = i + 1;
        assert(v@ =~= Seq::new(i as nat, |k: int| 0u8));
    }
    v
}

} // verus!
