//! Heap's algorithm for generating permutations, one swap per step.
use vstd::prelude::*;
use crate::count::{checked_permute_mset, mset_permutations};
use crate::math::count::{fact, lemma_range_product_positive, range_product};
use crate::order::{Ordered, copy_of, same_elements, swap_at};

verus! {

/// 16! is the hard upper bound on the number of permutations generated at a time.
pub const MAXHEAP: usize = 16;

/// Steps through the permutations of its working array by Heap's algorithm,
/// iteratively: `counter[d]` is the loop index of recursion depth `d`, which
/// permutes the first `d + 2` elements, and `n` is the current depth.
pub struct Heap<T> {
    state: Vec<T>,
    n: u32,
    counter: Vec<u8>,
}

/// The counters read as a mixed-radix number: digit `d` ranges over
/// `0..=d + 1` and weighs `(d + 1)!`. Only the digits below `m` count.
pub open spec fn digits_value(c: Seq<u8>, m: nat) -> int
    decreases m,
{
    if m == 0 {
        0
    } else {
        digits_value(c, (m - 1) as nat) + c[m - 1] * fact(m)
    }
}

proof fn lemma_fact_step(m: nat)
    ensures
        fact(m + 1) == fact(m) * (m + 1),
        fact(m) >= 1,
{
    lemma_range_product_positive(1, m as int);
    assert(fact(m + 1) == range_product(1, m as int) * (m + 1));
}

/// Digits all at their largest give the largest value, `(m + 1)! - 1`.
proof fn lemma_digits_max(c: Seq<u8>, m: nat)
    requires
        m <= c.len(),
        forall|d: int| 0 <= d < m ==> c[d] == d + 1,
    ensures
        digits_value(c, m) == fact(m + 1) - 1,
    decreases m,
{
    lemma_fact_step(m);
    if m > 0 {
        lemma_digits_max(c, (m - 1) as nat);
        assert(c[m - 1] == m);
        let f = fact(m);
        assert(f - 1 + m * f == f * (m + 1) - 1) by (nonlinear_arith);
    } else {
        assert(fact(1) == 1) by {
            lemma_fact_step(0);
        }
    }
}

/// Digits within their ranges give a value in `0..=(m + 1)! - 1`.
proof fn lemma_digits_bounds(c: Seq<u8>, m: nat)
    requires
        m <= c.len(),
        forall|d: int| 0 <= d < m ==> c[d] <= d + 1,
    ensures
        0 <= digits_value(c, m) <= fact(m + 1) - 1,
    decreases m,
{
    lemma_fact_step(m);
    if m > 0 {
        lemma_digits_bounds(c, (m - 1) as nat);
        let x = c[m - 1] as int;
        let f = fact(m);
        assert(0 <= x * f <= m * f) by (nonlinear_arith)
            requires
                0 <= x <= m,
                f >= 1,
        ;
        assert(f - 1 + m * f == f * (m + 1) - 1) by (nonlinear_arith);
    } else {
        lemma_fact_step(0);
    }
}

/// Zero digits give zero.
proof fn lemma_digits_zero(c: Seq<u8>, m: nat)
    requires
        m <= c.len(),
        forall|d: int| 0 <= d < m ==> c[d] == 0,
    ensures
        digits_value(c, m) == 0,
    decreases m,
{
    if m > 0 {
        lemma_digits_zero(c, (m - 1) as nat);
    }
}

/// Resetting the largest digits below `n` to zero lowers the value by `(n + 1)! - 1`.
proof fn lemma_digits_reset(a: Seq<u8>, b: Seq<u8>, n: nat, m: nat)
    requires
        n <= m <= a.len(),
        m <= b.len(),
        forall|d: int| 0 <= d < n ==> a[d] == 0 && b[d] == d + 1,
        forall|d: int| n <= d < m ==> a[d] == b[d],
    ensures
        digits_value(b, m) == digits_value(a, m) + fact(n + 1) - 1,
    decreases m,
{
    if m == n {
        lemma_digits_max(b, n);
        lemma_digits_zero(a, n);
    } else {
        lemma_digits_reset(a, b, n, (m - 1) as nat);
    }
}

/// Raising digit `p` by one raises the value by `(p + 1)!`.
proof fn lemma_digits_increment(c: Seq<u8>, p: int, x: u8, m: nat)
    requires
        0 <= p < m <= c.len(),
        x == c[p] + 1,
    ensures
        digits_value(c.update(p, x), m) == digits_value(c, m) + fact((p + 1) as nat),
    decreases m,
{
    if m - 1 > p {
        lemma_digits_increment(c, p, x, (m - 1) as nat);
    } else {
        assert(p == m - 1);
        lemma_digits_eq(c.update(p, x), c, (m - 1) as nat);
        let f = fact(m);
        assert(x * f == c[p] * f + f) by (nonlinear_arith)
            requires
                x == c[p] + 1,
        ;
    }
}

/// The value only depends on the digits below `m`.
proof fn lemma_digits_eq(a: Seq<u8>, b: Seq<u8>, m: nat)
    requires
        m <= a.len(),
        m <= b.len(),
        forall|d: int| 0 <= d < m ==> a[d] == b[d],
    ensures
        digits_value(a, m) == digits_value(b, m),
    decreases m,
{
    if m > 0 {
        lemma_digits_eq(a, b, (m - 1) as nat);
    }
}

/// The exchange partner of position `d + 1` at depth `d` with counter `c`:
/// the counter at even depths, position `0` at odd ones.
pub open spec fn heap_partner(d: int, c: int) -> int {
    if d % 2 == 0 {
        c
    } else {
        0
    }
}

/// `d` is the depth at which the next exchange happens: every lower counter
/// has run to its end, and the counter at `d` has not.
pub open spec fn is_step_depth(c: Seq<u8>, d: int) -> bool {
    &&& forall|e: int| 0 <= e < d ==> #[trigger] c[e] == e + 1
    &&& c[d] <= d
}

/// The counters after an exchange at depth `d`: those below go back to
/// zero, the one at `d` goes up by one.
pub open spec fn counters_after_step(c: Seq<u8>, d: int) -> Seq<u8> {
    Seq::new(
        c.len(),
        |e: int|
            if e < d {
                0u8
            } else if e == d {
                (c[d] + 1) as u8
            } else {
                c[e]
            },
    )
}

/// `a` with the elements at positions `p` and `q` exchanged.
pub open spec fn exchanged<T>(a: Seq<T>, p: int, q: int) -> Seq<T> {
    a.update(p, a[q]).update(q, a[p])
}

/// The counters of a fresh generator: all zero.
pub open spec fn fresh_counters() -> Seq<u8> {
    Seq::new((MAXHEAP - 1) as nat, |i: int| 0u8)
}

impl<T: Ordered> Heap<T> {
    /// The counter of each depth.
    pub closed spec fn counters(&self) -> Seq<u8> {
        self.counter@
    }

    /// The depth cursor.
    pub closed spec fn depth(&self) -> nat {
        self.n as nat
    }

    /// How many more arrangements the enumeration will produce: `n! - 1`
    /// less the value of the counters, or zero once exhausted.
    pub closed spec fn remaining(&self) -> int {
        if self.n + 1 >= self.state@.len() {
            0
        } else {
            fact(self.state@.len()) - 1 - digits_value(self.counter@, (self.state@.len() - 1) as nat)
        }
    }

    /// The working array.
    pub closed spec fn arrangement(&self) -> Seq<T> {
        self.state@
    }

    /// At most 16 elements, one counter per depth, each counter at most one
    /// past its depth.
    pub closed spec fn wf(&self) -> bool {
        &&& self.state@.len() <= MAXHEAP
        &&& self.counter@.len() == MAXHEAP - 1
        &&& self.n < MAXHEAP
        &&& forall|d: int| 0 <= d < MAXHEAP - 1 ==> self.counter@[d] <= d + 1
        &&& self.n == 0 || self.n + 1 == self.state@.len()
    }

    /// A generator over a copy of `s`; `None` when `s` has more than 16 elements.
    pub fn new(s: &[T]) -> (h: Option<Self>)
        ensures
            h is None <==> s@.len() > MAXHEAP,
            h matches Some(h) ==> h.wf() && h.arrangement() == s@ && h.counters()
                == fresh_counters() && h.depth() == 0 && h.remaining() == if s@.len() <= 1 {
                0
            } else {
                fact(s@.len()) - 1
            },
    {
        let state = copy_of(s);
        if state.len() > MAXHEAP {
            None
        } else {
            let h = Heap { state, n: 0, counter: zeros(MAXHEAP - 1) };
            proof {
                if h.state@.len() >= 2 {
                    lemma_digits_zero(h.counter@, (h.state@.len() - 1) as nat);
                }
            }
            Some(h)
        }
    }

    /// Restarts the enumeration from the current arrangement: all counters
    /// and the depth go back to zero.
    pub fn reset_counter(&mut self)
        requires
            old(self).wf(),
        ensures
            final(self).wf(),
            final(self).arrangement() == old(self).arrangement(),
            final(self).counters() == fresh_counters(),
            final(self).depth() == 0,
            final(self).remaining() == if old(self).arrangement().len() <= 1 {
                0
            } else {
                fact(old(self).arrangement().len()) - 1
            },
    {
        self.n = 0;
        self.counter = zeros(MAXHEAP - 1);
        proof {
            if self.state@.len() >= 2 {
                lemma_digits_zero(self.counter@, (self.state@.len() - 1) as nat);
            }
        }
    }

    /// Performs the next swap of Heap's algorithm and returns the new
    /// arrangement; `None` once every permutation has been visited. The
    /// exchange happens at the first depth `d` whose counter has not run to
    /// its end: position `d + 1` with the counter at even `d`, with `0` at
    /// odd `d`, two distinct positions. Each result
    /// uses up one of the remaining arrangements: from a fresh start over
    /// `n >= 1` elements, exactly `n! - 1` results come before `None`.
    pub fn next(&mut self) -> (res: Option<Vec<T>>)
        requires
            old(self).wf(),
        ensures
            final(self).wf(),
            same_elements(final(self).arrangement(), old(self).arrangement()),
            res is None ==> final(self).arrangement() == old(self).arrangement(),
            res is None <==> old(self).remaining() == 0,
            res is Some ==> final(self).remaining() == old(self).remaining() - 1,
            res is None ==> final(self).remaining() == 0,
            res matches Some(v) ==> v@ == final(self).arrangement() && old(self).depth() == 0
                && exists|d: int|
                0 <= d < old(self).arrangement().len() - 1 && #[trigger] is_step_depth(
                    old(self).counters(),
                    d,
                ) && heap_partner(d, old(self).counters()[d] as int) < d + 1
                    && final(self).arrangement() == exchanged(
                    old(self).arrangement(),
                    heap_partner(d, old(self).counters()[d] as int),
                    d + 1,
                ) && final(self).counters() == counters_after_step(old(self).counters(), d)
                    && final(self).depth() == 0,
            res is None ==> old(self).depth() != 0 || old(self).arrangement().len() < 2 || forall|
                e: int,
            | 0 <= e < old(self).arrangement().len() - 1 ==> #[trigger] old(self).counters()[e] == e
                + 1,
            res is None ==> final(self).depth() + 1 >= final(self).arrangement().len(),
    {
        if 1 + (self.n as usize) >= self.state.len() {
            return None;
        }
        let ghost c0 = self.counter@;
        let ghost len = self.state@.len();
        let ghost m = (len - 1) as nat;
        proof {
            lemma_digits_bounds(c0, m);
        }
        while 1 + (self.n as usize) < self.state.len()
            invariant
                self.state@.len() <= MAXHEAP,
                self.counter@.len() == MAXHEAP - 1,
                self.n + 1 <= self.state@.len(),
                forall|d: int| 0 <= d < MAXHEAP - 1 ==> self.counter@[d] <= d + 1,
                self.state@ == old(self).state@,
                len == self.state@.len(),
                m == len - 1,
                len >= 2,
                old(self).n == 0,
                c0 == old(self).counter@,
                c0.len() == MAXHEAP - 1,
                forall|d: int| 0 <= d < self.n ==> #[trigger] self.counter@[d] == 0,
                forall|d: int| 0 <= d < self.n ==> #[trigger] c0[d] == d + 1,
                forall|d: int| self.n <= d < MAXHEAP - 1 ==> self.counter@[d] == c0[d],
            decreases self.state@.len() - self.n,
        {
            let nu = self.n as usize;
            if self.counter[nu] as usize <= nu {
                let j: usize = if nu % 2 == 0 {
                    self.counter[nu] as usize
                } else {
                    0
                };
                let ghost before = self.state@;
                let ghost cur = self.counter@;
                swap_at(&mut self.state, j, nu + 1);
                let c = self.counter[nu];
                self.counter[nu] = c + 1;
                self.n = 0;
                assert(self.state@ == before.update(j as int, before[nu + 1]).update(
                    nu + 1,
                    before[j as int],
                ));
                assert(self.counter@ =~= counters_after_step(c0, nu as int));
                assert(is_step_depth(c0, nu as int));
                assert(c0[nu as int] == c);
                assert(j as int == heap_partner(nu as int, c0[nu as int] as int));
                assert(before == old(self).state@);
                assert(self.state@ == exchanged(old(self).state@, j as int, nu + 1));
                let ghost d = nu as int;
                assert(0 <= d < old(self).arrangement().len() - 1 && is_step_depth(
                    old(self).counters(),
                    d,
                ) && heap_partner(d, old(self).counters()[d] as int) < d + 1
                    && self.arrangement() == exchanged(
                    old(self).arrangement(),
                    heap_partner(d, old(self).counters()[d] as int),
                    d + 1,
                ) && self.counters() == counters_after_step(old(self).counters(), d)
                    && self.depth() == 0);
                proof {
                    lemma_digits_reset(cur, c0, nu as nat, m);
                    lemma_digits_increment(cur, nu as int, (c + 1) as u8, m);
                    lemma_digits_bounds(self.counter@, m);
                }
                return Some(copy_of(self.state.as_slice()));
            } else {
                assert(c0[nu as int] == nu + 1);
                self.counter[nu] = 0;
                self.n = self.n + 1;
            }
        }
        proof {
            lemma_digits_max(c0, m);
        }
        None
    }

    /// `(0, Some(0))` for an empty arrangement; else `(1, c)` with `c` the
    /// number of distinct arrangements of its elements, `None` when `n!`
    /// exceeds `usize::MAX`.
    pub fn size_hint(&self) -> (h: (usize, Option<usize>))
        ensures
            self.arrangement().len() == 0 ==> h == (0usize, Some(0usize)),
            self.arrangement().len() > 0 ==> h.0 == 1 && (h.1 is Some <==> fact(
                self.arrangement().len(),
            ) <= usize::MAX) && (h.1 matches Some(c) ==> c == mset_permutations(
                self.arrangement(),
            )),
    {
        if self.state.len() == 0 {
            (0, Some(0))
        } else {
            (1, checked_permute_mset(&self.state))
        }
    }
}

/// A vector of `len` zeros.
fn zeros(len: usize) -> (v: Vec<u8>)
    ensures
        v@.len() == len,
        forall|i: int| 0 <= i < len ==> v@[i] == 0,
{
    let mut v: Vec<u8> = Vec::new();
    let mut i: usize = 0;
    while i < len
        invariant
            i <= len,
            v@.len() == i,
            forall|k: int| 0 <= k < i ==> v@[k] == 0,
        decreases len - i,
    {
        v.push(0);
        i = i + 1;
    }
    v
}

} // verus!
