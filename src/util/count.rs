//! Counting.
use vstd::prelude::*;
use crate::math::count::{binomial, binomial_fits, binomial_sum, binomial_thm_fits, fact, falling, partitions, partitions_fit};

verus! {

/// Factorial function for calculating `n!` for some `n`.
pub fn fac(n: usize) -> (r: usize)
    requires
        fact(n as nat) <= usize::MAX,
    ensures
        r == fact(n as nat),
{
    crate::math::count::fac(n)
}

/// Order matters: `n! / (n - k)! = n * (n - 1) * ... * (n - k + 1)`.
pub fn n_perm_k(n: usize, k: usize) -> (r: usize)
    requires
        k <= n,
        falling(n as nat, k as nat) <= usize::MAX,
    ensures
        r == falling(n as nat, k as nat),
{
    crate::math::count::permute(n, k)
}

/// Binomial coefficient, order does not matter:
/// `n! / (k! (n - k)!) = n * (n - 1) * ... * (n - k + 1) / k!`.
pub fn n_choose_k(n: usize, k: usize) -> (r: usize)
    requires
        k <= n,
        binomial_fits(n as nat, k as nat),
    ensures
        r == binomial(n as nat, k as nat),
{
    crate::math::count::binomial_co(n, k)
}

/// The binomial theorem, `(x + y)^n` as the sum of the terms
/// `(n choose k) x^(n - k) y^k`, summed over `k` in `0..=n`.
pub fn binomial_thm(x: usize, y: usize, n: usize) -> (s: usize)
    requires
        binomial_thm_fits(x as nat, y as nat, n as nat),
    ensures
        s == binomial_sum(x as nat, y as nat, n as nat, (n + 1) as nat),
{
    crate::math::count::binomial_thm(x, y, n)
}

/// Combinations with repetition: `(n + k - 1) choose k`.
pub fn n_multichoose_k(n: usize, k: usize) -> (r: usize)
    requires
        n >= 1,
        n - 1 + k <= usize::MAX,
        binomial_fits((n + k - 1) as nat, k as nat),
    ensures
        r == binomial((n + k - 1) as nat, k as nat),
{
    n_choose_k(n - 1 + k, k)
}

/// Theorem 2.4.3: the number of partitions of the `n` objects of `v` into
/// boxes of the sizes in `boxes`, labeled or not.
pub fn partition_count<T>(v: &[T], boxes: &[usize], labeled: bool) -> (c: usize)
    requires
        partitions_fit(v@.len(), boxes@, labeled),
    ensures
        c == partitions(v@.len(), boxes@, labeled),
{
    crate::math::count::partition_count(v, boxes, labeled)
}

} // verus!
