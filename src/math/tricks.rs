//! Closed forms of power sums.
use vstd::prelude::*;

verus! {

/// `1^e + 2^e + ... + n^e`
pub open spec fn power_sum(n: nat, e: nat) -> int
    decreases n,
{
    if n == 0 {
        0
    } else {
        power_sum((n - 1) as nat, e) + crate::math::count::power(n as int, e)
    }
}

/// `2 (1 + ... + n) = n (n + 1)`
pub proof fn lemma_sum(n: nat)
    ensures
        2 * power_sum(n, 1) == n * (n + 1),
    decreases n,
{
    if n > 0 {
        lemma_sum((n - 1) as nat);
        assert(crate::math::count::power(n as int, 1) == n) by {
            assert(crate::math::count::power(n as int, 0) == 1);
        }
        assert(2 * power_sum((n - 1) as nat, 1) + 2 * n == n * (n + 1)) by (nonlinear_arith)
            requires
                2 * power_sum((n - 1) as nat, 1) == (n - 1) * n,
        ;
    }
}

/// `6 (1^2 + ... + n^2) = n (n + 1) (2n + 1)`
pub proof fn lemma_squared_sum(n: nat)
    ensures
        6 * power_sum(n, 2) == n * (n + 1) * (2 * n + 1),
    decreases n,
{
    if n > 0 {
        lemma_squared_sum((n - 1) as nat);
        assert(crate::math::count::power(n as int, 2) == n * n) by {
            assert(crate::math::count::power(n as int, 0) == 1);
            assert(crate::math::count::power(n as int, 1) == n);
        }
        assert(6 * power_sum((n - 1) as nat, 2) + 6 * (n * n) == n * (n + 1) * (2 * n + 1))
            by (nonlinear_arith)
            requires
                6 * power_sum((n - 1) as nat, 2) == (n - 1) * n * (2 * (n - 1) + 1),
        ;
    }
}

/// `4 (1^3 + ... + n^3) = n^2 (n + 1)^2`
pub proof fn lemma_cubed_sum(n: nat)
    ensures
        4 * power_sum(n, 3) == (n * n) * ((n + 1) * (n + 1)),
    decreases n,
{
    if n > 0 {
        lemma_cubed_sum((n - 1) as nat);
        assert(crate::math::count::power(n as int, 3) == n * n * n) by {
            assert(crate::math::count::power(n as int, 0) == 1);
            assert(crate::math::count::power(n as int, 1) == n);
            assert(crate::math::count::power(n as int, 2) == n * n);
        }
        let m = (n - 1) as nat;
        assert(power_sum(n, 3) == power_sum(m, 3) + n * n * n);
        let p = power_sum(m, 3);
        let q = n * n;
        assert(4 * (n * n * n) == 4 * n * q) by (nonlinear_arith)
            requires
                q == n * n,
        ;
        assert(m * m + 4 * n == (n + 1) * (n + 1)) by (nonlinear_arith)
            requires
                m + 1 == n,
        ;
        assert(4 * p + 4 * n * q == q * (m * m + 4 * n)) by (nonlinear_arith)
            requires
                4 * p == (m * m) * ((m + 1) * (m + 1)),
                m + 1 == n,
                q == n * n,
        ;
        assert(4 * power_sum(n, 3) == 4 * p + 4 * n * q);
        assert(4 * power_sum(n, 3) == q * ((n + 1) * (n + 1)));
    } else {
        assert(power_sum(n, 3) == 0);
        assert((n * n) * ((n + 1) * (n + 1)) == 0) by (nonlinear_arith)
            requires
                n == 0,
        ;
    }
}

/// Sum of the first `n` natural numbers.
pub fn n_sum(n: usize) -> (s: usize)
    requires
        n * (n + 1) <= usize::MAX,
    ensures
        s == power_sum(n as nat, 1),
{
    proof {
        lemma_sum(n as nat);
        assert(n + 1 <= usize::MAX) by (nonlinear_arith)
            requires
                n * (n + 1) <= usize::MAX,
        ;
    }
    (n * (n + 1)) / 2
}

/// Sum of the squares of the first `n` natural numbers.
pub fn n_squared_sum(n: usize) -> (s: usize)
    requires
        n * (n + 1) * (2 * n + 1) <= usize::MAX,
    ensures
        s == power_sum(n as nat, 2),
{
    if n == 0 {
        return 0;
    }
    proof {
        lemma_squared_sum(n as nat);
        assert(n * (n + 1) <= usize::MAX && 2 * n + 1 <= usize::MAX && n + 1 <= usize::MAX)
            by (nonlinear_arith)
            requires
                n * (n + 1) * (2 * n + 1) <= usize::MAX,
                n >= 1,
        ;
    }
    (n * (n + 1) * ((2 * n) + 1)) / 6
}

/// Sum of the cubes of the first `n` natural numbers.
pub fn n_cubed_sum(n: usize) -> (s: usize)
    requires
        (n * n) * ((n + 1) * (n + 1)) <= usize::MAX,
    ensures
        s == power_sum(n as nat, 3),
{
    if n == 0 {
        return 0;
    }
    proof {
        lemma_cubed_sum(n as nat);
        assert(n * n <= usize::MAX && (n + 1) * (n + 1) <= usize::MAX && n + 1 <= usize::MAX)
            by (nonlinear_arith)
            requires
                (n * n) * ((n + 1) * (n + 1)) <= usize::MAX,
                n >= 1,
        ;
    }
    ((n * n) * ((n + 1) * (n + 1))) / 4
}

} // verus!
