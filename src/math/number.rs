//! Number theory helpers.
use vstd::prelude::*;
use crate::math::count::fact;

verus! {

/// Factorial function for calculating `n!` for some `n`.
pub fn fac(n: usize) -> (r: usize)
    requires
        fact(n as nat) <= usize::MAX,
    ensures
        r == fact(n as nat),
{
    crate::math::count::fac(n)
}

} // verus!
