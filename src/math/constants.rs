//! Errors of the numeric approximations.
use vstd::prelude::*;

verus! {

/// A division by zero in an approximation.
#[derive(Debug)]
pub struct DivErr;

} // verus!
