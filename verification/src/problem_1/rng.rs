//! The one source of randomness.

use rand::Rng;
use vstd::prelude::*;

verus! {

/// `rand::rng().random_range(0..bound)`: a number drawn from `0..bound` by
/// the thread-local generator. The range must not be empty. Two calls may
/// differ, so nothing but the range is claimed.
#[verifier::external_body]
pub(crate) fn random_below(bound: usize) -> (drawn: usize)
    requires
        bound > 0,
    ensures
        drawn < bound,
{
    rand::rng().random_range(0..bound)
}

} // verus!
