//! The sampler's source of randomness.

use vstd::prelude::*;

verus! {

/// Relies on `rand::random_range`: a value drawn from `0..n` with the
/// thread-local generator lies below `n`. Nothing more is claimed of the
/// draw; callers state what holds of every outcome.
#[verifier::external_body]
pub(crate) fn random_below(n: u64) -> (r: u64)
    requires
        n > 0,
    ensures
        r < n,
{
    rand::random_range(0..n)
}

} // verus!
