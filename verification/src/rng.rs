//! The process-global source of randomness, wrapped so that every verified
//! caller receives a plain bounded integer.

use vstd::prelude::*;
use rand::RngExt;

verus! {

/// Relies on `rand::rng` and `Rng::random_range`: a sample from the
/// thread-local generator, uniformly distributed over `[lo, hi)`; nothing
/// more is promised of which value comes back.
#[verifier::external_body]
pub fn random_in_range(lo: i64, hi: i64) -> (r: i64)
    requires
        lo < hi,
    ensures
        lo <= r < hi,
{
    rand::rng().random_range(lo..hi)
}

} // verus!
