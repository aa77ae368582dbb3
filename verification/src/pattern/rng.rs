//! The random source of the shuffles.

use vstd::prelude::*;

use rand::rngs::SmallRng;
use rand::Rng;

verus! {

/// rand's small, fast generator, seeded by the caller.
#[verifier::external_type_specification]
#[verifier::external_body]
pub struct ExSmallRng(SmallRng);

/// Draws a number from `lo..hi` with rand's `Rng::random_range`.
/// Claimed: the number lies in the range, which is not empty. Not claimed: which
/// number comes out, which depends on the state of the generator.
#[verifier::external_body]
pub(crate) fn random_range(rng: &mut SmallRng, lo: usize, hi: usize) -> (r: usize)
    requires
        lo < hi,
    ensures
        lo <= r < hi,
{
    rng.random_range(lo..hi)
}

} // verus!
