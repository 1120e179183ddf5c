//! The random number generator behind puzzle generation and the sampled
//! search bounds.

use vstd::prelude::*;
use rand::{RngExt, SeedableRng};
use rand::rngs::SmallRng;

verus! {

#[verifier::external_type_specification]
#[verifier::external_body]
pub struct ExSmallRng(SmallRng);

/// A generator seeded with `seed` (rand's `SeedableRng::seed_from_u64`).
/// Nothing is claimed of the numbers it will produce.
#[verifier::external_body]
pub(crate) fn seeded_rng(seed: u64) -> (r: SmallRng) {
    SmallRng::seed_from_u64(seed)
}

/// Draw a number in `0..bound` from `rng` (rand's `RngExt::random_range`
/// on `0..bound`). The contract claims only that the number lies in range.
#[verifier::external_body]
pub(crate) fn random_below(rng: &mut SmallRng, bound: usize) -> (r: usize)
    requires
        bound > 0,
    ensures
        r < bound,
{
    rng.random_range(0..bound)
}

} // verus!
