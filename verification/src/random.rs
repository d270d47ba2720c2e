//! Randomness: an explicit, seeded generator threaded through every
//! sampling function, so renders are reproducible given a seed.

use vstd::prelude::*;
use rand::rngs::StdRng;

verus! {

use crate::SCALE;

#[verifier::external_type_specification]
#[verifier::external_body]
pub struct ExStdRng(StdRng);

/// Relies on rand's `SeedableRng::seed_from_u64` for `StdRng`: builds a
/// generator from a 64-bit seed.
#[verifier::external_body]
pub fn rng_from_seed(seed: u64) -> StdRng {
    <StdRng as rand::SeedableRng>::seed_from_u64(seed)
}

/// Relies on rand's `RngCore::next_u64` for `StdRng`: the generator's next
/// 64-bit output. Nothing is assumed of the value.
#[verifier::external_body]
pub fn rng_next(rng: &mut StdRng) -> u64 {
    rand::RngCore::next_u64(rng)
}

/// A uniform fixed-point draw in `[0, 1)`.
pub fn next_unit(rng: &mut StdRng) -> (r: i64)
    ensures
        0 <= r < SCALE,
{
    let raw = rng_next(rng);
    (raw % (SCALE as u64)) as i64
}

/// A uniform fixed-point draw in `[-1, 1)`: `2u - 1` for a unit draw `u`.
pub fn next_symmetric(rng: &mut StdRng) -> (r: i64)
    ensures
        -SCALE <= r < SCALE,
{
    2 * next_unit(rng) - SCALE
}

} // verus!
