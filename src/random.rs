//! The random source consumed by tour construction.
use rand::rngs::StdRng;
use rand::{Rng, SeedableRng};
use vstd::prelude::*;

verus! {

#[verifier::external_type_specification]
#[verifier::external_body]
pub struct ExStdRng(StdRng);

/// Relies on rand's `SeedableRng::seed_from_u64` for `StdRng`: a generator
/// whose whole output is fixed by the seed.
#[verifier::external_body]
fn seeded_rng(seed: u64) -> StdRng {
    StdRng::seed_from_u64(seed)
}

/// Relies on rand's `Rng::random_range` on the half-open range `0..bound`,
/// which panics only on an empty range: a value below `bound`.
#[verifier::external_body]
fn draw_below(rng: &mut StdRng, bound: u128) -> (r: u128)
    requires
        bound > 0,
    ensures
        r < bound,
{
    rng.random_range(0..bound)
}

/// A seeded source of uniform integer draws.
pub struct RandomSource {
    rng: StdRng,
}

impl RandomSource {
    /// A source whose draws are determined by `seed`.
    pub fn seeded(seed: u64) -> (r: RandomSource) {
        RandomSource { rng: seeded_rng(seed) }
    }

    /// A uniform draw from `0..bound`.
    pub fn below(&mut self, bound: u128) -> (r: u128)
        requires
            bound > 0,
        ensures
            r < bound,
    {
        draw_below(&mut self.rng, bound)
    }
}

} // verus!
