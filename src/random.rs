//! The seeded random source that drives level generation.

use rand::Rng;
use rand::SeedableRng;
use rand_chacha::ChaCha20Rng;
use vstd::prelude::*;

verus! {

/// rand_chacha's ChaCha20 generator, carried through opaque.
#[verifier::external_type_specification]
#[verifier::external_body]
pub struct ExChaCha20Rng(ChaCha20Rng);

/// Relies on rand's `Rng::gen_range`: on a non-empty half-open range it
/// returns a value inside that range (it panics only on an empty one).
#[verifier::external_body]
pub(crate) fn draw_range(rng: &mut ChaCha20Rng, low: i128, high: i128) -> (r: i128)
    requires
        low < high,
    ensures
        low <= r < high,
{
    rng.gen_range(low..high)
}

/// Relies on rand_core's `SeedableRng::seed_from_u64`, which builds the
/// generator from the seed alone.
#[verifier::external_body]
fn seeded(seed: u64) -> ChaCha20Rng {
    ChaCha20Rng::seed_from_u64(seed)
}

/// A random stream seeded once, so that a whole generation run can be
/// replayed from its seed.
pub struct RandomDeterministic {
    pub random: ChaCha20Rng,
    pub seed: u64,
}

impl RandomDeterministic {
    /// The stream that `seed` starts.
    pub fn new(seed: u64) -> (r: Self)
        ensures
            r.seed == seed,
    {
        RandomDeterministic { random: seeded(seed), seed }
    }
}

} // verus!
