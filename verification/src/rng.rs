//! Random number generation behind trusted wrappers.
//!
//! Mine placement is driven by rand_chacha's ChaCha8 generator, keyed on a
//! 64-bit seed; when no seed is supplied, one is drawn from the machine's
//! entropy through rand. Verification sees only the contracts stated here:
//! a drawn index is below its bound, and nothing more is assumed of the
//! stream.

use vstd::prelude::*;
use rand::Rng;
use rand_chacha::ChaCha8Rng;
use rand_chacha::rand_core::SeedableRng;

verus! {

/// rand_chacha's ChaCha8 generator, opaque to verification.
#[verifier::external_type_specification]
#[verifier::external_body]
pub struct ExChaCha8Rng(ChaCha8Rng);

/// Relies on rand::random::<u64>: draws a seed from the thread's
/// nondeterministic generator; nothing is promised of the value.
#[verifier::external_body]
pub(crate) fn random_seed() -> u64 {
    rand::random::<u64>()
}

/// Relies on ChaCha8Rng::seed_from_u64 (rand_core's SeedableRng): builds a
/// deterministic generator keyed on the given seed.
#[verifier::external_body]
pub(crate) fn seed_rng(seed: u64) -> ChaCha8Rng {
    ChaCha8Rng::seed_from_u64(seed)
}

/// Relies on Rng::gen_range over the half-open range `0..bound`: the drawn
/// value is uniform below `bound`; the empty range, on which gen_range
/// panics, is excluded by the precondition.
#[verifier::external_body]
pub(crate) fn rng_below(rng: &mut ChaCha8Rng, bound: usize) -> (r: usize)
    requires
        bound >= 1,
    ensures
        r < bound,
{
    rng.gen_range(0..bound)
}

} // verus!
