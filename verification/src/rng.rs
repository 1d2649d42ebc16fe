//! The randomness source of the permutation test. Each request builds its
//! own generator, so trials stay independent across concurrent requests, and
//! a fixed seed reproduces a run exactly.

use vstd::prelude::*;

verus! {

#[verifier::external_type_specification]
#[verifier::external_body]
pub struct ExStdRng(rand::rngs::StdRng);

/// A random source for sampling without replacement. Nothing is assumed
/// about its output beyond the bounds each drawing function states.
pub struct SimRng {
    pub inner: rand::rngs::StdRng,
}

/// Relies on rand's `StdRng::seed_from_u64`: builds a generator from a seed,
/// deterministically.
#[verifier::external_body]
pub fn seed_rng(seed: u64) -> (r: SimRng) {
    SimRng { inner: <rand::rngs::StdRng as rand::SeedableRng>::seed_from_u64(seed) }
}

/// Relies on rand's `Rng::random_range` over `0..bound`: returns a value
/// below the bound; it panics only on an empty range, which the
/// precondition rules out.
#[verifier::external_body]
pub fn rng_below(rng: &mut SimRng, bound: usize) -> (r: usize)
    requires
        bound >= 1,
    ensures
        r < bound,
{
    rand::Rng::random_range(&mut rng.inner, 0..bound)
}

} // verus!
