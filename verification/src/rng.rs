//! Trusted boundary to the `rand` crate: the random source that generation
//! and mutation draw from.

use vstd::prelude::*;

use rand::Rng;
use rand::SeedableRng;

verus! {

/// rand's small, fast pseudo-random generator; opaque to verification.
#[verifier::external_type_specification]
#[verifier::external_body]
pub struct ExSmallRng(rand::rngs::SmallRng);

/// Relies on rand's `SmallRng::from_entropy`: seeds a fresh generator from the
/// operating system's entropy source. Nothing is promised of its state.
#[verifier::external_body]
pub(crate) fn fresh_small_rng() -> rand::rngs::SmallRng {
    rand::rngs::SmallRng::from_entropy()
}

/// Relies on rand's `Uniform` distribution: a sample drawn from
/// `Uniform::from(0..n)` lies in `[0, n)`. `Uniform::from` panics on an empty
/// range, so `n` must be positive.
#[verifier::external_body]
pub(crate) fn draw_below(rgen: &mut rand::rngs::SmallRng, n: usize) -> (r: usize)
    requires
        1 <= n,
    ensures
        r < n,
{
    rgen.sample(rand::distributions::Uniform::from(0..n))
}

} // verus!
