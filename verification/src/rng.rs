//! The pseudo-random source.
//!
//! All randomness is drawn from one seedable `rand::rngs::StdRng`, injected by
//! the caller, so that runs are reproducible for a fixed seed. Only two
//! operations are trusted; everything built on top of them is verified.

use vstd::prelude::*;

verus! {

#[verifier::external_type_specification]
#[verifier::external_body]
pub struct ExStdRng(rand::rngs::StdRng);

/// Relies on rand's `SeedableRng::seed_from_u64`: builds a generator from a
/// 64-bit seed (deterministically for a fixed rand version).
#[verifier::external_body]
pub(crate) fn rng_from_seed(seed: u64) -> (r: rand::rngs::StdRng) {
    <rand::rngs::StdRng as rand::SeedableRng>::seed_from_u64(seed)
}

/// Relies on rand's `Rng::gen_range`: returns a value drawn uniformly from
/// `0..n`. `gen_range` panics only on an empty range, which the precondition
/// rules out.
#[verifier::external_body]
pub(crate) fn rng_below(rng: &mut rand::rngs::StdRng, n: usize) -> (r: usize)
    requires
        n >= 1,
    ensures
        r < n,
{
    rand::Rng::gen_range(rng, 0..n)
}

/// A Bernoulli draw: true with probability `p_milli / 1000`.
pub(crate) fn chance(rng: &mut rand::rngs::StdRng, p_milli: u64) -> (r: bool)
    requires
        p_milli <= 1000,
{
    let d: usize = rng_below(rng, 1000);
    (d as u64) < p_milli
}

} // verus!
