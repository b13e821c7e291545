//! The random number generator behind layer assignment.
//!
//! The generator is owned by each graph instance and seeded at
//! construction; a fixed seed makes a graph deterministic for tests.
//! Nothing is assumed about the values drawn.

use vstd::prelude::*;

verus! {

/// The `rand` crate's standard generator, opaque to the verifier.
#[verifier::external_type_specification]
#[verifier::external_body]
pub struct ExStdRng(rand::rngs::StdRng);

/// Relies on `rand::SeedableRng::from_entropy`: a fresh generator
/// seeded from the operating system's entropy source.  Panics only if
/// that source fails — an environmental fault, like running out of
/// memory, that no input can avoid.
#[verifier::external_body]
pub fn rng_from_entropy() -> rand::rngs::StdRng {
    <rand::rngs::StdRng as rand::SeedableRng>::from_entropy()
}

/// Relies on `rand::SeedableRng::seed_from_u64`: a generator
/// deterministically derived from the given seed.
#[verifier::external_body]
pub fn rng_from_seed(seed: u64) -> rand::rngs::StdRng {
    <rand::rngs::StdRng as rand::SeedableRng>::seed_from_u64(seed)
}

/// Relies on `rand::RngCore::next_u64`: the stream's next value, of
/// which nothing is promised.
#[verifier::external_body]
pub fn next_random(rng: &mut rand::rngs::StdRng) -> u64 {
    rand::RngCore::next_u64(rng)
}

} // verus!
