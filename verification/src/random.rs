//! Trusted access to the `rand` crate: the engine's only source of randomness.

use vstd::prelude::*;

verus! {

/// `rand::rngs::ThreadRng`, declared so that the engine can hold the
/// thread-local generator that `prepare_mines` draws from.
#[verifier::external_type_specification]
#[verifier::external_body]
pub struct ExThreadRng(rand::rngs::ThreadRng);

/// Relies on `rand::thread_rng`: hands back the thread-local generator.
/// Nothing is assumed about the values it will produce.
#[verifier::external_body]
pub fn fresh_rng() -> rand::rngs::ThreadRng {
    rand::thread_rng()
}

/// Relies on `rand::Rng::gen_range(0, bound)`: draws a value uniformly from
/// `[0, bound)`. It panics on an empty range, so a positive `bound` is
/// required; only the upper bound is assumed of the result.
#[verifier::external_body]
pub fn gen_below<R: rand::Rng>(rng: &mut R, bound: u8) -> (r: u8)
    requires
        bound > 0,
    ensures
        r < bound,
{
    rng.gen_range(0, bound)
}

} // verus!
