//! Calls into `rand` for the programs that draw random numbers.
use vstd::prelude::*;
use rand::Rng;

verus! {

/// `rand::rngs::ThreadRng`, the thread-local generator handed out by `rand::rng()`.
/// Its state is opaque here: only the ranges of its draws are stated.
#[verifier::external_type_specification]
#[verifier::external_body]
pub struct ExThreadRng(rand::rngs::ThreadRng);

/// Calls `rand::rng()`. Nothing is stated of the generator it returns.
#[verifier::external_body]
pub(crate) fn thread_rng() -> rand::rngs::ThreadRng {
    rand::rng()
}

/// Calls `Rng::random_range` with the half-open `i32` range `low..high`.
/// `rand` asserts that the range is not empty (so `low < high` is required)
/// and returns a value inside it; which value comes out is left to chance.
#[verifier::external_body]
pub(crate) fn random_i32_in(rng: &mut rand::rngs::ThreadRng, low: i32, high: i32) -> (r: i32)
    requires
        low < high,
    ensures
        low <= r < high,
{
    rng.random_range(low..high)
}

/// Calls `Rng::random_range` with the inclusive `u64` range `low..=high`.
/// `rand` asserts that the range is not empty (so `low <= high` is required)
/// and returns a value inside it; which value comes out is left to chance.
#[verifier::external_body]
pub(crate) fn random_u64_between(rng: &mut rand::rngs::ThreadRng, low: u64, high: u64) -> (r: u64)
    requires
        low <= high,
    ensures
        low <= r <= high,
{
    rng.random_range(low..=high)
}

} // verus!
