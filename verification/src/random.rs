//! The random draws of the engine, taken from the `rand` crate.
//!
//! Nothing here is proved: each function hands one call to `rand`, and its
//! contract states only what holds of every outcome of that call.

use rand::seq::SliceRandom;
use rand::Rng;
use vstd::prelude::*;

verus! {

/// The thread-local generator of `rand`. Its state is opaque here.
#[verifier::external_type_specification]
#[verifier::external_body]
pub struct ExThreadRng(rand::rngs::ThreadRng);

/// Calls `rand::rng`, which hands out the generator of the current thread.
/// Nothing is claimed of it.
#[verifier::external_body]
pub(crate) fn thread_rng() -> (rng: rand::rngs::ThreadRng) {
    rand::rng()
}

/// Calls `Rng::random_range` on the half-open range `0..bound`, which
/// panics on an empty range and otherwise returns a value inside it. The
/// contract claims only that the result is below `bound`.
#[verifier::external_body]
pub(crate) fn random_below(rng: &mut rand::rngs::ThreadRng, bound: u64) -> (drawn: u64)
    requires
        bound > 0,
    ensures
        drawn < bound,
{
    rng.random_range(0..bound)
}

/// Calls `Rng::random_ratio`, which panics when the denominator is zero or
/// smaller than the numerator and otherwise returns `true` with the
/// probability `numerator / denominator`. Nothing is claimed of the result.
#[verifier::external_body]
pub(crate) fn random_ratio(rng: &mut rand::rngs::ThreadRng, numerator: u32, denominator: u32) -> (hit:
    bool)
    requires
        0 < denominator,
        numerator <= denominator,
{
    rng.random_ratio(numerator, denominator)
}

/// Calls `Rng::random` for a `bool`: a fair coin. Nothing is claimed of the
/// result.
#[verifier::external_body]
pub(crate) fn coin_flip(rng: &mut rand::rngs::ThreadRng) -> (heads: bool) {
    rng.random()
}

/// Calls `SliceRandom::shuffle`, which reorders the slice in place by
/// swapping its elements. The contract claims that the result holds the same
/// elements, each as often as before.
#[verifier::external_body]
pub(crate) fn shuffle<T>(rng: &mut rand::rngs::ThreadRng, items: &mut Vec<T>)
    ensures
        final(items)@.to_multiset() == old(items)@.to_multiset(),
{
    items.shuffle(rng)
}

} // verus!
