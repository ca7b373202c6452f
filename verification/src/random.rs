//! The random numbers that the board draws, from the thread's generator of
//! the `rand` crate. Nothing here is proved: each item states what the crate's
//! documentation promises of the function that it stands for.

use vstd::prelude::*;
use rand::rngs::ThreadRng;
use rand::Rng;

verus! {

/// `rand::rngs::ThreadRng`, the handle to the generator of the calling thread.
/// Its state is not modelled.
#[verifier::external_type_specification]
#[verifier::external_body]
pub struct ExThreadRng(rand::rngs::ThreadRng);

/// `rand::thread_rng` returns the handle to the calling thread's generator.
/// Nothing is claimed of the handle. The call panics where the generator
/// cannot be seeded from the system, which no caller can rule out.
pub assume_specification[ rand::thread_rng ]() -> (rng: ThreadRng);

/// `Rng::gen` at type `bool` draws a truth value. Nothing is claimed of which.
#[verifier::external_body]
pub(crate) fn random_flag(rng: &mut ThreadRng) -> (flag: bool) {
    rng.gen()
}

/// `Rng::gen_range` on the half-open range `0..bound` draws a number that is
/// at least 0 and less than `bound`. The call panics on an empty range, hence
/// the demand that `bound` be positive.
#[verifier::external_body]
pub(crate) fn random_below(rng: &mut ThreadRng, bound: u8) -> (index: u8)
    requires
        bound > 0,
    ensures
        index < bound,
{
    rng.gen_range(0..bound)
}

} // verus!
