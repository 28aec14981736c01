//! The source of randomness: the thread-local generator of the `rand` crate.

use vstd::prelude::*;

verus! {

/// The handle to `rand`'s thread-local generator. Nothing is known of its
/// state.
#[verifier::external_type_specification]
#[verifier::external_body]
pub struct ExThreadRng(rand::rngs::ThreadRng);

/// Calls `rand::thread_rng`, which hands out the handle to the calling
/// thread's generator. Nothing is claimed of the handle. The call panics
/// only if the operating system cannot seed the generator.
#[verifier::external_body]
pub(crate) fn thread_rng() -> (rng: rand::rngs::ThreadRng) {
    rand::thread_rng()
}

/// Calls `rand::Rng::gen` for a `usize`. Nothing is claimed of the number
/// drawn: every `usize` is a possible result, and two calls may differ.
/// The call panics only if the generator is due for fresh entropy and the
/// operating system gives none.
#[verifier::external_body]
pub(crate) fn draw(rng: &mut rand::rngs::ThreadRng) -> (n: usize) {
    rand::Rng::gen::<usize>(rng)
}

} // verus!
