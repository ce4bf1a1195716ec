use vstd::prelude::*;
use rand::rngs::StdRng;
use rand::{Rng, RngCore};

verus! {

/// The seedable generator that drives the randomized searches.
#[verifier::external_type_specification]
#[verifier::external_body]
pub struct ExStdRng(rand::rngs::StdRng);

/// Relies on rand's `RngCore::next_u32` for `StdRng`: any 32-bit value.
#[verifier::external_body]
pub(crate) fn next_u32(rng: &mut StdRng) -> (r: u32) {
    rng.next_u32()
}

/// Relies on rand's `Rng::gen::<usize>` for `StdRng`: any `usize`.
#[verifier::external_body]
pub(crate) fn gen_usize(rng: &mut StdRng) -> (r: usize) {
    rng.gen::<usize>()
}

} // verus!
