//! The random number source.
//!
//! Randomness comes from the outside: a ChaCha20 generator owned by the
//! caller.  Nothing is ever assumed about the values it yields; every
//! contract downstream holds for every outcome.

use vstd::prelude::*;

verus! {

#[verifier::external_type_specification]
#[verifier::external_body]
pub struct ExChaCha20Rng(rand_chacha::ChaCha20Rng);

/// Relies on rand_core's `RngCore::next_u32` through rand_chacha's ChaCha20
/// generator, for one draw; nothing is promised of the value.
#[verifier::external_body]
pub(crate) fn next_u32(rng: &mut rand_chacha::ChaCha20Rng) -> u32 {
    rand::RngCore::next_u32(rng)
}

/// A draw below `n`, as the remainder of one 32-bit draw.
pub fn next_below(rng: &mut rand_chacha::ChaCha20Rng, n: u32) -> (r: u32)
    requires
        n >= 1,
    ensures
        r < n,
{
    next_u32(rng) % n
}

} // verus!
