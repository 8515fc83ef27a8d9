//! Trusted boundary to the pseudorandom generator.
//!
//! The optimizer draws from `rand_pcg::Mcg128Xsl64` (pcg64_fast). Nothing
//! is promised of the values drawn: every decision the engine makes is
//! verified for every possible outcome of a draw.

use rand::RngCore;
use vstd::prelude::*;

verus! {

#[verifier::external_type_specification]
#[verifier::external_body]
pub struct ExMcg128Xsl64(rand_pcg::Mcg128Xsl64);

/// Relies on rand_pcg::Mcg128Xsl64::new: builds the generator from a seed.
#[verifier::external_body]
pub fn rng_new(seed: u128) -> rand_pcg::Mcg128Xsl64 {
    rand_pcg::Mcg128Xsl64::new(seed)
}

/// Relies on rand_core's RngCore::next_u32 for Mcg128Xsl64; nothing is
/// promised of the value drawn.
#[verifier::external_body]
pub fn rng_next_u32(rng: &mut rand_pcg::Mcg128Xsl64) -> u32 {
    rng.next_u32()
}

/// Relies on rand_core's RngCore::next_u64 for Mcg128Xsl64; nothing is
/// promised of the value drawn.
#[verifier::external_body]
pub fn rng_next_u64(rng: &mut rand_pcg::Mcg128Xsl64) -> u64 {
    rng.next_u64()
}

} // verus!
