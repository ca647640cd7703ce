//! Access to the caller's random number generator.
//!
//! Randomness enters the library only as bytes drawn here; every function that
//! turns those bytes into protocol values is verified separately and holds for
//! every possible draw.

use vstd::prelude::*;
use rand::RngCore;
use rand::rngs::StdRng;

verus! {

/// Declares `rand::rngs::StdRng`, the cryptographically secure generator
/// used by the sampling functions, as an opaque type: nothing about its state
/// is visible to proofs.
#[verifier::external_type_specification]
#[verifier::external_body]
pub struct ExStdRng(StdRng);

/// Calls `rand::RngCore::fill_bytes` on `rng` for a fresh buffer of `len`
/// bytes. Nothing is claimed about the bytes but their number, since they
/// depend on the generator's state.
#[verifier::external_body]
pub(crate) fn random_bytes(rng: &mut StdRng, len: usize) -> (out: Vec<u8>)
    ensures
        out@.len() == len,
{
    let mut out = vec![0u8; len];
    rng.fill_bytes(&mut out);
    out
}

} // verus!
