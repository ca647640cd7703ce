//! Error taxonomy for protocol operations.
//!
//! The variants separate structural failures from verification failures so
//! that callers can distinguish malformed input, empty authorization sets and
//! failed cryptographic checks. No variant carries secret key material.

use vstd::prelude::*;

verus! {

/// Error type returned by fallible APIs.
#[derive(Debug, Clone, PartialEq, Eq)]
pub enum ProtocolError {
    /// The Merkle tree contains no leaves.
    EmptyTree,
    /// The requested leaf index is out of bounds.
    InvalidLeafIndex { index: usize, total_leaves: usize },
    /// Internal failure during tree construction.
    TreeConstructionFailure { reason: String },
    /// The prover could not generate a valid proof.
    ProofGenerationFailure { reason: String },
    /// The Merkle inclusion witness is malformed.
    InvalidWitness,
    /// The commitment does not match the expected hash.
    CommitmentMismatch,
    /// The proof failed lattice-based verification.
    InvalidProof,
    /// The Merkle root embedded in the proof does not match.
    RootMismatch,
    /// The server-issued challenge scope is invalid.
    ChallengeFailure,
    /// The response vector norm exceeds the rejection bound.
    NormBoundExceeded,
    /// Proof serialization or deserialization failed.
    SerializationError { reason: String },
    /// A low-level cryptographic operation failed.
    CryptoError { reason: String },
}

} // verus!
