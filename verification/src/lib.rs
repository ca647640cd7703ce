//! Lattice-based credential authorization with Merkle membership proofs and
//! scope-bound nullifiers.
//!
//! [`ring`] is the mathematical model of `R_q = Z_q[X] / (X^256 + 1)` and
//! [`poly`] its executable arithmetic, with [`sample`] drawing polynomials
//! from random bytes. [`mlwe`] builds public parameters and credential key
//! material, [`tree`] maintains the Merkle authorization set, [`witness`]
//! encodes the hidden witness bundle, and [`zk_auth`] contains the
//! Fiat-Shamir-style proof relation together with its completeness proof.
//! [`protocol`] exposes the high-level API used by applications, and
//! [`error`] the shared error taxonomy. SHAKE-256 ([`shake`]) and the random
//! generator ([`random`]) are the only outside code the library calls.

pub mod error;
pub mod random;
pub mod shake;
pub mod poly;
pub mod ring;
pub mod sample;
pub mod domain;
pub mod mlwe;
pub mod zk_auth;
pub mod tree;
pub mod witness;
pub mod protocol;
