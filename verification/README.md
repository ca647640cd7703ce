# obscura

Lattice-based credential authorization with Merkle membership proofs and
scope-bound nullifiers, verified with Verus.

A credential is a Module-LWE key pair `b = A s + e` over
`R_q = Z_q[X] / (X^256 + 1)`. The public key is committed into a SHAKE-256
Merkle tree; a prover shows knowledge of the short secret with a
Fiat-Shamir proof that binds the commitment, an authenticated root, a
verifier-chosen scope and a nullifier.

## Layout

- `src/ring.rs` — the mathematical model of `R_q`: negacyclic convolution,
  its commutativity and associativity, congruences modulo `q`.
- `src/poly.rs`, `src/sample.rs` — polynomials, vectors and matrices, their
  arithmetic, encodings and samplers.
- `src/shake.rs`, `src/random.rs` — SHAKE-256 and the random generator, the
  two places where outside code is called.
- `src/mlwe.rs` — parameters, key generation, commitments, challenges.
- `src/tree.rs` — the Merkle authorization set and inclusion proofs.
- `src/witness.rs` — the JSON text of the encrypted witness bundle; only
  its canonical compact spelling is accepted.
- `src/zk_auth.rs` — proof generation and verification, and the proof that
  every honestly generated proof verifies.
- `src/protocol.rs` — the application-facing API.
- `app/` — the command-line simulator and the JSON encodings of proofs.
- `tests/` — executable tests.
