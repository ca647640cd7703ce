//! Fiat-Shamir-style authorization proofs over Module-LWE key material.
//!
//! A proof binds a credential commitment, a scope-bound nullifier and an
//! encrypted Merkle witness bundle into one verification statement.

use vstd::prelude::*;
use rand::rngs::StdRng;
use crate::domain::{
    challenge_domain, challenge_domain_bytes, nullifier_domain, nullifier_domain_bytes,
    witness_domain, witness_domain_bytes,
};
use crate::error::ProtocolError;
use crate::mlwe::{
    challenge_spec, commitment_hash, commitment_spec, is_ternary_seq, keygen_relation, lemma_challenge_weight,
    mat_shape_ok, nonzero_count, sample_challenge, MlweKeyPair, MlweParams,
};
use crate::poly::{
    centerable, centered, coeff_norm, inner_spec, is_canonical_seq, le24, lemma_vec_bytes_roundtrip, mat_canonical, mat_vec_ready, sub_fits, lemma_canonical_fits, lemma_mul_fits_canonical,
    lemma_mul_fits_canonical_left, matvec_spec, mints, mul_fits, norm_lt, poly_bytes, vec_bytes,
    vec_canonical, vec_decodable, vec_slot, vints, Poly, PolyMat, PolyVec, BETA, ETA, GAMMA1,
    K, N, Q, Q_HALF, TAU,
};
use crate::ring::{
    cong, conv, conv_seq, int_nonzero, ints, lemma_conv_add_left, lemma_conv_add_right,
    lemma_conv_assoc, lemma_conv_comm, lemma_conv_cong_left, lemma_conv_cong_right, lemma_conv_csum,
    lemma_cong_add, lemma_cong_canonical_eq, lemma_cong_mod, lemma_cong_refl, lemma_cong_symm, lemma_cong_trans, lemma_csum_sparse,
    ring_add, ring_mul, ring_sub, ring_zero, seq_add, seq_cong,
};
use crate::sample::{is_masking_draw, is_masking_seq, is_small_seq};
use crate::shake::{shake256_32, shake256_digest, shake256_out, shake256_xof};
use crate::tree::{inclusion_valid, path_valid, MerkleProof, MerkleTree};
use crate::witness::{
    decode_witness, encode_witness, lemma_witness_roundtrip, model_wf, witness_decode, witness_json, witness_model,
    HiddenWitness, WitnessModel,
};

verus! {

/// Nullifier of a secret key under a scope.
pub open spec fn nullifier_spec(secret_key: Seq<Seq<i64>>, scope: Seq<u8>) -> Seq<u8> {
    shake256_digest(nullifier_domain() + vec_bytes(secret_key) + scope)
}

/// Derives the nullifier for a secret key and authorization scope:
/// SHAKE-256 of the nullifier domain separator, the key encoding and the
/// scope. The same key and scope always give the same nullifier.
pub fn derive_nullifier(secret_key: &PolyVec, scope: &[u8]) -> (h: [u8; 32])
    ensures
        h@ == nullifier_spec(secret_key@, scope@),
{
    let mut msg = nullifier_domain_bytes();
    let sk_bytes = secret_key.to_bytes();
    msg.extend_from_slice(sk_bytes.as_slice());
    msg.extend_from_slice(scope);
    assert(msg@ =~= nullifier_domain() + vec_bytes(secret_key@) + scope@);
    shake256_32(msg.as_slice())
}


/// Compares two 32-byte strings by accumulating the XOR of every byte pair.
pub(crate) fn ct_eq_32(a: &[u8; 32], b: &[u8; 32]) -> (r: bool)
    ensures
        r == (a@ == b@),
{
    let mut diff: u8 = 0;
    let mut i: usize = 0;
    while i < 32
        invariant
            0 <= i <= 32,
            (diff == 0) == (forall|j: int| 0 <= j < i ==> #[trigger] a@[j] == b@[j]),
        decreases 32 - i,
    {
        let x = a[i];
        let y = b[i];
        let prev = diff;
        diff = prev | (x ^ y);
        assert((diff == 0) == (prev == 0 && x == y)) by (bit_vector)
            requires diff == prev | (x ^ y);
        assert((forall|j: int| 0 <= j < i + 1 ==> #[trigger] a@[j] == b@[j]) == ((forall|j: int| 0 <= j < i ==> #[trigger] a@[j] == b@[j]) && x == y)) by {
            if (forall|j: int| 0 <= j < i ==> #[trigger] a@[j] == b@[j]) && x == y {
                assert forall|j: int| 0 <= j < i + 1 implies #[trigger] a@[j] == b@[j] by {
                    if j < i {
                    }
                }
            }
        }
        i += 1;
    }
    assert((diff == 0) == (a@ == b@)) by {
        if diff == 0 {
            assert(a@ =~= b@);
        }
    }
    diff == 0
}


/// Upper bound on rejection-sampling attempts before proof generation fails.
pub const MAX_ATTEMPTS: u32 = 1000;

/// Lattice-based authorization proof for one credential and scope.
///
/// The public key and Merkle path travel only inside the encrypted witness
/// bundle; the nullifier is public for scope-local replay detection.
#[derive(Debug, Clone)]
pub struct AuthProof {
    /// Response vector `z = y + c * s` in `R_q^k`.
    pub z: PolyVec,
    /// Challenge polynomial with `tau` coefficients equal to `+1` or `-1`.
    pub c: Poly,
    /// Scope-bound nullifier.
    pub nullifier: [u8; 32],
    /// Commitment of the prover's public key (its Merkle leaf).
    pub commitment_hash: [u8; 32],
    /// Encoding of the transcript commitment `w = A * y`.
    pub w_bytes: Vec<u8>,
    /// Witness bundle encrypted under a transcript-bound keystream.
    pub witness_ciphertext: Vec<u8>,
}

/// Bound on the response coefficients: `gamma1 - beta`.
pub open spec fn response_bound() -> int {
    GAMMA1 - BETA
}

/// Bound on the coefficients of `A z - w - c b`: `tau * eta + 1`.
pub open spec fn relation_bound() -> int {
    TAU * ETA + 1
}

/// Fiat-Shamir seed: 64 bytes of SHAKE-256 over the challenge domain
/// separator, root, nullifier, transcript commitment and scope.
pub open spec fn challenge_seed_spec(root: Seq<u8>, nullifier: Seq<u8>, w_bytes: Seq<u8>, scope: Seq<u8>) -> Seq<u8> {
    shake256_out(challenge_domain() + root + nullifier + w_bytes + scope, 64)
}

/// Keystream seed of the witness bundle: 64 bytes of SHAKE-256 over the
/// witness domain separator and the whole public transcript.
pub open spec fn keystream_seed_spec(
    root: Seq<u8>,
    nullifier: Seq<u8>,
    commitment: Seq<u8>,
    w_bytes: Seq<u8>,
    c: Seq<i64>,
    z: Seq<Seq<i64>>,
    scope: Seq<u8>,
) -> Seq<u8> {
    shake256_out(
        witness_domain() + root + nullifier + commitment + w_bytes + poly_bytes(c) + vec_bytes(z) + scope,
        64,
    )
}

/// Bytewise XOR of `data` with the SHAKE-256 stream of `seed`.
pub open spec fn stream_cipher(data: Seq<u8>, seed: Seq<u8>) -> Seq<u8> {
    Seq::new(data.len(), |i: int| data[i] ^ shake256_out(seed, data.len())[i])
}

/// Decryption of a proof's witness bundle under a root and scope.
pub open spec fn proof_plaintext(proof: AuthProof, root: Seq<u8>, scope: Seq<u8>) -> Seq<u8> {
    stream_cipher(
        proof.witness_ciphertext@,
        keystream_seed_spec(root, proof.nullifier@, proof.commitment_hash@, proof.w_bytes@, proof.c@, proof.z@, scope),
    )
}

/// Canonical coefficients decoded from a vector encoding.
pub open spec fn vec_decode(b: Seq<u8>) -> Seq<Seq<i64>> {
    Seq::new(K as nat, |i: int| Seq::new(N as nat, |k: int| le24(vec_slot(b, i), k) as i64))
}

/// Centered magnitude of an integer coefficient in `[0, q)`.
pub open spec fn int_coeff_norm(x: int) -> int {
    let v = if x >= Q_HALF + 1 {
        x - Q
    } else {
        x
    };
    if v < 0 {
        -v
    } else {
        v
    }
}

/// Every centered coefficient magnitude is below `bound`.
pub open spec fn int_norm_lt(s: Seq<int>, bound: int) -> bool {
    forall|k: int| 0 <= k < N ==> #[trigger] int_coeff_norm(s[k]) < bound
}

/// Component `i` of `A z - w - c b` in `R_q`.
pub open spec fn relation_residue(
    a: Seq<Seq<Seq<i64>>>,
    z: Seq<Seq<i64>>,
    w: Seq<Seq<i64>>,
    c: Seq<i64>,
    b: Seq<Seq<i64>>,
    i: int,
) -> Seq<int> {
    ring_sub(ring_sub(matvec_spec(mints(a), vints(z))[i], ints(w[i])), ring_mul(ints(b[i]), ints(c)))
}

/// The outcome of verifying `proof` against parameters `a`, a root, an
/// expected nullifier and a scope. Every check must pass: the response has
/// rank `K` and short coefficients, the transcript commitment decodes, the
/// challenge is the one derived from the transcript, the witness bundle
/// decrypts to a canonical bundle whose public key satisfies the algebraic
/// relation and matches the commitment, and whose Merkle path leads from
/// that commitment to the root.
pub open spec fn verify_spec(
    a: Seq<Seq<Seq<i64>>>,
    proof: AuthProof,
    root: Seq<u8>,
    expected_nullifier: Seq<u8>,
    scope: Seq<u8>,
) -> bool {
    if proof.z@.len() != K || !vec_decodable(proof.w_bytes@) {
        false
    } else {
        match witness_decode(proof_plaintext(proof, root, scope)) {
            None => false,
            Some(m) => transcript_checks(a, proof, root, expected_nullifier, scope) && witness_checks(a, proof, root, m),
        }
    }
}

/// Checks on the public transcript: the nullifier is the expected one, the
/// response is short, and the challenge is derived from the transcript.
pub open spec fn transcript_checks(
    a: Seq<Seq<Seq<i64>>>,
    proof: AuthProof,
    root: Seq<u8>,
    expected_nullifier: Seq<u8>,
    scope: Seq<u8>,
) -> bool {
    &&& proof.nullifier@ == expected_nullifier
    &&& forall|i: int| 0 <= i < K ==> #[trigger] norm_lt(proof.z@[i], response_bound())
    &&& challenge_spec(challenge_seed_spec(root, proof.nullifier@, proof.w_bytes@, scope)) == proof.c@
}

/// Checks on the decrypted witness bundle: the algebraic relation holds for
/// its public key, the key matches the commitment, and its Merkle path leads
/// from the commitment to the root.
pub open spec fn witness_checks(a: Seq<Seq<Seq<i64>>>, proof: AuthProof, root: Seq<u8>, m: WitnessModel) -> bool {
    &&& forall|i: int|
        0 <= i < K ==> #[trigger] int_norm_lt(
            relation_residue(a, proof.z@, vec_decode(proof.w_bytes@), proof.c@, m.0, i),
            relation_bound(),
        )
    &&& commitment_spec(m.0) == proof.commitment_hash@
    &&& m.1 == proof.commitment_hash@
    &&& m.4 == root
    &&& path_valid(m.1, m.2, m.3, m.4)
}

/// Compares two polynomials by accumulating the XOR of every coefficient pair.
fn ct_eq_poly(a: &Poly, b: &Poly) -> (r: bool)
    ensures
        r == (a@ == b@),
{
    let mut diff: i64 = 0;
    let mut i: usize = 0;
    while i < N
        invariant
            0 <= i <= N,
            a@.len() == N,
            b@.len() == N,
            (diff == 0) == (forall|j: int| 0 <= j < i ==> #[trigger] a@[j] == b@[j]),
        decreases N - i,
    {
        let x = a.coeffs[i];
        let y = b.coeffs[i];
        let prev = diff;
        diff = prev | (x ^ y);
        assert((diff == 0) == (prev == 0 && x == y)) by (bit_vector)
            requires diff == prev | (x ^ y);
        assert((forall|j: int| 0 <= j < i + 1 ==> #[trigger] a@[j] == b@[j]) == ((forall|j: int| 0 <= j < i ==> #[trigger] a@[j] == b@[j]) && x == y)) by {
            if (forall|j: int| 0 <= j < i ==> #[trigger] a@[j] == b@[j]) && x == y {
                assert forall|j: int| 0 <= j < i + 1 implies #[trigger] a@[j] == b@[j] by {
                    if j < i {
                    }
                }
            }
        }
        i += 1;
    }
    assert((diff == 0) == (a@ == b@)) by {
        if diff == 0 {
            assert(a@ =~= b@);
        }
    }
    diff == 0
}

/// Computes the Fiat-Shamir seed of a transcript.
fn challenge_hash_seed(root: &[u8; 32], nullifier: &[u8; 32], w_bytes: &[u8], scope: &[u8]) -> (seed: Vec<u8>)
    ensures
        seed@ == challenge_seed_spec(root@, nullifier@, w_bytes@, scope@),
{
    let mut msg = challenge_domain_bytes();
    msg.extend_from_slice(root.as_slice());
    msg.extend_from_slice(nullifier.as_slice());
    msg.extend_from_slice(w_bytes);
    msg.extend_from_slice(scope);
    assert(msg@ =~= challenge_domain() + root@ + nullifier@ + w_bytes@ + scope@);
    shake256_xof(msg.as_slice(), 64)
}

/// Public transcript values that key the witness encryption.
struct WitnessContext<'a> {
    root: &'a [u8; 32],
    nullifier: &'a [u8; 32],
    commitment_hash: &'a [u8; 32],
    w_bytes: &'a [u8],
    c: &'a Poly,
    z: &'a PolyVec,
    scope: &'a [u8],
}

impl<'a> WitnessContext<'a> {
    spec fn seed(&self) -> Seq<u8> {
        keystream_seed_spec(
            self.root@,
            self.nullifier@,
            self.commitment_hash@,
            self.w_bytes@,
            self.c@,
            self.z@,
            self.scope@,
        )
    }
}

fn witness_keystream_seed(ctx: &WitnessContext<'_>) -> (seed: Vec<u8>)
    ensures
        seed@ == ctx.seed(),
{
    let mut msg = witness_domain_bytes();
    msg.extend_from_slice(ctx.root.as_slice());
    msg.extend_from_slice(ctx.nullifier.as_slice());
    msg.extend_from_slice(ctx.commitment_hash.as_slice());
    msg.extend_from_slice(ctx.w_bytes);
    let c_bytes = ctx.c.to_bytes();
    msg.extend_from_slice(c_bytes.as_slice());
    let z_bytes = ctx.z.to_bytes();
    msg.extend_from_slice(z_bytes.as_slice());
    msg.extend_from_slice(ctx.scope);
    assert(msg@ =~= witness_domain() + ctx.root@ + ctx.nullifier@ + ctx.commitment_hash@ + ctx.w_bytes@
        + poly_bytes(ctx.c@) + vec_bytes(ctx.z@) + ctx.scope@);
    shake256_xof(msg.as_slice(), 64)
}

/// XORs `data` with the SHAKE-256 stream of `seed`.
fn apply_witness_stream(data: &[u8], seed: &[u8]) -> (r: Vec<u8>)
    ensures
        r@ == stream_cipher(data@, seed@),
{
    let stream = shake256_xof(seed, data.len());
    let mut out: Vec<u8> = Vec::with_capacity(data.len());
    let mut i: usize = 0;
    while i < data.len()
        invariant
            0 <= i <= data@.len(),
            stream@ == shake256_out(seed@, data@.len()),
            out@.len() == i,
            forall|j: int| 0 <= j < i ==> #[trigger] out@[j] == data@[j] ^ stream@[j],
        decreases data@.len() - i,
    {
        out.push(data[i] ^ stream[i]);
        i += 1;
    }
    assert(out@ =~= stream_cipher(data@, seed@));
    out
}

fn encrypt_witness(public_key: &PolyVec, merkle_path: &MerkleProof, ctx: &WitnessContext<'_>) -> (r: Vec<u8>)
    requires
        vec_canonical(public_key@),
    ensures
        r@ == stream_cipher(witness_json(witness_model(public_key@, *merkle_path)), ctx.seed()),
{
    let encoded = encode_witness(public_key, merkle_path);
    let seed = witness_keystream_seed(ctx);
    apply_witness_stream(encoded.as_slice(), seed.as_slice())
}

fn decrypt_witness(proof: &AuthProof, root: &[u8; 32], scope: &[u8]) -> (r: Option<HiddenWitness>)
    ensures
        witness_decode(proof_plaintext(*proof, root@, scope@)) == (match r {
            Some(w) => Some(w.model()),
            None => None::<crate::witness::WitnessModel>,
        }),
        r matches Some(w) ==> vec_canonical(w.public_key@),
{
    let ctx = WitnessContext {
        root,
        nullifier: &proof.nullifier,
        commitment_hash: &proof.commitment_hash,
        w_bytes: proof.w_bytes.as_slice(),
        c: &proof.c,
        z: &proof.z,
        scope,
    };
    let seed = witness_keystream_seed(&ctx);
    let encoded = apply_witness_stream(proof.witness_ciphertext.as_slice(), seed.as_slice());
    decode_witness(encoded.as_slice())
}

proof fn lemma_norm_lt_ints(s: Seq<i64>, t: Seq<int>, bound: int)
    requires
        s.len() == N,
        t == ints(s),
    ensures
        norm_lt(s, bound) == int_norm_lt(t, bound),
{
    assert forall|k: int| 0 <= k < N implies #[trigger] coeff_norm(s[k]) == int_coeff_norm(t[k]) by {
        assert(t[k] == s[k] as int);
    }
    if norm_lt(s, bound) {
        assert forall|k: int| 0 <= k < N implies #[trigger] int_coeff_norm(t[k]) < bound by {
            assert(coeff_norm(s[k]) < bound);
        }
    }
    if int_norm_lt(t, bound) {
        assert forall|k: int| 0 <= k < N implies #[trigger] coeff_norm(s[k]) < bound by {
            assert(int_coeff_norm(t[k]) < bound);
        }
    }
}

/// Checks that every centered coefficient of `A z - w - c b` is below the
/// relation bound.
fn relation_check(a: &PolyMat, z: &PolyVec, w: &PolyVec, c: &Poly, b: &PolyVec) -> (r: bool)
    requires
        mat_vec_ready(a@, z@),
        vec_canonical(w@),
        vec_canonical(b@),
    ensures
        r == (forall|i: int| 0 <= i < K ==> #[trigger] int_norm_lt(relation_residue(a@, z@, w@, c@, b@, i), relation_bound())),
{
    let az = a.mul_vec(z);
    proof {
        assert forall|i: int| 0 <= i < b@.len() implies #[trigger] mul_fits(b@[i], c@) by {
            lemma_mul_fits_canonical_left(b@[i], c@);
        }
    }
    let cb = b.scalar_mul(c);
    proof {
        assert forall|i: int| 0 <= i < K implies #[trigger] sub_fits(az@[i], w@[i]) by {
            lemma_canonical_fits(az@[i], w@[i]);
        }
    }
    let partial = az.sub(w);
    proof {
        assert(cb.is_canonical());
        assert forall|i: int| 0 <= i < K implies #[trigger] sub_fits(partial@[i], cb@[i]) by {
            lemma_canonical_fits(partial@[i], cb@[i]);
        }
    }
    let diff = partial.sub(&cb);
    proof {
        assert forall|i: int| 0 <= i < diff@.len() implies #[trigger] centerable(diff@[i]) by {
            lemma_canonical_fits(diff@[i], diff@[i]);
        }
    }
    let diff_bound = (TAU as i64) * ETA + 1;
    let r = diff.infinity_norm_lt(diff_bound);
    proof {
        assert forall|i: int| 0 <= i < K implies #[trigger] norm_lt(diff@[i], relation_bound()) == int_norm_lt(
            relation_residue(a@, z@, w@, c@, b@, i),
            relation_bound(),
        ) by {
            assert(ints(az@[i]) == matvec_spec(mints(a@), vints(z@))[i]);
            assert(ints(partial@[i]) == ring_sub(ints(az@[i]), ints(w@[i])));
            assert(ints(cb@[i]) == ring_mul(ints(b@[i]), ints(c@)));
            assert(ints(diff@[i]) == ring_sub(ints(partial@[i]), ints(cb@[i])));
            assert(ints(diff@[i]) == relation_residue(a@, z@, w@, c@, b@, i));
            lemma_norm_lt_ints(diff@[i], relation_residue(a@, z@, w@, c@, b@, i), relation_bound());
        }
        assert(diff_bound as int == relation_bound());
        if r {
            assert forall|i: int| 0 <= i < K implies #[trigger] int_norm_lt(relation_residue(a@, z@, w@, c@, b@, i), relation_bound()) by {
                assert(norm_lt(diff@[i], relation_bound()));
            }
        }
        if forall|i: int| 0 <= i < K ==> #[trigger] int_norm_lt(relation_residue(a@, z@, w@, c@, b@, i), relation_bound()) {
            assert forall|i: int| 0 <= i < diff@.len() implies #[trigger] norm_lt(diff@[i], diff_bound as int) by {
                assert(int_norm_lt(relation_residue(a@, z@, w@, c@, b@, i), relation_bound()));
            }
        }
    }
    r
}

/// Runs the witness checks on a decrypted bundle.
fn check_witness(
    a: &PolyMat,
    proof: &AuthProof,
    transcript_commitment: &PolyVec,
    witness: &HiddenWitness,
    root: &[u8; 32],
) -> (r: bool)
    requires
        mat_vec_ready(a@, proof.z@),
        vec_canonical(transcript_commitment@),
        transcript_commitment@ == vec_decode(proof.w_bytes@),
        vec_canonical(witness.public_key@),
    ensures
        r == witness_checks(a@, *proof, root@, witness.model()),
{
    let relation_ok = relation_check(a, &proof.z, transcript_commitment, &proof.c, &witness.public_key);
    let expected_commitment = commitment_hash(&witness.public_key);
    let commitment_ok = ct_eq_32(&expected_commitment, &proof.commitment_hash);
    let leaf_ok = ct_eq_32(&witness.merkle_path.leaf, &proof.commitment_hash);
    let root_ok = ct_eq_32(&witness.merkle_path.root, root);
    let path_ok = MerkleTree::verify_inclusion_proof(&witness.merkle_path);
    relation_ok && commitment_ok && leaf_ok && root_ok && path_ok
}

/// Whether every centered coefficient magnitude of `p` is below `bound`,
/// computed in `i128` so that any `i64` coefficient is accepted; all
/// coefficients are always scanned.
fn poly_norm_lt_wide(p: &Poly, bound: i64) -> (r: bool)
    ensures
        r == norm_lt(p@, bound as int),
{
    let mut ok = true;
    let mut k: usize = 0;
    while k < N
        invariant
            0 <= k <= N,
            p@.len() == N,
            ok == (forall|j: int| 0 <= j < k ==> #[trigger] coeff_norm(p@[j]) < bound),
        decreases N - k,
    {
        let c = p.coeffs[k];
        let wide = c as i128;
        let centered_c: i128 = if c >= Q_HALF + 1 {
            wide - (Q as i128)
        } else {
            wide
        };
        let magnitude: i128 = if centered_c < 0 {
            -centered_c
        } else {
            centered_c
        };
        assert(magnitude == coeff_norm(c));
        let below = magnitude < (bound as i128);
        proof {
            assert((forall|j: int| 0 <= j < k + 1 ==> #[trigger] coeff_norm(p@[j]) < bound) == ((forall|j: int|
                0 <= j < k ==> #[trigger] coeff_norm(p@[j]) < bound) && coeff_norm(p@[k as int]) < bound)) by {
                if (forall|j: int| 0 <= j < k ==> #[trigger] coeff_norm(p@[j]) < bound) && coeff_norm(p@[k as int])
                    < bound {
                    assert forall|j: int| 0 <= j < k + 1 implies #[trigger] coeff_norm(p@[j]) < bound by {
                        if j < k {
                        }
                    }
                }
            }
        }
        ok = ok && below;
        k += 1;
    }
    ok
}

/// Whether every polynomial of `v` is below `bound` in centered infinity
/// norm, for any `i64` coefficients; all polynomials are always scanned.
fn vec_norm_lt_wide(v: &PolyVec, bound: i64) -> (r: bool)
    ensures
        r == (forall|i: int| 0 <= i < v@.len() ==> #[trigger] norm_lt(v@[i], bound as int)),
{
    let mut ok = true;
    let mut i: usize = 0;
    while i < v.polys.len()
        invariant
            0 <= i <= v@.len(),
            v@.len() == v.polys@.len(),
            ok == (forall|j: int| 0 <= j < i ==> #[trigger] norm_lt(v@[j], bound as int)),
        decreases v.polys@.len() - i,
    {
        let this = poly_norm_lt_wide(&v.polys[i], bound);
        proof {
            assert(v.polys@[i as int]@ == v@[i as int]);
            assert((forall|j: int| 0 <= j < i + 1 ==> #[trigger] norm_lt(v@[j], bound as int)) == ((forall|j: int|
                0 <= j < i ==> #[trigger] norm_lt(v@[j], bound as int)) && norm_lt(v@[i as int], bound as int))) by {
                if (forall|j: int| 0 <= j < i ==> #[trigger] norm_lt(v@[j], bound as int)) && norm_lt(
                    v@[i as int],
                    bound as int,
                ) {
                    assert forall|j: int| 0 <= j < i + 1 implies #[trigger] norm_lt(v@[j], bound as int) by {
                        if j < i {
                        }
                    }
                }
            }
        }
        ok = ok && this;
        i += 1;
    }
    ok
}

/// Congruent values have the same remainder modulo `q`.
proof fn lemma_cong_same_mod(x: int, y: int)
    requires
        cong(x, y),
    ensures
        x % (Q as int) == y % (Q as int),
{
    lemma_cong_mod(x);
    lemma_cong_mod(y);
    lemma_cong_trans(x % (Q as int), x, y);
    lemma_cong_symm(y % (Q as int), y);
    lemma_cong_trans(x % (Q as int), y, y % (Q as int));
    lemma_cong_canonical_eq(x % (Q as int), y % (Q as int));
}

/// The product in `R_q` depends on the first factor only modulo `q`.
proof fn lemma_ring_mul_cong_left(u: Seq<int>, v: Seq<int>, b: Seq<int>)
    requires
        u.len() == N,
        v.len() == N,
        seq_cong(u, v),
    ensures
        ring_mul(u, b) == ring_mul(v, b),
{
    assert forall|k: int| 0 <= k < N implies #[trigger] ring_mul(u, b)[k] == ring_mul(v, b)[k] by {
        lemma_conv_cong_left(u, v, b, k);
        lemma_cong_same_mod(conv(u, b, k), conv(v, b, k));
    }
    assert(ring_mul(u, b) =~= ring_mul(v, b));
}

/// Inner products over rows that agree modulo `q` are equal.
proof fn lemma_inner_cong(x: Seq<Seq<int>>, y: Seq<Seq<int>>, b: Seq<Seq<int>>, n: int)
    requires
        n <= x.len(),
        n <= y.len(),
        forall|j: int| 0 <= j < n ==> (#[trigger] x[j]).len() == N && y[j].len() == N && seq_cong(x[j], y[j]),
    ensures
        inner_spec(x, b, n) == inner_spec(y, b, n),
    decreases n,
{
    if n > 0 {
        lemma_inner_cong(x, y, b, n - 1);
        assert(x[n - 1].len() == N && y[n - 1].len() == N && seq_cong(x[n - 1], y[n - 1]));
        lemma_ring_mul_cong_left(x[n - 1], y[n - 1], b[n - 1]);
    }
}

/// The matrix-vector product depends on the matrix only modulo `q`.
proof fn lemma_matvec_cong(a: Seq<Seq<Seq<i64>>>, r: Seq<Seq<Seq<i64>>>, v: Seq<Seq<int>>)
    requires
        mat_shape_ok(a),
        mat_shape_ok(r),
        forall|i: int, j: int|
            0 <= i < K && 0 <= j < K ==> (#[trigger] a[i][j]).len() == N && r[i][j].len() == N && seq_cong(
                ints(a[i][j]),
                ints(r[i][j]),
            ),
    ensures
        matvec_spec(mints(a), v) == matvec_spec(mints(r), v),
{
    assert forall|i: int| 0 <= i < K implies #[trigger] matvec_spec(mints(a), v)[i] == matvec_spec(mints(r), v)[i] by {
        let x = mints(a)[i];
        let y = mints(r)[i];
        assert(x == vints(a[i]));
        assert(y == vints(r[i]));
        assert forall|j: int| 0 <= j < K implies (#[trigger] x[j]).len() == N && y[j].len() == N && seq_cong(x[j], y[j]) by {
            assert(x[j] == ints(a[i][j]));
            assert(y[j] == ints(r[i][j]));
            assert(a[i][j].len() == N && r[i][j].len() == N && seq_cong(ints(a[i][j]), ints(r[i][j])));
        }
        lemma_inner_cong(x, y, v, K as int);
    }
    assert(matvec_spec(mints(a), v) =~= matvec_spec(mints(r), v));
}

/// The witness checks depend on the matrix only modulo `q`.
proof fn lemma_witness_checks_mod_q(
    a: Seq<Seq<Seq<i64>>>,
    r: Seq<Seq<Seq<i64>>>,
    proof: AuthProof,
    root: Seq<u8>,
    m: WitnessModel,
)
    requires
        mat_shape_ok(a),
        mat_canonical(r),
        forall|i: int, j: int|
            0 <= i < K && 0 <= j < K ==> (#[trigger] a[i][j]).len() == N && r[i][j].len() == N && seq_cong(
                ints(a[i][j]),
                ints(r[i][j]),
            ),
    ensures
        witness_checks(a, proof, root, m) == witness_checks(r, proof, root, m),
{
    assert forall|i: int| 0 <= i < K implies (#[trigger] r[i]).len() == K by {
        assert(vec_canonical(r[i]));
    }
    lemma_matvec_cong(a, r, vints(proof.z@));
    assert forall|i: int| 0 <= i < K implies #[trigger] relation_residue(
        a,
        proof.z@,
        vec_decode(proof.w_bytes@),
        proof.c@,
        m.0,
        i,
    ) == relation_residue(r, proof.z@, vec_decode(proof.w_bytes@), proof.c@, m.0, i) by {}
    let w = vec_decode(proof.w_bytes@);
    if forall|i: int| 0 <= i < K ==> #[trigger] int_norm_lt(relation_residue(a, proof.z@, w, proof.c@, m.0, i), relation_bound()) {
        assert forall|i: int| 0 <= i < K implies #[trigger] int_norm_lt(relation_residue(r, proof.z@, w, proof.c@, m.0, i), relation_bound()) by {
            assert(int_norm_lt(relation_residue(a, proof.z@, w, proof.c@, m.0, i), relation_bound()));
        }
    }
    if forall|i: int| 0 <= i < K ==> #[trigger] int_norm_lt(relation_residue(r, proof.z@, w, proof.c@, m.0, i), relation_bound()) {
        assert forall|i: int| 0 <= i < K implies #[trigger] int_norm_lt(relation_residue(a, proof.z@, w, proof.c@, m.0, i), relation_bound()) by {
            assert(int_norm_lt(relation_residue(r, proof.z@, w, proof.c@, m.0, i), relation_bound()));
        }
    }
}

/// A copy of the matrix with every coefficient reduced to `[0, q)`.
fn reduced_matrix(a: &PolyMat) -> (r: PolyMat)
    requires
        mat_shape_ok(a@),
    ensures
        r.is_canonical(),
        forall|i: int, j: int|
            0 <= i < K && 0 <= j < K ==> (#[trigger] a@[i][j]).len() == N && r@[i][j].len() == N && seq_cong(
                ints(a@[i][j]),
                ints(r@[i][j]),
            ),
{
    let mut rows: Vec<PolyVec> = Vec::new();
    let mut i: usize = 0;
    while i < K
        invariant
            0 <= i <= K,
            mat_shape_ok(a@),
            a@.len() == a.rows@.len(),
            rows@.len() == i,
            forall|x: int| 0 <= x < i ==> #[trigger] vec_canonical(rows@[x]@),
            forall|x: int, j: int|
                0 <= x < i && 0 <= j < K ==> #[trigger] seq_cong(ints(a@[x][j]), ints(rows@[x]@[j])),
        decreases K - i,
    {
        let row = &a.rows[i];
        assert(row@ == a@[i as int]);
        let mut polys: Vec<Poly> = Vec::new();
        let mut j: usize = 0;
        while j < K
            invariant
                0 <= j <= K,
                row@.len() == K,
                row@.len() == row.polys@.len(),
                polys@.len() == j,
                forall|y: int| 0 <= y < j ==> #[trigger] is_canonical_seq(polys@[y]@),
                forall|y: int| 0 <= y < j ==> #[trigger] seq_cong(ints(row@[y]), ints(polys@[y]@)),
            decreases K - j,
        {
            let mut p = Poly { coeffs: row.polys[j].coeffs };
            assert(p@ == row@[j as int]);
            let ghost before = p@;
            p.reduce();
            proof {
                assert forall|k: int| 0 <= k < N implies #[trigger] cong(ints(before)[k], ints(p@)[k]) by {
                    lemma_cong_mod(before[k] as int);
                    lemma_cong_symm(before[k] as int % (Q as int), before[k] as int);
                }
            }
            polys.push(p);
            j += 1;
        }
        let v = PolyVec { polys };
        proof {
            assert forall|y: int| 0 <= y < K implies #[trigger] is_canonical_seq(v@[y]) by {
                assert(v@[y] == polys@[y]@);
            }
            assert forall|y: int| 0 <= y < K implies #[trigger] seq_cong(ints(a@[i as int][y]), ints(v@[y])) by {
                assert(v@[y] == polys@[y]@);
            }
        }
        rows.push(v);
        i += 1;
    }
    let r = PolyMat { rows };
    proof {
        assert forall|x: int| 0 <= x < K implies #[trigger] vec_canonical(r@[x]) by {
            assert(r@[x] == rows@[x]@);
        }
        assert forall|x: int, j: int|
            0 <= x < K && 0 <= j < K implies (#[trigger] a@[x][j]).len() == N && r@[x][j].len() == N && seq_cong(
                ints(a@[x][j]),
                ints(r@[x][j]),
            ) by {
            assert(r@[x] == rows@[x]@);
            assert(seq_cong(ints(a@[x][j]), ints(rows@[x]@[j])));
            assert(vec_canonical(r@[x]));
            assert(is_canonical_seq(r@[x][j]));
        }
    }
    r
}

proof fn lemma_canonical_mat_ready(a: Seq<Seq<Seq<i64>>>, z: Seq<Seq<i64>>)
    requires
        mat_canonical(a),
        z.len() == K,
    ensures
        mat_vec_ready(a, z),
{
    assert forall|i: int| 0 <= i < K implies (#[trigger] a[i]).len() == K by {
        assert(vec_canonical(a[i]));
    }
    assert forall|i: int, j: int| 0 <= i < K && 0 <= j < K implies #[trigger] mul_fits(a[i][j], z[j]) by {
        assert(vec_canonical(a[i]));
        lemma_mul_fits_canonical_left(a[i][j], z[j]);
    }
}

/// Verifies an authorization proof against public inputs.
///
/// Returns `Ok(true)` when every structural, transcript, algebraic,
/// nullifier and Merkle-membership check passes and `Ok(false)` otherwise;
/// malformed input is answered with `Ok(false)`. All checks are evaluated
/// without short-circuiting once the structure has been parsed.
///
/// The parameter matrix is read modulo `q`. The decrypted witness must be the
/// canonical JSON text that `encode_witness` writes; any other spelling of
/// the same bundle (added whitespace, reordered or unknown fields, escaped
/// keys) is answered with `Ok(false)`.
pub fn verify(
    params: &MlweParams,
    proof: &AuthProof,
    root: &[u8; 32],
    expected_nullifier: &[u8; 32],
    scope: &[u8],
) -> (r: Result<bool, ProtocolError>)
    requires
        mat_shape_ok(params.matrix_a@),
    ensures
        r == Ok::<bool, ProtocolError>(verify_spec(params.matrix_a@, *proof, root@, expected_nullifier@, scope@)),
{
    if proof.z.polys.len() != K {
        return Ok(false);
    }
    let mut valid = ct_eq_32(&proof.nullifier, expected_nullifier);
    let bound = GAMMA1 - BETA;
    let z_short = vec_norm_lt_wide(&proof.z, bound);
    valid = valid && z_short;
    let decoded = PolyVec::from_bytes(proof.w_bytes.as_slice());
    if decoded.is_none() {
        return Ok(false);
    }
    let transcript_commitment = decoded.unwrap();
    assert(transcript_commitment@ =~= vec_decode(proof.w_bytes@)) by {
        assert forall|i: int| 0 <= i < K implies #[trigger] transcript_commitment@[i] =~= vec_decode(proof.w_bytes@)[i] by {
            assert(is_canonical_seq(transcript_commitment@[i]));
        }
    }
    let seed = challenge_hash_seed(root, &proof.nullifier, proof.w_bytes.as_slice(), scope);
    let expected_challenge = sample_challenge(seed.as_slice());
    let challenge_ok = ct_eq_poly(&expected_challenge, &proof.c);
    valid = valid && challenge_ok;
    let opened = decrypt_witness(proof, root, scope);
    if opened.is_none() {
        return Ok(false);
    }
    let witness = opened.unwrap();
    if witness.public_key.polys.len() != K {
        return Ok(false);
    }
    let matrix = reduced_matrix(&params.matrix_a);
    proof {
        lemma_canonical_mat_ready(matrix@, proof.z@);
        lemma_witness_checks_mod_q(params.matrix_a@, matrix@, *proof, root@, witness.model());
        assert(valid == transcript_checks(params.matrix_a@, *proof, root@, expected_nullifier@, scope@)) by {
            assert(bound as int == response_bound());
        }
    }
    let rest = check_witness(&matrix, proof, &transcript_commitment, &witness, root);
    valid = valid && rest;
    Ok(valid)
}


/// A `K x K` coefficient vector read back from its integer view.
pub open spec fn to_i64s(t: Seq<Seq<int>>) -> Seq<Seq<i64>> {
    Seq::new(K as nat, |i: int| Seq::new(N as nat, |k: int| t[i][k] as i64))
}

/// Transcript commitment `w = A * y`.
pub open spec fn commit_spec(a: Seq<Seq<Seq<i64>>>, y: Seq<Seq<i64>>) -> Seq<Seq<i64>> {
    to_i64s(matvec_spec(mints(a), vints(y)))
}

/// Response `z = y + c * s`.
pub open spec fn response_spec(s: Seq<Seq<i64>>, y: Seq<Seq<i64>>, c: Seq<i64>) -> Seq<Seq<i64>> {
    to_i64s(Seq::new(K as nat, |i: int| ring_add(ints(y[i]), ring_mul(ints(s[i]), ints(c)))))
}

/// A vector of `K` masking polynomials, each the masking polynomial of some
/// drawn bytes.
pub open spec fn is_masking_vec(y: Seq<Seq<i64>>) -> bool {
    y.len() == K && forall|i: int| 0 <= i < K ==> #[trigger] is_masking_seq(y[i]) && is_masking_draw(y[i])
}

/// The statement an honest proof establishes: the expected nullifier is the
/// key's nullifier for the scope, and the Merkle path leads from the key's
/// commitment to the root. `prove` checks only the first part.
pub open spec fn statement_ok(
    secret: Seq<Seq<i64>>,
    public: Seq<Seq<i64>>,
    path: MerkleProof,
    root: Seq<u8>,
    expected_nullifier: Seq<u8>,
    scope: Seq<u8>,
) -> bool {
    &&& nullifier_spec(secret, scope) == expected_nullifier
    &&& path.leaf@ == commitment_spec(public)
    &&& path.root@ == root
    &&& inclusion_valid(path)
}

/// Challenge of the attempt with masking vector `y`.
pub open spec fn attempt_challenge(a: Seq<Seq<Seq<i64>>>, root: Seq<u8>, nullifier: Seq<u8>, scope: Seq<u8>, y: Seq<Seq<i64>>) -> Seq<i64> {
    challenge_spec(challenge_seed_spec(root, nullifier, vec_bytes(commit_spec(a, y)), scope))
}

/// The response of the attempt with masking vector `y` is short.
pub open spec fn attempt_accepted(
    a: Seq<Seq<Seq<i64>>>,
    secret: Seq<Seq<i64>>,
    root: Seq<u8>,
    nullifier: Seq<u8>,
    scope: Seq<u8>,
    y: Seq<Seq<i64>>,
) -> bool {
    let z = response_spec(secret, y, attempt_challenge(a, root, nullifier, scope, y));
    forall|i: int| 0 <= i < K ==> #[trigger] norm_lt(z[i], response_bound())
}

/// `p` is the proof produced by the attempt with masking vector `y`.
pub open spec fn attempt_output(
    a: Seq<Seq<Seq<i64>>>,
    secret: Seq<Seq<i64>>,
    public: Seq<Seq<i64>>,
    path: MerkleProof,
    root: Seq<u8>,
    nullifier: Seq<u8>,
    scope: Seq<u8>,
    y: Seq<Seq<i64>>,
    p: AuthProof,
) -> bool {
    let w_bytes = vec_bytes(commit_spec(a, y));
    let c = attempt_challenge(a, root, nullifier, scope, y);
    let z = response_spec(secret, y, c);
    let commitment = commitment_spec(public);
    &&& p.z@ == z
    &&& p.c@ == c
    &&& p.nullifier@ == nullifier
    &&& p.commitment_hash@ == commitment
    &&& p.w_bytes@ == w_bytes
    &&& p.witness_ciphertext@ == stream_cipher(
        witness_json(witness_model(public, path)),
        keystream_seed_spec(root, nullifier, commitment, w_bytes, c, z, scope),
    )
}

proof fn lemma_to_i64s(v: Seq<Seq<i64>>, t: Seq<Seq<int>>)
    requires
        v.len() == K,
        forall|i: int| 0 <= i < K ==> (#[trigger] v[i]).len() == N && ints(v[i]) == t[i],
    ensures
        v == to_i64s(t),
{
    assert forall|i: int| 0 <= i < K implies #[trigger] v[i] =~= to_i64s(t)[i] by {
        assert forall|k: int| 0 <= k < N implies #[trigger] v[i][k] == to_i64s(t)[i][k] by {
            assert(ints(v[i])[k] == v[i][k] as int);
        }
    }
    assert(v =~= to_i64s(t));
}

/// Runs one proof attempt with a given masking vector `y`: computes the
/// transcript commitment `w = A * y`, the challenge derived from it, and the
/// response `z = y + c * s`; returns `None` when the response is not short,
/// and otherwise the proof with the witness bundle encrypted.
pub fn prove_attempt(
    params: &MlweParams,
    keypair: &MlweKeyPair,
    merkle_proof: &MerkleProof,
    root: &[u8; 32],
    nullifier: &[u8; 32],
    scope: &[u8],
    masking: &PolyVec,
) -> (r: Option<AuthProof>)
    requires
        mat_shape_ok(params.matrix_a@),
        vec_canonical(masking@),
    ensures
        r is Some <==> attempt_accepted(params.matrix_a@, keypair.secret(), root@, nullifier@, scope@, masking@),
        r matches Some(p) ==> attempt_output(
            params.matrix_a@,
            keypair.secret(),
            keypair.public(),
            *merkle_proof,
            root@,
            nullifier@,
            scope@,
            masking@,
            p,
        ),
{
    let ghost a = params.matrix_a@;
    let ghost y = masking@;
    proof {
        assert forall|i: int, j: int| 0 <= i < K && 0 <= j < K implies #[trigger] mul_fits(a[i][j], y[j]) by {
            lemma_mul_fits_canonical(a[i][j], y[j]);
        }
    }
    let transcript_commitment = params.matrix_a.mul_vec(masking);
    proof {
        lemma_to_i64s(transcript_commitment@, matvec_spec(mints(a), vints(y)));
    }
    let w_bytes = transcript_commitment.to_bytes();
    let seed = challenge_hash_seed(root, nullifier, w_bytes.as_slice(), scope);
    let challenge = sample_challenge(seed.as_slice());
    let secret = keypair.secret_key();
    proof {
        assert forall|i: int| 0 <= i < secret@.len() implies #[trigger] mul_fits(secret@[i], challenge@) by {
            lemma_mul_fits_canonical(secret@[i], challenge@);
        }
    }
    let challenge_secret = secret.scalar_mul(&challenge);
    proof {
        assert forall|i: int| 0 <= i < K implies #[trigger] crate::poly::add_fits(masking@[i], challenge_secret@[i]) by {
            lemma_canonical_fits(masking@[i], challenge_secret@[i]);
        }
        assert(challenge_secret.is_canonical());
    }
    let response = masking.add(&challenge_secret);
    proof {
        let t = Seq::new(K as nat, |i: int| ring_add(ints(y[i]), ring_mul(ints(secret@[i]), ints(challenge@))));
        assert forall|i: int| 0 <= i < K implies (#[trigger] response@[i]).len() == N && ints(response@[i]) == t[i] by {
            assert(is_canonical_seq(response@[i]));
        }
        lemma_to_i64s(response@, t);
        assert forall|i: int| 0 <= i < response@.len() implies #[trigger] centerable(response@[i]) by {
            lemma_canonical_fits(response@[i], response@[i]);
        }
    }
    let bound = GAMMA1 - BETA;
    let short = response.infinity_norm_lt(bound);
    proof {
        assert(bound as int == response_bound());
        assert(w_bytes@ == vec_bytes(commit_spec(a, y)));
        assert(challenge@ == attempt_challenge(a, root@, nullifier@, scope@, y));
        assert(response@ == response_spec(keypair.secret(), y, challenge@));
        assert(response@.len() == K);
    }
    if !short {
        return None;
    }
    let public_key = keypair.public_key();
    let credential_commitment = commitment_hash(public_key);
    let ctx = WitnessContext {
        root,
        nullifier,
        commitment_hash: &credential_commitment,
        w_bytes: w_bytes.as_slice(),
        c: &challenge,
        z: &response,
        scope,
    };
    let witness_ciphertext = encrypt_witness(public_key, merkle_proof, &ctx);
    Some(AuthProof {
        z: response,
        c: challenge,
        nullifier: *nullifier,
        commitment_hash: credential_commitment,
        w_bytes,
        witness_ciphertext,
    })
}

/// Every masking vector of `ys` was a rejected attempt: there are
/// `MAX_ATTEMPTS` of them, each a masking vector whose response is not short.
pub open spec fn all_attempts_rejected(
    a: Seq<Seq<Seq<i64>>>,
    secret: Seq<Seq<i64>>,
    root: Seq<u8>,
    nullifier: Seq<u8>,
    scope: Seq<u8>,
    ys: Seq<Seq<Seq<i64>>>,
) -> bool {
    &&& ys.len() == MAX_ATTEMPTS
    &&& forall|i: int|
        0 <= i < ys.len() ==> #[trigger] is_masking_vec(ys[i]) && !attempt_accepted(
            a,
            secret,
            root,
            nullifier,
            scope,
            ys[i],
        )
}

/// Generates an authorization proof for a committed credential.
///
/// Returns `ProtocolError::ChallengeFailure` exactly when `expected_nullifier`
/// is not the key's nullifier for `scope`; the Merkle path is bound into the
/// encrypted witness but not checked here. Otherwise it draws masking vectors
/// until an attempt yields a short response, and returns
/// `ProtocolError::ProofGenerationFailure` after `MAX_ATTEMPTS` rejected draws.
pub fn prove(
    params: &MlweParams,
    keypair: &MlweKeyPair,
    merkle_proof: &MerkleProof,
    root: &[u8; 32],
    expected_nullifier: &[u8; 32],
    scope: &[u8],
    rng: &mut StdRng,
) -> (r: Result<AuthProof, ProtocolError>)
    requires
        mat_shape_ok(params.matrix_a@),
    ensures
        nullifier_spec(keypair.secret(), scope@) != expected_nullifier@
            ==> r == Err::<AuthProof, ProtocolError>(ProtocolError::ChallengeFailure),
        nullifier_spec(keypair.secret(), scope@) == expected_nullifier@ ==> (
        r matches Ok(p) ==> exists|y: Seq<Seq<i64>>|
            #[trigger] is_masking_vec(y) && attempt_accepted(
                params.matrix_a@,
                keypair.secret(),
                root@,
                expected_nullifier@,
                scope@,
                y,
            ) && attempt_output(
                params.matrix_a@,
                keypair.secret(),
                keypair.public(),
                *merkle_proof,
                root@,
                expected_nullifier@,
                scope@,
                y,
                p,
            )),
        nullifier_spec(keypair.secret(), scope@) == expected_nullifier@ ==> (
        r matches Err(e) ==> e is ProofGenerationFailure),
        r matches Err(ProtocolError::ProofGenerationFailure { .. }) ==> exists|ys: Seq<Seq<Seq<i64>>>|
            #[trigger] all_attempts_rejected(
                params.matrix_a@,
                keypair.secret(),
                root@,
                expected_nullifier@,
                scope@,
                ys,
            ),
        r matches Err(ProtocolError::ProofGenerationFailure { reason }) ==> reason@
            == "Rejection sampling failed after 1000 attempts (highly unlikely — check parameters)"@,
{
    let nullifier = derive_nullifier(keypair.secret_key(), scope);
    if !ct_eq_32(&nullifier, expected_nullifier) {
        return Err(ProtocolError::ChallengeFailure);
    }
    let ghost a = params.matrix_a@;
    let ghost mut rejected: Seq<Seq<Seq<i64>>> = Seq::empty();
    let mut attempt: u32 = 0;
    while attempt < MAX_ATTEMPTS
        invariant
            mat_shape_ok(params.matrix_a@),
            a == params.matrix_a@,
            nullifier@ == expected_nullifier@,
            nullifier_spec(keypair.secret(), scope@) == expected_nullifier@,
            attempt <= MAX_ATTEMPTS,
            rejected.len() == attempt,
            forall|i: int|
                0 <= i < rejected.len() ==> #[trigger] is_masking_vec(rejected[i]) && !attempt_accepted(
                    a,
                    keypair.secret(),
                    root@,
                    expected_nullifier@,
                    scope@,
                    rejected[i],
                ),
        decreases MAX_ATTEMPTS - attempt,
    {
        let masking_vector = PolyVec::sample_masking(rng);
        let outcome = prove_attempt(params, keypair, merkle_proof, root, &nullifier, scope, &masking_vector);
        if outcome.is_some() {
            let p = outcome.unwrap();
            assert(is_masking_vec(masking_vector@));
            return Ok(p);
        }
        proof {
            rejected = rejected.push(masking_vector@);
            assert(is_masking_vec(rejected[attempt as int]));
        }
        attempt += 1;
    }
    proof {
        assert(all_attempts_rejected(a, keypair.secret(), root@, expected_nullifier@, scope@, rejected));
    }
    Err(ProtocolError::ProofGenerationFailure {
        reason: "Rejection sampling failed after 1000 attempts (highly unlikely — check parameters)".to_owned(),
    })
}

/// Centered integer view of a coefficient sequence.
pub open spec fn cints(s: Seq<i64>) -> Seq<int> {
    Seq::new(N as nat, |k: int| centered(s[k]))
}

proof fn lemma_cints_cong(s: Seq<i64>)
    requires
        is_canonical_seq(s),
    ensures
        seq_cong(ints(s), cints(s)),
        ints(s).len() == N,
{
    assert forall|k: int| 0 <= k < N implies #[trigger] cong(ints(s)[k], cints(s)[k]) by {
        let x = s[k] as int;
        if s[k] >= Q_HALF + 1 {
            lemma_int_cong_q(x);
        } else {
            lemma_cong_refl(x);
        }
    }
}

proof fn lemma_int_cong_q(x: int)
    ensures
        cong(x, x - Q),
{
    lemma_cong_mod(x);
    lemma_cong_mod(x - Q);
    assert((x - Q) % (Q as int) == x % (Q as int)) by (nonlinear_arith);
    lemma_cong_symm(x % (Q as int), x);
    lemma_cong_trans(x - Q, (x - Q) % (Q as int), x);
    lemma_cong_symm(x - Q, x);
}

proof fn lemma_ints_roundtrip(t: Seq<Seq<int>>, j: int)
    requires
        0 <= j < K,
        t[j].len() == N,
        forall|k: int| 0 <= k < N ==> 0 <= #[trigger] t[j][k] < Q,
    ensures
        ints(to_i64s(t)[j]) == t[j],
{
    assert(ints(to_i64s(t)[j]) =~= t[j]);
}

proof fn lemma_inner2(row: Seq<Seq<int>>, v: Seq<Seq<int>>, k: int)
    requires
        0 <= k < N,
    ensures
        cong(inner_spec(row, v, K as int)[k], conv(row[0], v[0], k) + conv(row[1], v[1], k)),
        0 <= inner_spec(row, v, K as int)[k] < Q,
{
    let m0 = ring_mul(row[0], v[0]);
    let m1 = ring_mul(row[1], v[1]);
    let i1 = inner_spec(row, v, 1);
    assert(inner_spec(row, v, 0) == ring_zero());
    assert(i1 == ring_add(ring_zero(), m0));
    assert(inner_spec(row, v, 2) == ring_add(i1, m1));
    let c0 = conv(row[0], v[0], k);
    let c1 = conv(row[1], v[1], k);
    assert(m0[k] == c0 % (Q as int));
    assert(m1[k] == c1 % (Q as int));
    lemma_cong_mod(c0);
    lemma_cong_mod(c1);
    assert(i1[k] == (0 + m0[k]) % (Q as int));
    lemma_cong_mod(0 + m0[k]);
    lemma_cong_trans(i1[k], m0[k], c0);
    let x = i1[k] + m1[k];
    assert(inner_spec(row, v, 2)[k] == x % (Q as int));
    lemma_cong_mod(x);
    lemma_cong_add(i1[k], c0, m1[k], c1);
    lemma_cong_trans(x % (Q as int), x, c0 + c1);
}

/// `A z` for the honest response is congruent to `A y + (A s) c`,
/// coefficient by coefficient.
proof fn lemma_az_cong(a: Seq<Seq<Seq<i64>>>, s: Seq<Seq<i64>>, y: Seq<Seq<i64>>, c: Seq<i64>, i: int, k: int)
    requires
        mat_shape_ok(a),
        s.len() == K,
        y.len() == K,
        forall|j: int| 0 <= j < K ==> #[trigger] is_canonical_seq(s[j]),
        forall|j: int| 0 <= j < K ==> #[trigger] is_canonical_seq(y[j]),
        is_canonical_seq(c),
        0 <= i < K,
        0 <= k < N,
    ensures
        cong(
            matvec_spec(mints(a), vints(response_spec(s, y, c)))[i][k],
            conv(ints(a[i][0]), ints(y[0]), k) + conv(conv_seq(ints(a[i][0]), ints(s[0])), ints(c), k)
                + (conv(ints(a[i][1]), ints(y[1]), k) + conv(conv_seq(ints(a[i][1]), ints(s[1])), ints(c), k)),
        ),
{
    let z = response_spec(s, y, c);
    let cc = ints(c);
    let t = Seq::new(K as nat, |j: int| ring_add(ints(y[j]), ring_mul(ints(s[j]), cc)));
    let row = mints(a)[i];
    assert(row == vints(a[i]));
    assert forall|j: int| 0 <= j < K implies #[trigger] ints(z[j]) == t[j] by {
        lemma_ints_roundtrip(t, j);
    }
    lemma_inner2(row, vints(z), k);
    assert forall|j: int| 0 <= j < K implies cong(
        #[trigger] conv(row[j], vints(z)[j], k),
        conv(row[j], ints(y[j]), k) + conv(conv_seq(row[j], ints(s[j])), cc, k),
    ) by {
        assert(is_canonical_seq(s[j]));
        assert(is_canonical_seq(y[j]));
        let yj = ints(y[j]);
        let sj = ints(s[j]);
        let target = seq_add(yj, conv_seq(sj, cc));
        assert(vints(z)[j] == t[j]);
        assert forall|kk: int| 0 <= kk < N implies #[trigger] cong(t[j][kk], target[kk]) by {
            let m = conv(sj, cc, kk);
            assert(ring_mul(sj, cc)[kk] == m % (Q as int));
            lemma_cong_mod(m);
            lemma_cong_refl(yj[kk]);
            lemma_cong_add(yj[kk], yj[kk], m % (Q as int), m);
            lemma_cong_mod(yj[kk] + m % (Q as int));
            lemma_cong_trans(t[j][kk], yj[kk] + m % (Q as int), yj[kk] + m);
        }
        assert(yj.len() == N);
        lemma_conv_cong_right(row[j], t[j], target, k);
        lemma_conv_add_right(row[j], yj, conv_seq(sj, cc), k);
        assert(row[j] == ints(a[i][j]));
        lemma_conv_assoc(row[j], sj, cc, k);
    }
    let x0 = conv(row[0], vints(z)[0], k);
    let x1 = conv(row[1], vints(z)[1], k);
    lemma_cong_add(
        x0,
        conv(row[0], ints(y[0]), k) + conv(conv_seq(row[0], ints(s[0])), cc, k),
        x1,
        conv(row[1], ints(y[1]), k) + conv(conv_seq(row[1], ints(s[1])), cc, k),
    );
    lemma_cong_trans(
        matvec_spec(mints(a), vints(z))[i][k],
        x0 + x1,
        conv(row[0], ints(y[0]), k) + conv(conv_seq(row[0], ints(s[0])), cc, k) + (conv(row[1], ints(y[1]), k)
            + conv(conv_seq(row[1], ints(s[1])), cc, k)),
    );
    assert(row[0] == ints(a[i][0]));
    assert(row[1] == ints(a[i][1]));
}

/// `c b` for a key `b = A s + e` is congruent to `(A s) c + e c`,
/// coefficient by coefficient.
proof fn lemma_cb_cong(a: Seq<Seq<Seq<i64>>>, s: Seq<Seq<i64>>, e: Seq<i64>, b: Seq<i64>, c: Seq<i64>, i: int, k: int)
    requires
        mat_shape_ok(a),
        s.len() == K,
        is_canonical_seq(e),
        b.len() == N,
        ints(b) == ring_add(matvec_spec(mints(a), vints(s))[i], ints(e)),
        0 <= i < K,
        0 <= k < N,
    ensures
        cong(
            ring_mul(ints(b), ints(c))[k],
            conv(conv_seq(ints(a[i][0]), ints(s[0])), ints(c), k) + conv(conv_seq(ints(a[i][1]), ints(s[1])), ints(c), k)
                + conv(ints(e), ints(c), k),
        ),
{
    let row = mints(a)[i];
    assert(row == vints(a[i]));
    assert(row[0] == ints(a[i][0]));
    assert(row[1] == ints(a[i][1]));
    let cc = ints(c);
    let ee = ints(e);
    let p0 = conv_seq(row[0], vints(s)[0]);
    let p1 = conv_seq(row[1], vints(s)[1]);
    let target = seq_add(seq_add(p0, p1), ee);
    let bb = ints(b);
    assert forall|kk: int| 0 <= kk < N implies #[trigger] cong(bb[kk], target[kk]) by {
        let inner = matvec_spec(mints(a), vints(s))[i];
        lemma_inner2(row, vints(s), kk);
        assert(bb[kk] == (inner[kk] + ee[kk]) % (Q as int));
        lemma_cong_mod(inner[kk] + ee[kk]);
        lemma_cong_refl(ee[kk]);
        lemma_cong_add(inner[kk], p0[kk] + p1[kk], ee[kk], ee[kk]);
        lemma_cong_trans(bb[kk], inner[kk] + ee[kk], p0[kk] + p1[kk] + ee[kk]);
    }
    lemma_conv_cong_left(bb, target, cc, k);
    lemma_conv_add_left(seq_add(p0, p1), ee, cc, k);
    lemma_conv_add_left(p0, p1, cc, k);
    let m = conv(bb, cc, k);
    lemma_cong_mod(m);
    lemma_cong_trans(m % (Q as int), m, conv(target, cc, k));
    assert(vints(s)[0] == ints(s[0]));
    assert(vints(s)[1] == ints(s[1]));
}

/// A coefficient in `[0, q)` congruent to a value of magnitude at most 78
/// has centered magnitude below the relation bound.
proof fn lemma_small_residue(x: int, v: int)
    requires
        0 <= x < Q,
        -78 <= v <= 78,
        cong(x, v),
    ensures
        int_coeff_norm(x) < relation_bound(),
{
    crate::ring::lemma_cong_witness(x, v);
    let m = (x - v) / (Q as int);
    assert(m == 0 || m == 1) by (nonlinear_arith)
        requires
            x - v == 8_380_417 * m,
            0 <= x < 8_380_417,
            -78 <= v <= 78,
    ;
}

/// The honest residue `A z - w - c b` has every centered coefficient below
/// the relation bound.
proof fn lemma_honest_residue(
    a: Seq<Seq<Seq<i64>>>,
    s: Seq<Seq<i64>>,
    e: Seq<Seq<i64>>,
    b: Seq<Seq<i64>>,
    y: Seq<Seq<i64>>,
    c: Seq<i64>,
    i: int,
)
    requires
        mat_shape_ok(a),
        s.len() == K,
        y.len() == K,
        e.len() == K,
        b.len() == K,
        forall|j: int| 0 <= j < K ==> #[trigger] is_canonical_seq(s[j]),
        forall|j: int| 0 <= j < K ==> #[trigger] is_canonical_seq(y[j]),
        forall|j: int| 0 <= j < K ==> #[trigger] is_small_seq(e[j]),
        forall|j: int| 0 <= j < K ==> (#[trigger] b[j]).len() == N,
        forall|j: int| 0 <= j < K ==> #[trigger] ints(b[j]) == ring_add(matvec_spec(mints(a), vints(s))[j], ints(e[j])),
        is_ternary_seq(c),
        nonzero_count(c, N as int) <= TAU,
        0 <= i < K,
    ensures
        int_norm_lt(relation_residue(a, response_spec(s, y, c), commit_spec(a, y), c, b, i), relation_bound()),
{
    let res = relation_residue(a, response_spec(s, y, c), commit_spec(a, y), c, b, i);
    let cc = ints(c);
    let ee = ints(e[i]);
    let ce = cints(c);
    let ec = cints(e[i]);
    assert(is_small_seq(e[i]));
    lemma_cints_cong(c);
    lemma_cints_cong(e[i]);
    assert forall|j: int| 0 <= j < N implies (#[trigger] ce[j] == -1 || ce[j] == 0 || ce[j] == 1) by {
        assert(c[j] == 0 || c[j] == 1 || c[j] == Q - 1);
    }
    assert forall|j: int| 0 <= j < N implies -2 <= #[trigger] ec[j] <= 2 by {
        assert(-2 <= centered(e[i][j]) <= 2);
    }
    lemma_nonzero_centered(c, N as int);
    assert forall|k: int| 0 <= k < N implies #[trigger] int_coeff_norm(res[k]) < relation_bound() by {
        let w = matvec_spec(mints(a), vints(y))[i];
        let t = matvec_spec(mints(a), vints(y));
        assert(forall|j: int, kk: int| 0 <= j < K && 0 <= kk < N ==> 0 <= #[trigger] t[j][kk] < Q) by {
            assert forall|j: int, kk: int| 0 <= j < K && 0 <= kk < N implies 0 <= #[trigger] t[j][kk] < Q by {
                lemma_inner2(mints(a)[j], vints(y), kk);
            }
        }
        lemma_ints_roundtrip(t, i);
        let az = matvec_spec(mints(a), vints(response_spec(s, y, c)))[i];
        lemma_az_cong(a, s, y, c, i, k);
        lemma_inner2(mints(a)[i], vints(y), k);
        assert(mints(a)[i] == vints(a[i]));
        assert(vints(y)[0] == ints(y[0]));
        assert(vints(y)[1] == ints(y[1]));
        lemma_cb_cong(a, s, e[i], b[i], c, i, k);
        let p0 = conv(ints(a[i][0]), ints(y[0]), k);
        let p1 = conv(ints(a[i][1]), ints(y[1]), k);
        let r0 = conv(conv_seq(ints(a[i][0]), ints(s[0])), cc, k);
        let r1 = conv(conv_seq(ints(a[i][1]), ints(s[1])), cc, k);
        let tt = conv(ee, cc, k);
        let cb = ring_mul(ints(b[i]), cc);
        let d1 = ring_sub(az, ints(commit_spec(a, y)[i]));
        assert(res == ring_sub(d1, cb));
        assert(d1[k] == (az[k] - w[k]) % (Q as int));
        lemma_cong_add(az[k], p0 + r0 + (p1 + r1), w[k], p0 + p1);
        lemma_cong_mod(az[k] - w[k]);
        lemma_cong_trans(d1[k], az[k] - w[k], p0 + r0 + (p1 + r1) - (p0 + p1));
        assert(res[k] == (d1[k] - cb[k]) % (Q as int));
        lemma_cong_add(d1[k], p0 + r0 + (p1 + r1) - (p0 + p1), cb[k], r0 + r1 + tt);
        lemma_cong_mod(d1[k] - cb[k]);
        lemma_cong_trans(res[k], d1[k] - cb[k], 0 - tt);
        // the error term is small
        lemma_conv_cong_left(ee, ec, cc, k);
        lemma_conv_cong_right(ec, cc, ce, k);
        lemma_cong_trans(tt, conv(ec, cc, k), conv(ec, ce, k));
        lemma_conv_comm(ec, ce, k);
        lemma_conv_csum(ce, ec, k);
        lemma_csum_sparse(ce, ec, k, N as int, 2);
        let v = conv(ce, ec, k);
        assert(-78 <= v <= 78) by (nonlinear_arith)
            requires
                -(2 * int_nonzero(ce, N as int)) <= v <= 2 * int_nonzero(ce, N as int),
                int_nonzero(ce, N as int) <= 39,
        ;
        lemma_cong_refl(0);
        lemma_cong_add(0, 0, tt, v);
        lemma_cong_trans(res[k], 0 - tt, 0 - v);
        lemma_small_residue(res[k], 0 - v);
    }
}

proof fn lemma_nonzero_centered(c: Seq<i64>, n: int)
    requires
        is_ternary_seq(c),
        0 <= n <= N,
    ensures
        int_nonzero(cints(c), n) == nonzero_count(c, n),
    decreases n,
{
    if n > 0 {
        lemma_nonzero_centered(c, n - 1);
        assert(c[n - 1] == 0 || c[n - 1] == 1 || c[n - 1] == Q - 1);
    }
}

/// Decrypting with the same keystream undoes encryption.
pub proof fn lemma_stream_cipher_involution(data: Seq<u8>, seed: Seq<u8>)
    ensures
        stream_cipher(stream_cipher(data, seed), seed) == data,
{
    let x = stream_cipher(data, seed);
    assert forall|i: int| 0 <= i < data.len() implies #[trigger] stream_cipher(x, seed)[i] == data[i] by {
        let m = shake256_out(seed, data.len())[i];
        let d = data[i];
        assert(x[i] == d ^ m);
        assert((d ^ m) ^ m == d) by (bit_vector);
    }
    assert(stream_cipher(x, seed) =~= data);
}

proof fn lemma_commit_canonical(a: Seq<Seq<Seq<i64>>>, y: Seq<Seq<i64>>)
    ensures
        vec_canonical(commit_spec(a, y)),
        forall|i: int| 0 <= i < K ==> #[trigger] ints(commit_spec(a, y)[i]) == matvec_spec(mints(a), vints(y))[i],
{
    let t = matvec_spec(mints(a), vints(y));
    assert forall|j: int, kk: int| 0 <= j < K && 0 <= kk < N implies 0 <= #[trigger] t[j][kk] < Q by {
        lemma_inner2(mints(a)[j], vints(y), kk);
    }
    assert forall|i: int| 0 <= i < K implies #[trigger] ints(commit_spec(a, y)[i]) == t[i] by {
        lemma_ints_roundtrip(t, i);
    }
    assert forall|i: int| 0 <= i < K implies #[trigger] is_canonical_seq(commit_spec(a, y)[i]) by {
        assert forall|kk: int| 0 <= kk < N implies 0 <= #[trigger] commit_spec(a, y)[i][kk] < Q by {
            assert(0 <= t[i][kk] < Q);
        }
    }
}

/// Completeness: the proof produced by an accepted attempt of an honest
/// prover verifies. The prover's key satisfies `b = A s + e` for a short
/// error, and its Merkle path leads from the key's commitment to the root.
pub proof fn lemma_honest_proof_verifies(
    a: Seq<Seq<Seq<i64>>>,
    secret: Seq<Seq<i64>>,
    public: Seq<Seq<i64>>,
    path: MerkleProof,
    root: Seq<u8>,
    nullifier: Seq<u8>,
    scope: Seq<u8>,
    y: Seq<Seq<i64>>,
    p: AuthProof,
)
    requires
        mat_shape_ok(a),
        secret.len() == K,
        forall|j: int| 0 <= j < K ==> #[trigger] is_small_seq(secret[j]),
        vec_canonical(public),
        keygen_relation(a, secret, public),
        statement_ok(secret, public, path, root, nullifier, scope),
        vec_canonical(y),
        attempt_accepted(a, secret, root, nullifier, scope, y),
        attempt_output(a, secret, public, path, root, nullifier, scope, y, p),
    ensures
        verify_spec(a, p, root, nullifier, scope),
{
    let w = commit_spec(a, y);
    let w_bytes = vec_bytes(w);
    let c = attempt_challenge(a, root, nullifier, scope, y);
    let z = response_spec(secret, y, c);
    // the transcript commitment decodes back
    lemma_commit_canonical(a, y);
    lemma_vec_bytes_roundtrip(w);
    assert(vec_decode(w_bytes) =~= w) by {
        assert forall|i: int| 0 <= i < K implies #[trigger] vec_decode(w_bytes)[i] =~= w[i] by {
            assert(is_canonical_seq(w[i]));
        }
    }
    // the witness bundle decrypts and decodes
    let m = witness_model(public, path);
    let ks = keystream_seed_spec(root, nullifier, commitment_spec(public), w_bytes, c, z, scope);
    lemma_stream_cipher_involution(witness_json(m), ks);
    assert(proof_plaintext(p, root, scope) == witness_json(m));
    assert(model_wf(m)) by {
        assert forall|i: int| 0 <= i < m.2.len() implies (#[trigger] m.2[i]).len() == 32 by {
            assert(m.2[i] == path.siblings@[i]@);
        }
    }
    lemma_witness_roundtrip(m);
    // the algebraic relation
    let e = choose|e: Seq<Seq<i64>>|
        e.len() == K && (forall|i: int| 0 <= i < K ==> #[trigger] is_small_seq(e[i])) && forall|i: int|
            0 <= i < K ==> #[trigger] ints(public[i]) == ring_add(matvec_spec(mints(a), vints(secret))[i], ints(e[i]));
    lemma_challenge_weight(challenge_seed_spec(root, nullifier, w_bytes, scope));
    assert forall|j: int| 0 <= j < K implies #[trigger] is_canonical_seq(secret[j]) by {
        assert(is_small_seq(secret[j]));
    }
    assert forall|j: int| 0 <= j < K implies #[trigger] is_canonical_seq(y[j]) by {
    }
    assert forall|j: int| 0 <= j < K implies (#[trigger] public[j]).len() == N by {
        assert(is_canonical_seq(public[j]));
    }
    assert forall|i: int| 0 <= i < K implies #[trigger] int_norm_lt(
        relation_residue(a, p.z@, vec_decode(p.w_bytes@), p.c@, m.0, i),
        relation_bound(),
    ) by {
        lemma_honest_residue(a, secret, e, public, y, c, i);
    }
    assert(transcript_checks(a, p, root, nullifier, scope));
    assert(witness_checks(a, p, root, m));
}

/// Completeness of `prove` and `verify` together: whenever `prove` returns a
/// proof for a generated key pair, `verify` accepts it against the same
/// parameters, root, nullifier and scope.
pub proof fn lemma_prove_then_verify(
    a: Seq<Seq<Seq<i64>>>,
    secret: Seq<Seq<i64>>,
    public: Seq<Seq<i64>>,
    path: MerkleProof,
    root: Seq<u8>,
    nullifier: Seq<u8>,
    scope: Seq<u8>,
    p: AuthProof,
)
    requires
        mat_shape_ok(a),
        secret.len() == K,
        forall|j: int| 0 <= j < K ==> #[trigger] is_small_seq(secret[j]),
        vec_canonical(public),
        keygen_relation(a, secret, public),
        statement_ok(secret, public, path, root, nullifier, scope),
        exists|y: Seq<Seq<i64>>|
            #[trigger] is_masking_vec(y) && attempt_accepted(a, secret, root, nullifier, scope, y) && attempt_output(
                a,
                secret,
                public,
                path,
                root,
                nullifier,
                scope,
                y,
                p,
            ),
    ensures
        verify_spec(a, p, root, nullifier, scope),
{
    let y = choose|y: Seq<Seq<i64>>|
        #[trigger] is_masking_vec(y) && attempt_accepted(a, secret, root, nullifier, scope, y) && attempt_output(
            a,
            secret,
            public,
            path,
            root,
            nullifier,
            scope,
            y,
            p,
        );
    assert forall|j: int| 0 <= j < K implies #[trigger] is_canonical_seq(y[j]) by {
        assert(is_masking_seq(y[j]));
    }
    lemma_honest_proof_verifies(a, secret, public, path, root, nullifier, scope, y, p);
}

/// An accepted proof binds its statement: the nullifier is the expected
/// one, the response is short, the transcript commitment decodes, the
/// challenge is the one derived from the transcript, and the encrypted
/// witness opens to a public key that satisfies the relation with a small
/// residue, whose commitment is the proof's commitment and whose Merkle path
/// leads from that commitment to the root.
pub proof fn lemma_accepted_proof_binds(
    a: Seq<Seq<Seq<i64>>>,
    proof: AuthProof,
    root: Seq<u8>,
    expected_nullifier: Seq<u8>,
    scope: Seq<u8>,
)
    requires
        verify_spec(a, proof, root, expected_nullifier, scope),
    ensures
        proof.nullifier@ == expected_nullifier,
        proof.z@.len() == K,
        challenge_spec(challenge_seed_spec(root, proof.nullifier@, proof.w_bytes@, scope)) == proof.c@,
        forall|i: int| 0 <= i < K ==> #[trigger] norm_lt(proof.z@[i], response_bound()),
        vec_decodable(proof.w_bytes@),
        witness_decode(proof_plaintext(proof, root, scope)) matches Some(m) && {
            &&& forall|i: int|
                0 <= i < K ==> #[trigger] int_norm_lt(
                    relation_residue(a, proof.z@, vec_decode(proof.w_bytes@), proof.c@, m.0, i),
                    relation_bound(),
                )
            &&& commitment_spec(m.0) == proof.commitment_hash@
            &&& m.1 == proof.commitment_hash@
            &&& m.4 == root
            &&& path_valid(m.1, m.2, m.3, root)
        },
{
}

} // verus!
