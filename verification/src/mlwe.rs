//! Module-LWE parameters and credential key material.
//!
//! This module builds the public matrix, short secret vectors, public key
//! vectors and sparse Fiat-Shamir challenges used by the proof relation.

use vstd::prelude::*;
use rand::rngs::StdRng;
use crate::domain::{commitment_domain, commitment_domain_bytes, params_digest_domain,
    params_digest_domain_bytes, params_seed_domain, params_seed_domain_bytes};
use crate::poly::{
    is_canonical_seq, lemma_canonical_fits, lemma_mul_fits_canonical, matvec_spec, mints, mul_fits, vec_bytes,
    vec_canonical, vints, Poly, PolyMat, PolyVec, K, N, Q, TAU,
};
use crate::ring::{ints, ring_add};
use crate::sample::{cand23, is_cbd_draw, is_small_seq, is_uniform_draw, SAMPLE_ATTEMPTS};
use crate::zk_auth::{derive_nullifier, nullifier_spec};
use crate::shake::{shake256_32, shake256_byte, shake256_digest, shake256_out, XofStream, STREAM_LIMIT};
use vstd::bytes::{spec_u16_from_le_bytes, spec_u64_from_le_bytes, u16_from_le_bytes, u64_from_le_bytes};

verus! {

/// The 23-bit candidate read from stream position `p`.
pub open spec fn stream_cand(msg: Seq<u8>, p: nat) -> int {
    cand23(shake256_byte(msg, p), shake256_byte(msg, p + 1), shake256_byte(msg, p + 2))
}

/// The `count` coefficients obtained by rejection sampling the stream of
/// `msg` from position `p`, four bytes per candidate, with `fuel` attempts
/// left for the current coefficient. A candidate below `q` is accepted; when
/// the attempts run out the candidate is reduced modulo `q`.
pub open spec fn uniform_scan(msg: Seq<u8>, p: nat, count: nat, fuel: nat) -> Seq<i64>
    decreases count, fuel,
{
    if count == 0 {
        Seq::empty()
    } else {
        let v = stream_cand(msg, p);
        if v < Q {
            seq![v as i64] + uniform_scan(msg, p + 4, (count - 1) as nat, SAMPLE_ATTEMPTS as nat)
        } else if fuel <= 1 {
            seq![(v - Q) as i64] + uniform_scan(msg, p + 4, (count - 1) as nat, SAMPLE_ATTEMPTS as nat)
        } else {
            uniform_scan(msg, p + 4, count, (fuel - 1) as nat)
        }
    }
}

/// Stream position reached by `uniform_scan` with the same arguments.
pub open spec fn uniform_scan_end(msg: Seq<u8>, p: nat, count: nat, fuel: nat) -> nat
    decreases count, fuel,
{
    if count == 0 {
        p
    } else {
        let v = stream_cand(msg, p);
        if v < Q || fuel <= 1 {
            uniform_scan_end(msg, p + 4, (count - 1) as nat, SAMPLE_ATTEMPTS as nat)
        } else {
            uniform_scan_end(msg, p + 4, count, (fuel - 1) as nat)
        }
    }
}

/// Stream position where polynomial `t` of a seeded expansion starts.
pub open spec fn seeded_poly_start(msg: Seq<u8>, t: nat) -> nat
    decreases t,
{
    if t == 0 {
        0
    } else {
        uniform_scan_end(msg, seeded_poly_start(msg, (t - 1) as nat), N as nat, SAMPLE_ATTEMPTS as nat)
    }
}

/// Polynomial `t` of the seeded expansion of `msg`.
pub open spec fn seeded_poly(msg: Seq<u8>, t: nat) -> Seq<i64> {
    uniform_scan(msg, seeded_poly_start(msg, t), N as nat, SAMPLE_ATTEMPTS as nat)
}

/// The message whose SHAKE-256 stream expands a parameter seed.
pub open spec fn params_seed_message(seed: Seq<u8>) -> Seq<u8> {
    params_seed_domain() + seed
}

/// Concatenated encodings of the rows of a matrix.
pub open spec fn mat_bytes(m: Seq<Seq<Seq<i64>>>) -> Seq<u8>
    decreases m.len(),
{
    if m.len() == 0 {
        Seq::empty()
    } else {
        mat_bytes(m.drop_last()) + vec_bytes(m.last())
    }
}

/// Authentication digest of a parameter matrix.
pub open spec fn params_digest_spec(m: Seq<Seq<Seq<i64>>>) -> Seq<u8> {
    shake256_digest(params_digest_domain() + mat_bytes(m))
}

/// Credential commitment of a public key.
pub open spec fn commitment_spec(public_key: Seq<Seq<i64>>) -> Seq<u8> {
    shake256_digest(commitment_domain() + vec_bytes(public_key))
}

/// Samples one polynomial with coefficients in `[0, q)` from a SHAKE-256
/// stream by rejection sampling.
fn sample_uniform_from_xof(stream: &mut XofStream) -> (p: Poly)
    requires
        old(stream).wf(),
        old(stream).position() + 4 * N * SAMPLE_ATTEMPTS <= STREAM_LIMIT,
    ensures
        final(stream).wf(),
        final(stream).message() == old(stream).message(),
        p@ == uniform_scan(old(stream).message(), old(stream).position(), N as nat, SAMPLE_ATTEMPTS as nat),
        final(stream).position() == uniform_scan_end(old(stream).message(), old(stream).position(), N as nat, SAMPLE_ATTEMPTS as nat),
        final(stream).position() <= old(stream).position() + 4 * N * SAMPLE_ATTEMPTS,
        p.is_canonical(),
{
    let ghost msg = stream.message();
    let ghost p0 = stream.position();
    let ghost target = uniform_scan(msg, p0, N as nat, SAMPLE_ATTEMPTS as nat);
    let ghost target_end = uniform_scan_end(msg, p0, N as nat, SAMPLE_ATTEMPTS as nat);
    let ghost mut acc: Seq<i64> = Seq::empty();
    let mut poly = Poly::zero();
    let mut i: usize = 0;
    while i < N
        invariant
            0 <= i <= N,
            stream.wf(),
            stream.message() == msg,
            poly@.len() == N,
            acc.len() == i,
            forall|j: int| 0 <= j < i ==> #[trigger] poly@[j] == acc[j],
            forall|j: int| 0 <= j < N ==> 0 <= #[trigger] poly@[j] < Q,
            acc + uniform_scan(msg, stream.position(), (N - i) as nat, SAMPLE_ATTEMPTS as nat) == target,
            uniform_scan_end(msg, stream.position(), (N - i) as nat, SAMPLE_ATTEMPTS as nat) == target_end,
            stream.position() <= p0 + 4 * (i * SAMPLE_ATTEMPTS),
            p0 + 4 * N * SAMPLE_ATTEMPTS <= STREAM_LIMIT,
            target == uniform_scan(msg, p0, N as nat, SAMPLE_ATTEMPTS as nat),
            target_end == uniform_scan_end(msg, p0, N as nat, SAMPLE_ATTEMPTS as nat),
        decreases N - i,
    {
        let mut attempts: u32 = 0;
        let mut value: i64 = 0;
        let ghost rem: nat = (N - i) as nat;
        loop
            invariant_except_break
                attempts < SAMPLE_ATTEMPTS,
                acc + uniform_scan(msg, stream.position(), rem, (SAMPLE_ATTEMPTS - attempts) as nat) == target,
                uniform_scan_end(msg, stream.position(), rem, (SAMPLE_ATTEMPTS - attempts) as nat) == target_end,
            invariant
                stream.wf(),
                stream.message() == msg,
                rem == N - i,
                0 <= i < N,
                stream.position() <= p0 + 4 * (i * SAMPLE_ATTEMPTS + attempts),
                p0 + 4 * N * SAMPLE_ATTEMPTS <= STREAM_LIMIT,
            ensures
                0 <= value < Q,
                acc.push(value) + uniform_scan(msg, stream.position(), (rem - 1) as nat, SAMPLE_ATTEMPTS as nat) == target,
                uniform_scan_end(msg, stream.position(), (rem - 1) as nat, SAMPLE_ATTEMPTS as nat) == target_end,
                stream.position() <= p0 + 4 * ((i + 1) * SAMPLE_ATTEMPTS),
            decreases SAMPLE_ATTEMPTS - attempts,
        {
            proof {
                assert(i * SAMPLE_ATTEMPTS + attempts + 1 <= N * SAMPLE_ATTEMPTS) by (nonlinear_arith)
                    requires i < N, attempts < SAMPLE_ATTEMPTS;
            }
            let ghost pos = stream.position();
            let candidate_bytes = stream.read(4);
            let candidate = crate::sample::candidate23(candidate_bytes.as_slice());
            assert(candidate == stream_cand(msg, pos));
            attempts += 1;
            if candidate < Q {
                value = candidate;
                proof {
                    assert(acc.push(value) + uniform_scan(msg, stream.position(), (rem - 1) as nat, SAMPLE_ATTEMPTS as nat)
                        =~= acc + uniform_scan(msg, pos, rem, (SAMPLE_ATTEMPTS - (attempts - 1)) as nat));
                    assert((i + 1) * SAMPLE_ATTEMPTS == i * SAMPLE_ATTEMPTS + SAMPLE_ATTEMPTS) by (nonlinear_arith);
                }
                break;
            }
            if attempts >= SAMPLE_ATTEMPTS {
                value = candidate - Q;
                proof {
                    assert(acc.push(value) + uniform_scan(msg, stream.position(), (rem - 1) as nat, SAMPLE_ATTEMPTS as nat)
                        =~= acc + uniform_scan(msg, pos, rem, (SAMPLE_ATTEMPTS - (attempts - 1)) as nat));
                    assert((i + 1) * SAMPLE_ATTEMPTS == i * SAMPLE_ATTEMPTS + SAMPLE_ATTEMPTS) by (nonlinear_arith);
                }
                break;
            }
        }
        poly.coeffs[i] = value;
        proof {
            acc = acc.push(value);
        }
        i += 1;
    }
    assert(acc + uniform_scan(msg, stream.position(), 0, SAMPLE_ATTEMPTS as nat) =~= acc);
    assert(poly@ =~= acc);
    poly
}

/// Module-LWE public parameters: the public `k x k` matrix `A`.
#[derive(Debug, Clone)]
pub struct MlweParams {
    /// The public matrix `A` in `R_q^{k x k}`.
    pub matrix_a: PolyMat,
}

impl MlweParams {
    /// Generates fresh parameters with a uniform random matrix.
    pub fn generate(rng: &mut StdRng) -> (p: MlweParams)
        ensures
            p.matrix_a.is_canonical(),
            forall|r: int, c: int| 0 <= r < K && 0 <= c < K ==> #[trigger] is_uniform_draw(p.matrix_a@[r][c]),
    {
        MlweParams { matrix_a: PolyMat::sample_uniform(rng) }
    }

    /// Derives shared parameters from a public 32-byte seed: the SHAKE-256
    /// stream of the domain separator followed by the seed is rejection
    /// sampled into the four matrix polynomials, row by row.
    pub fn from_seed(seed: &[u8; 32]) -> (p: MlweParams)
        ensures
            p.matrix_a.is_canonical(),
            forall|r: int, c: int| 0 <= r < K && 0 <= c < K ==> #[trigger] p.matrix_a@[r][c]
                == seeded_poly(params_seed_message(seed@), (r * K + c) as nat),
    {
        let mut msg = params_seed_domain_bytes();
        msg.extend_from_slice(seed.as_slice());
        let ghost m = params_seed_message(seed@);
        assert(msg@ =~= m);
        let mut stream = XofStream::new(msg);
        let mut rows: Vec<PolyVec> = Vec::new();
        let mut r: usize = 0;
        while r < K
            invariant
                0 <= r <= K,
                stream.wf(),
                stream.message() == m,
                stream.position() == seeded_poly_start(m, (r * K) as nat),
                stream.position() <= 4 * N * SAMPLE_ATTEMPTS * (r * K),
                rows@.len() == r,
                forall|x: int| 0 <= x < r ==> #[trigger] vec_canonical(rows@[x]@),
                forall|x: int, c: int| 0 <= x < r && 0 <= c < K ==> #[trigger] rows@[x]@[c] == seeded_poly(m, (x * K + c) as nat),
            decreases K - r,
        {
            let mut polys: Vec<Poly> = Vec::new();
            let mut c: usize = 0;
            while c < K
                invariant
                    0 <= r < K,
                    0 <= c <= K,
                    stream.wf(),
                    stream.message() == m,
                    stream.position() == seeded_poly_start(m, (r * K + c) as nat),
                    stream.position() <= 4 * N * SAMPLE_ATTEMPTS * (r * K + c),
                    polys@.len() == c,
                    forall|y: int| 0 <= y < c ==> #[trigger] is_canonical_seq(polys@[y]@),
                    forall|y: int| 0 <= y < c ==> #[trigger] polys@[y]@ == seeded_poly(m, (r * K + y) as nat),
                decreases K - c,
            {
                proof {
                    assert(4 * N * SAMPLE_ATTEMPTS * (r * K + c) + 4 * N * SAMPLE_ATTEMPTS <= STREAM_LIMIT) by (nonlinear_arith)
                        requires r < K, c < K;
                    assert(4 * N * SAMPLE_ATTEMPTS * (r * K + c) + 4 * N * SAMPLE_ATTEMPTS == 4 * N * SAMPLE_ATTEMPTS * (r * K + c + 1)) by (nonlinear_arith);
                }
                let p = sample_uniform_from_xof(&mut stream);
                polys.push(p);
                c += 1;
            }
            let row = PolyVec { polys };
            assert(vec_canonical(row@)) by {
                assert forall|y: int| 0 <= y < K implies #[trigger] is_canonical_seq(row@[y]) by {
                    assert(row@[y] == polys@[y]@);
                }
            }
            assert forall|y: int| 0 <= y < K implies #[trigger] row@[y] == seeded_poly(m, (r * K + y) as nat) by {
                assert(row@[y] == polys@[y]@);
            }
            rows.push(row);
            assert((r + 1) * K == r * K + K) by (nonlinear_arith);
            r += 1;
        }
        let matrix_a = PolyMat { rows };
        assert forall|x: int| 0 <= x < K implies #[trigger] vec_canonical(matrix_a@[x]) by {
            assert(matrix_a@[x] == rows@[x]@);
        }
        assert forall|x: int, c: int| 0 <= x < K && 0 <= c < K implies #[trigger] matrix_a@[x][c] == seeded_poly(m, (x * K + c) as nat) by {
            assert(matrix_a@[x] == rows@[x]@);
        }
        MlweParams { matrix_a }
    }

    /// Computes the authentication digest of this parameter set:
    /// SHAKE-256 of the domain separator followed by the row encodings.
    pub fn authentication_digest(&self) -> (d: [u8; 32])
        ensures
            d@ == params_digest_spec(self.matrix_a@),
    {
        let mut msg = params_digest_domain_bytes();
        let mut i: usize = 0;
        while i < self.matrix_a.rows.len()
            invariant
                0 <= i <= self.matrix_a@.len(),
                self.matrix_a@.len() == self.matrix_a.rows@.len(),
                msg@ == params_digest_domain() + mat_bytes(self.matrix_a@.take(i as int)),
            decreases self.matrix_a.rows@.len() - i,
        {
            let row_bytes = self.matrix_a.rows[i].to_bytes();
            msg.extend_from_slice(row_bytes.as_slice());
            proof {
                let t = self.matrix_a@.take(i + 1);
                assert(t.drop_last() =~= self.matrix_a@.take(i as int));
                assert(t.last() == self.matrix_a@[i as int]);
                assert(msg@ =~= params_digest_domain() + mat_bytes(t));
            }
            i += 1;
        }
        assert(self.matrix_a@.take(self.matrix_a@.len() as int) =~= self.matrix_a@);
        shake256_32(msg.as_slice())
    }
}

/// Computes the credential commitment of a public key: SHAKE-256 of the
/// commitment domain separator followed by the key encoding.
pub fn commitment_hash(public_key: &PolyVec) -> (h: [u8; 32])
    ensures
        h@ == commitment_spec(public_key@),
{
    let mut msg = commitment_domain_bytes();
    let pk_bytes = public_key.to_bytes();
    msg.extend_from_slice(pk_bytes.as_slice());
    assert(msg@ =~= commitment_domain() + vec_bytes(public_key@));
    shake256_32(msg.as_slice())
}


/// Upper bound on draws for one challenge position; beyond it the last
/// candidate is reduced modulo the range instead of being redrawn. Each draw
/// is rejected with probability below 0.4%, so the bound is never reached in
/// practice.
pub const CHALLENGE_ATTEMPTS: u32 = 65536;

/// The little-endian 16-bit value at stream position `p`.
pub open spec fn stream_u16(msg: Seq<u8>, p: nat) -> u16 {
    spec_u16_from_le_bytes(seq![shake256_byte(msg, p), shake256_byte(msg, p + 1)])
}

/// Candidates below this value are accepted when drawing from `[0, bound)`.
pub open spec fn challenge_zone(bound: int) -> int {
    65536int - 65536int % bound
}

/// Draws an index in `[0, bound)` from the stream at position `p`, with
/// `fuel` attempts left; returns the index and the next stream position.
pub open spec fn challenge_draw(msg: Seq<u8>, p: nat, bound: int, fuel: nat) -> (int, nat)
    decreases fuel,
{
    let val = stream_u16(msg, p) as int;
    if val < challenge_zone(bound) || fuel <= 1 {
        (val % bound, p + 2)
    } else {
        challenge_draw(msg, p + 2, bound, (fuel - 1) as nat)
    }
}

/// The sign word: the first eight stream bytes, little-endian.
pub open spec fn challenge_signs(msg: Seq<u8>) -> u64 {
    spec_u64_from_le_bytes(shake256_out(msg, 8))
}

/// Coefficient placed in round `i`: `1` or `q - 1` by bit `i` of the signs.
pub open spec fn sign_coeff(signs: u64, i: int) -> i64 {
    if (signs >> (i as u64)) & 1 == 0 {
        1
    } else {
        (Q - 1) as i64
    }
}

/// Rounds `i..TAU` of the challenge sampler: a partial Fisher-Yates shuffle
/// of the coefficient positions, each round fixing the position swapped into
/// slot `N - 1 - i` and giving it a signed unit coefficient.
pub open spec fn challenge_rounds(
    msg: Seq<u8>,
    signs: u64,
    i: nat,
    positions: Seq<u16>,
    c: Seq<i64>,
    p: nat,
) -> Seq<i64>
    decreases TAU - i,
{
    if i >= TAU {
        c
    } else {
        let (j, p2) = challenge_draw(msg, p, N - i, CHALLENGE_ATTEMPTS as nat);
        let s = N - 1 - i;
        let shuffled = positions.update(s, positions[j]).update(j, positions[s]);
        let c2 = c.update(shuffled[s] as int, sign_coeff(signs, i as int));
        challenge_rounds(msg, signs, i + 1, shuffled, c2, p2)
    }
}

/// The challenge polynomial derived from a transcript seed.
pub open spec fn challenge_spec(seed: Seq<u8>) -> Seq<i64> {
    challenge_rounds(
        seed,
        challenge_signs(seed),
        0,
        Seq::new(N as nat, |k: int| k as u16),
        Seq::new(N as nat, |k: int| 0i64),
        8,
    )
}

/// Every coefficient is `0`, `1` or `q - 1`.
pub open spec fn is_ternary_seq(c: Seq<i64>) -> bool {
    c.len() == N && forall|k: int| 0 <= k < N ==> #[trigger] c[k] == 0 || c[k] == 1 || c[k] == Q - 1
}

/// Samples the sparse Fiat-Shamir challenge polynomial for a transcript
/// seed: `tau` distinct positions receive `+1` or `-1` (stored as `q - 1`),
/// all other coefficients are zero.
pub fn sample_challenge(seed: &[u8]) -> (c: Poly)
    ensures
        c@ == challenge_spec(seed@),
        is_ternary_seq(c@),
        c.is_canonical(),
{
    let mut msg: Vec<u8> = Vec::new();
    msg.extend_from_slice(seed);
    let ghost m = seed@;
    assert(msg@ =~= m);
    let mut stream = XofStream::new(msg);
    let mut c = Poly::zero();
    let sign_bytes = stream.read(8);
    assert(sign_bytes@ =~= shake256_out(m, 8));
    let signs = u64_from_le_bytes(sign_bytes.as_slice());
    let mut positions = [0u16; N];
    let mut k: usize = 0;
    while k < N
        invariant
            0 <= k <= N,
            forall|x: int| 0 <= x < k ==> #[trigger] positions@[x] == x as u16,
        decreases N - k,
    {
        positions[k] = k as u16;
        k += 1;
    }
    assert(positions@ =~= Seq::new(N as nat, |x: int| x as u16));
    assert(c@ =~= Seq::new(N as nat, |x: int| 0i64));
    let ghost target = challenge_spec(m);
    let mut i: usize = 0;
    while i < TAU
        invariant
            0 <= i <= TAU,
            stream.wf(),
            stream.message() == m,
            stream.position() <= 8 + 2 * CHALLENGE_ATTEMPTS * i,
            signs == challenge_signs(m),
            positions@.len() == N,
            forall|x: int| 0 <= x < N ==> #[trigger] positions@[x] < N,
            c@.len() == N,
            is_ternary_seq(c@),
            challenge_rounds(m, signs, i as nat, positions@, c@, stream.position()) == target,
            target == challenge_spec(m),
        decreases TAU - i,
    {
        let bound = (N - i) as u32;
        let zone = 65_536 - (65_536 % bound);
        let ghost p_start = stream.position();
        let ghost drawn = challenge_draw(m, p_start, bound as int, CHALLENGE_ATTEMPTS as nat);
        let mut attempts: u32 = 0;
        let mut j: usize = 0;
        loop
            invariant_except_break
                attempts < CHALLENGE_ATTEMPTS,
                challenge_draw(m, stream.position(), bound as int, (CHALLENGE_ATTEMPTS - attempts) as nat) == drawn,
            invariant
                stream.wf(),
                stream.message() == m,
                0 < bound <= N,
                zone == challenge_zone(bound as int),
                i < TAU,
                stream.position() <= 8 + 2 * CHALLENGE_ATTEMPTS * i + 2 * attempts,
            ensures
                j == drawn.0,
                stream.position() == drawn.1,
                j < bound,
                stream.position() <= 8 + 2 * CHALLENGE_ATTEMPTS * (i + 1),
            decreases CHALLENGE_ATTEMPTS - attempts,
        {
            proof {
                assert(8 + 2 * CHALLENGE_ATTEMPTS * i + 2 * attempts + 2 <= STREAM_LIMIT) by (nonlinear_arith)
                    requires i < TAU, attempts < CHALLENGE_ATTEMPTS;
            }
            let ghost pos = stream.position();
            let candidate_bytes = stream.read(2);
            assert(candidate_bytes@ =~= seq![shake256_byte(m, pos), shake256_byte(m, pos + 1)]);
            let val = u16_from_le_bytes(candidate_bytes.as_slice()) as u32;
            attempts += 1;
            if val < zone || attempts >= CHALLENGE_ATTEMPTS {
                j = (val % bound) as usize;
                proof {
                    assert(2 * CHALLENGE_ATTEMPTS * (i + 1) == 2 * CHALLENGE_ATTEMPTS * i + 2 * CHALLENGE_ATTEMPTS) by (nonlinear_arith);
                }
                break;
            }
        }
        let swap_idx = N - 1 - i;
        let a = positions[swap_idx];
        let b = positions[j];
        positions[swap_idx] = b;
        positions[j] = a;
        let pos = positions[swap_idx] as usize;
        if (signs >> (i as u64)) & 1 == 0 {
            c.coeffs[pos] = 1;
        } else {
            c.coeffs[pos] = Q - 1;
        }
        i += 1;
    }
    c
}


/// The matrix has `K` rows of `K` polynomials.
pub open spec fn mat_shape_ok(m: Seq<Seq<Seq<i64>>>) -> bool {
    m.len() == K && forall|i: int| 0 <= i < K ==> (#[trigger] m[i]).len() == K
}

/// `b = A * s + e` in `R_q^k` for some error vector `e` whose coefficients
/// have centered magnitude at most `eta`.
pub open spec fn keygen_relation(a: Seq<Seq<Seq<i64>>>, s: Seq<Seq<i64>>, b: Seq<Seq<i64>>) -> bool {
    exists|e: Seq<Seq<i64>>|
        e.len() == K && (forall|i: int| 0 <= i < K ==> #[trigger] is_small_seq(e[i])) && forall|i: int|
            0 <= i < K ==> #[trigger] ints(b[i]) == ring_add(matvec_spec(mints(a), vints(s))[i], ints(e[i]))
}

/// Module-LWE key pair: the credential secret and its public key.
///
/// The secret vector is the witness of authorization proofs; the public
/// vector is committed into the Merkle authorization set. A key pair is only
/// meaningful under the parameters used to generate it.
pub struct MlweKeyPair {
    /// Secret vector `s` with coefficients of centered magnitude at most `eta`.
    pub(crate) secret_key: PolyVec,
    /// Public vector `b = A * s + e`.
    pub(crate) public_key: PolyVec,
}

impl MlweKeyPair {
    #[verifier::type_invariant]
    spec fn inv(self) -> bool {
        &&& self.secret_key@.len() == K
        &&& forall|i: int| 0 <= i < K ==> #[trigger] is_small_seq(self.secret_key@[i])
        &&& vec_canonical(self.public_key@)
    }

    /// The secret vector.
    pub closed spec fn secret(&self) -> Seq<Seq<i64>> {
        self.secret_key@
    }

    /// The public vector.
    pub closed spec fn public(&self) -> Seq<Seq<i64>> {
        self.public_key@
    }

    /// The secret has rank `K` with small canonical coefficients, and the
    /// public key has rank `K` with canonical coefficients.
    pub open spec fn wf(&self) -> bool {
        &&& self.secret().len() == K
        &&& forall|i: int| 0 <= i < K ==> #[trigger] is_small_seq(self.secret()[i])
        &&& vec_canonical(self.secret())
        &&& vec_canonical(self.public())
    }

    /// Every key pair satisfies `wf`.
    pub fn check_wf(&self)
        ensures
            self.wf(),
    {
        proof {
            use_type_invariant(self);
            assert forall|i: int| 0 <= i < K implies #[trigger] is_canonical_seq(self.secret()[i]) by {
                assert(is_small_seq(self.secret_key@[i]));
            }
        }
    }

    /// Returns the public key vector `b = A * s + e`.
    pub fn public_key(&self) -> (r: &PolyVec)
        ensures
            r@ == self.public(),
            vec_canonical(r@),
    {
        self.check_wf();
        &self.public_key
    }

    /// Returns the secret key vector. The secret is the proof witness: it
    /// must not be logged, serialized or shared.
    pub fn secret_key(&self) -> (r: &PolyVec)
        ensures
            r@ == self.secret(),
            vec_canonical(r@),
    {
        self.check_wf();
        &self.secret_key
    }

    /// Computes the credential commitment of the public key.
    pub fn commitment(&self) -> (h: [u8; 32])
        ensures
            h@ == commitment_spec(self.public()),
    {
        commitment_hash(&self.public_key)
    }

    /// Consumes the key pair, overwriting the coefficients of the secret and
    /// public vectors with zeros before their memory is released.
    pub fn wipe(self) {
        let MlweKeyPair { mut secret_key, mut public_key } = self;
        secret_key.zeroize();
        public_key.zeroize();
    }

    /// Derives the scope-bound nullifier of this key pair.
    pub fn nullifier(&self, scope: &[u8]) -> (h: [u8; 32])
        ensures
            h@ == nullifier_spec(self.secret(), scope@),
    {
        derive_nullifier(&self.secret_key, scope)
    }
}

/// `b` is the public key `A * s + e` in `R_q^k`.
pub open spec fn is_public_key(a: Seq<Seq<Seq<i64>>>, s: Seq<Seq<i64>>, e: Seq<Seq<i64>>, b: Seq<Seq<i64>>) -> bool {
    &&& b.len() == K
    &&& forall|i: int| 0 <= i < K ==> #[trigger] ints(b[i]) == ring_add(matvec_spec(mints(a), vints(s))[i], ints(e[i]))
}

/// Builds the key pair with secret `s` and error `e`: the public key is
/// `b = A * s + e`.
pub fn keygen_from(params: &MlweParams, secret_key: PolyVec, error: &PolyVec) -> (kp: MlweKeyPair)
    requires
        mat_shape_ok(params.matrix_a@),
        secret_key@.len() == K,
        forall|i: int| 0 <= i < K ==> #[trigger] is_small_seq(secret_key@[i]),
        error@.len() == K,
        forall|i: int| 0 <= i < K ==> #[trigger] is_small_seq(error@[i]),
    ensures
        kp.wf(),
        kp.secret() == secret_key@,
        is_public_key(params.matrix_a@, secret_key@, error@, kp.public()),
        keygen_relation(params.matrix_a@, kp.secret(), kp.public()),
{
    proof {
        assert forall|i: int, j: int| 0 <= i < K && 0 <= j < K implies #[trigger] mul_fits(params.matrix_a@[i][j], secret_key@[j]) by {
            assert(is_small_seq(secret_key@[j]));
            lemma_mul_fits_canonical(params.matrix_a@[i][j], secret_key@[j]);
        }
    }
    let public_without_error = params.matrix_a.mul_vec(&secret_key);
    proof {
        assert forall|i: int| 0 <= i < K implies #[trigger] crate::poly::add_fits(public_without_error@[i], error@[i]) by {
            assert(is_small_seq(error@[i]));
            lemma_canonical_fits(public_without_error@[i], error@[i]);
        }
        assert forall|i: int| 0 <= i < K implies #[trigger] is_canonical_seq(error@[i]) by {
            assert(is_small_seq(error@[i]));
        }
        assert(error.is_canonical());
    }
    let public_key = public_without_error.add(error);
    let kp = MlweKeyPair { secret_key, public_key };
    assert(kp.wf()) by {
        assert forall|i: int| 0 <= i < K implies #[trigger] is_canonical_seq(kp.secret()[i]) by {
            assert(is_small_seq(kp.secret()[i]));
        }
    }
    assert(is_public_key(params.matrix_a@, kp.secret(), error@, kp.public()));
    assert(keygen_relation(params.matrix_a@, kp.secret(), kp.public())) by {
        assert(error@.len() == K);
    }
    kp
}

/// Generates a key pair for the supplied parameters: `s` and `e` are sampled
/// from the centered binomial distribution and `b = A * s + e`.
pub fn keygen(params: &MlweParams, rng: &mut StdRng) -> (kp: MlweKeyPair)
    requires
        mat_shape_ok(params.matrix_a@),
    ensures
        kp.wf(),
        keygen_relation(params.matrix_a@, kp.secret(), kp.public()),
        forall|i: int| 0 <= i < K ==> #[trigger] is_cbd_draw(kp.secret()[i]),
        exists|e: Seq<Seq<i64>>|
            #[trigger] is_public_key(params.matrix_a@, kp.secret(), e, kp.public()) && e.len() == K && forall|i: int|
                0 <= i < K ==> #[trigger] is_cbd_draw(e[i]) && is_small_seq(e[i]),
{
    let secret_key = PolyVec::sample_cbd(rng);
    let error = PolyVec::sample_cbd(rng);
    let ghost s = secret_key@;
    let kp = keygen_from(params, secret_key, &error);
    proof {
        assert forall|i: int| 0 <= i < K implies #[trigger] is_cbd_draw(kp.secret()[i]) by {
            assert(is_small_seq(s[i]));
            assert(is_cbd_draw(s[i]));
        }
        assert forall|i: int| 0 <= i < K implies #[trigger] is_cbd_draw(error@[i]) && is_small_seq(error@[i]) by {
            assert(is_small_seq(error@[i]) && is_cbd_draw(error@[i]));
        }
        assert(is_public_key(params.matrix_a@, kp.secret(), error@, kp.public()));
    }
    kp
}


/// Number of nonzero coefficients among the first `n`.
pub open spec fn nonzero_count(c: Seq<i64>, n: int) -> int
    decreases n,
{
    if n <= 0 {
        0
    } else {
        nonzero_count(c, n - 1) + if c[n - 1] != 0 {
            1int
        } else {
            0int
        }
    }
}

proof fn lemma_count_update(c: Seq<i64>, j: int, v: i64, n: int)
    requires
        0 <= j < c.len(),
        0 <= n <= c.len(),
    ensures
        n <= j ==> nonzero_count(c.update(j, v), n) == nonzero_count(c, n),
        n > j ==> nonzero_count(c.update(j, v), n) <= nonzero_count(c, n) + 1,
    decreases n,
{
    if n > 0 {
        lemma_count_update(c, j, v, n - 1);
    }
}

proof fn lemma_count_zero(n: int)
    requires
        0 <= n <= N,
    ensures
        nonzero_count(Seq::new(N as nat, |k: int| 0i64), n) == 0,
    decreases n,
{
    if n > 0 {
        lemma_count_zero(n - 1);
    }
}

proof fn lemma_draw_range(msg: Seq<u8>, p: nat, bound: int, fuel: nat)
    requires
        bound > 0,
    ensures
        0 <= challenge_draw(msg, p, bound, fuel).0 < bound,
    decreases fuel,
{
    if !((stream_u16(msg, p) as int) < challenge_zone(bound)) && fuel > 1 {
        lemma_draw_range(msg, p + 2, bound, (fuel - 1) as nat);
    }
}

proof fn lemma_rounds_weight(msg: Seq<u8>, signs: u64, i: nat, positions: Seq<u16>, c: Seq<i64>, p: nat)
    requires
        i <= TAU,
        c.len() == N,
        is_ternary_seq(c),
        positions.len() == N,
        forall|x: int| 0 <= x < N ==> #[trigger] positions[x] < N,
    ensures
        is_ternary_seq(challenge_rounds(msg, signs, i, positions, c, p)),
        nonzero_count(challenge_rounds(msg, signs, i, positions, c, p), N as int) <= nonzero_count(c, N as int) + (TAU - i),
    decreases TAU - i,
{
    if i < TAU {
        let (j, p2) = challenge_draw(msg, p, N - i, CHALLENGE_ATTEMPTS as nat);
        lemma_draw_range(msg, p, N - i, CHALLENGE_ATTEMPTS as nat);
        let s = N - 1 - i;
        let shuffled = positions.update(s, positions[j]).update(j, positions[s]);
        assert forall|x: int| 0 <= x < N implies #[trigger] shuffled[x] < N by {
            if x == j {
            } else if x == s {
            } else {
                assert(shuffled[x] == positions[x]);
            }
        }
        let idx = shuffled[s] as int;
        let c2 = c.update(idx, sign_coeff(signs, i as int));
        assert(is_ternary_seq(c2)) by {
            assert forall|k: int| 0 <= k < N implies #[trigger] c2[k] == 0 || c2[k] == 1 || c2[k] == Q - 1 by {
                if k != idx {
                    assert(c2[k] == c[k]);
                }
            }
        }
        lemma_count_update(c, idx, sign_coeff(signs, i as int), N as int);
        lemma_rounds_weight(msg, signs, i + 1, shuffled, c2, p2);
    }
}

/// A challenge has at most `tau` nonzero coefficients, each `1` or `q - 1`.
pub proof fn lemma_challenge_weight(seed: Seq<u8>)
    ensures
        is_ternary_seq(challenge_spec(seed)),
        nonzero_count(challenge_spec(seed), N as int) <= TAU,
{
    let zero = Seq::new(N as nat, |k: int| 0i64);
    lemma_count_zero(N as int);
    lemma_rounds_weight(seed, challenge_signs(seed), 0, Seq::new(N as nat, |k: int| k as u16), zero, 8);
}

proof fn lemma_count_fill(c: Seq<i64>, j: int, v: i64, n: int)
    requires
        0 <= j < c.len(),
        0 <= n <= c.len(),
        c[j] == 0,
        v != 0,
    ensures
        n <= j ==> nonzero_count(c.update(j, v), n) == nonzero_count(c, n),
        n > j ==> nonzero_count(c.update(j, v), n) == nonzero_count(c, n) + 1,
    decreases n,
{
    if n > 0 {
        lemma_count_fill(c, j, v, n - 1);
    }
}

proof fn lemma_rounds_exact(msg: Seq<u8>, signs: u64, i: nat, positions: Seq<u16>, c: Seq<i64>, p: nat)
    requires
        i <= TAU,
        c.len() == N,
        positions.len() == N,
        forall|x: int| 0 <= x < N ==> #[trigger] positions[x] < N,
        forall|x: int, y: int| 0 <= x < N && 0 <= y < N && x != y ==> #[trigger] positions[x] != #[trigger] positions[y],
        forall|x: int| 0 <= x < N - i ==> #[trigger] c[positions[x] as int] == 0,
    ensures
        nonzero_count(challenge_rounds(msg, signs, i, positions, c, p), N as int) == nonzero_count(c, N as int) + (TAU - i),
    decreases TAU - i,
{
    if i < TAU {
        let (j, p2) = challenge_draw(msg, p, N - i, CHALLENGE_ATTEMPTS as nat);
        lemma_draw_range(msg, p, N - i, CHALLENGE_ATTEMPTS as nat);
        let s = N - 1 - i;
        let shuffled = positions.update(s, positions[j]).update(j, positions[s]);
        assert forall|x: int| 0 <= x < N implies #[trigger] shuffled[x] < N by {
            if x == j {
            } else if x == s {
            } else {
                assert(shuffled[x] == positions[x]);
            }
        }
        assert forall|x: int, y: int| 0 <= x < N && 0 <= y < N && x != y implies #[trigger] shuffled[x] != #[trigger] shuffled[y] by {
            let ox = if x == j { s as int } else if x == s { j } else { x };
            let oy = if y == j { s as int } else if y == s { j } else { y };
            assert(shuffled[x] == positions[ox]);
            assert(shuffled[y] == positions[oy]);
            assert(ox != oy);
        }
        let idx = shuffled[s] as int;
        assert(idx == positions[j] as int);
        assert(c[idx] == 0);
        let v = sign_coeff(signs, i as int);
        let c2 = c.update(idx, v);
        assert forall|x: int| 0 <= x < N - (i + 1) implies #[trigger] c2[shuffled[x] as int] == 0 by {
            let ox = if x == j { s as int } else { x };
            assert(shuffled[x] == positions[ox]);
            assert(ox < N - i);
            assert(shuffled[x] != shuffled[s as int]);
        }
        lemma_count_fill(c, idx, v, N as int);
        lemma_rounds_exact(msg, signs, i + 1, shuffled, c2, p2);
    }
}

/// A challenge has exactly `tau` nonzero coefficients.
pub proof fn lemma_challenge_exact_weight(seed: Seq<u8>)
    ensures
        nonzero_count(challenge_spec(seed), N as int) == TAU,
{
    let zero = Seq::new(N as nat, |k: int| 0i64);
    let ident = Seq::new(N as nat, |k: int| k as u16);
    lemma_count_zero(N as int);
    assert forall|x: int| 0 <= x < N implies #[trigger] ident[x] < N by {
    }
    assert forall|x: int, y: int| 0 <= x < N && 0 <= y < N && x != y implies #[trigger] ident[x] != #[trigger] ident[y] by {
    }
    lemma_rounds_exact(seed, challenge_signs(seed), 0, ident, zero, 8);
}

/// Seed layout law: the stream that expands a parameter seed hashes the
/// domain separator followed by every byte of the 32-byte seed, in order.
pub proof fn lemma_seed_message_layout(seed: Seq<u8>)
    requires
        seed.len() == 32,
    ensures
        params_seed_message(seed).len() == params_seed_domain().len() + 32,
        params_seed_message(seed).subrange(0, params_seed_domain().len() as int) == params_seed_domain(),
        forall|k: int| 0 <= k < 32 ==> #[trigger] params_seed_message(seed)[params_seed_domain().len() + k] == seed[k],
{
    assert(params_seed_message(seed).subrange(0, params_seed_domain().len() as int) =~= params_seed_domain());
}

/// Seeds that differ in any byte are expanded from different stream
/// messages.
pub proof fn lemma_seed_message_injective(s1: Seq<u8>, s2: Seq<u8>)
    requires
        s1.len() == 32,
        s2.len() == 32,
        s1 != s2,
    ensures
        params_seed_message(s1) != params_seed_message(s2),
{
    lemma_seed_message_layout(s1);
    lemma_seed_message_layout(s2);
    let d = params_seed_domain().len() as int;
    if params_seed_message(s1) == params_seed_message(s2) {
        assert forall|k: int| 0 <= k < 32 implies s1[k] == s2[k] by {
            assert(params_seed_message(s1)[d + k] == s1[k]);
            assert(params_seed_message(s2)[d + k] == s2[k]);
        }
        assert(s1 =~= s2);
    }
}

/// Position that round `r` fixes when the rounds run from round `i` with
/// the position table `positions` and stream position `p`.
pub open spec fn round_position(msg: Seq<u8>, i: nat, positions: Seq<u16>, p: nat, r: nat) -> int
    decreases TAU - i,
{
    if i >= TAU {
        0
    } else {
        let (j, p2) = challenge_draw(msg, p, N - i, CHALLENGE_ATTEMPTS as nat);
        let s = N - 1 - i;
        let shuffled = positions.update(s, positions[j]).update(j, positions[s]);
        if i == r {
            shuffled[s] as int
        } else {
            round_position(msg, i + 1, shuffled, p2, r)
        }
    }
}

/// Coefficient position that round `r` of the challenge sampler fills.
pub open spec fn challenge_position(seed: Seq<u8>, r: nat) -> int {
    round_position(seed, 0, Seq::new(N as nat, |k: int| k as u16), 8, r)
}

/// Positions already fixed by earlier rounds are not written again.
proof fn lemma_rounds_keep_fixed(msg: Seq<u8>, signs: u64, i: nat, positions: Seq<u16>, c: Seq<i64>, p: nat, t: int)
    requires
        i <= TAU,
        c.len() == N,
        positions.len() == N,
        forall|x: int| 0 <= x < N ==> #[trigger] positions[x] < N,
        forall|x: int, y: int| 0 <= x < N && 0 <= y < N && x != y ==> #[trigger] positions[x] != #[trigger] positions[y],
        N - i <= t < N,
    ensures
        challenge_rounds(msg, signs, i, positions, c, p)[positions[t] as int] == c[positions[t] as int],
    decreases TAU - i,
{
    if i < TAU {
        let (j, p2) = challenge_draw(msg, p, N - i, CHALLENGE_ATTEMPTS as nat);
        lemma_draw_range(msg, p, N - i, CHALLENGE_ATTEMPTS as nat);
        let s = N - 1 - i;
        let shuffled = positions.update(s, positions[j]).update(j, positions[s]);
        assert forall|x: int| 0 <= x < N implies #[trigger] shuffled[x] < N by {
            if x == j {
            } else if x == s {
            } else {
                assert(shuffled[x] == positions[x]);
            }
        }
        assert forall|x: int, y: int| 0 <= x < N && 0 <= y < N && x != y implies #[trigger] shuffled[x] != #[trigger] shuffled[y] by {
            let ox = if x == j { s as int } else if x == s { j } else { x };
            let oy = if y == j { s as int } else if y == s { j } else { y };
            assert(shuffled[x] == positions[ox]);
            assert(shuffled[y] == positions[oy]);
            assert(ox != oy);
        }
        assert(shuffled[t] == positions[t]);
        let idx = shuffled[s as int] as int;
        assert(shuffled[s as int] != shuffled[t]);
        let c2 = c.update(idx, sign_coeff(signs, i as int));
        lemma_rounds_keep_fixed(msg, signs, i + 1, shuffled, c2, p2, t);
    }
}

/// Round `r` leaves its signed unit at the position it fills.
proof fn lemma_round_value(msg: Seq<u8>, signs: u64, i: nat, positions: Seq<u16>, c: Seq<i64>, p: nat, r: nat)
    requires
        i <= r < TAU,
        c.len() == N,
        positions.len() == N,
        forall|x: int| 0 <= x < N ==> #[trigger] positions[x] < N,
        forall|x: int, y: int| 0 <= x < N && 0 <= y < N && x != y ==> #[trigger] positions[x] != #[trigger] positions[y],
    ensures
        0 <= round_position(msg, i, positions, p, r) < N,
        challenge_rounds(msg, signs, i, positions, c, p)[round_position(msg, i, positions, p, r)] == sign_coeff(
            signs,
            r as int,
        ),
    decreases TAU - i,
{
    let (j, p2) = challenge_draw(msg, p, N - i, CHALLENGE_ATTEMPTS as nat);
    lemma_draw_range(msg, p, N - i, CHALLENGE_ATTEMPTS as nat);
    let s = N - 1 - i;
    let shuffled = positions.update(s, positions[j]).update(j, positions[s]);
    assert forall|x: int| 0 <= x < N implies #[trigger] shuffled[x] < N by {
        if x == j {
        } else if x == s {
        } else {
            assert(shuffled[x] == positions[x]);
        }
    }
    assert forall|x: int, y: int| 0 <= x < N && 0 <= y < N && x != y implies #[trigger] shuffled[x] != #[trigger] shuffled[y] by {
        let ox = if x == j { s as int } else if x == s { j } else { x };
        let oy = if y == j { s as int } else if y == s { j } else { y };
        assert(shuffled[x] == positions[ox]);
        assert(shuffled[y] == positions[oy]);
        assert(ox != oy);
    }
    let idx = shuffled[s as int] as int;
    let c2 = c.update(idx, sign_coeff(signs, i as int));
    if i == r {
        lemma_rounds_keep_fixed(msg, signs, i + 1, shuffled, c2, p2, s as int);
    } else {
        lemma_round_value(msg, signs, i + 1, shuffled, c2, p2, r);
    }
}

/// Bit `8 m + b` of a little-endian word is bit `b` of its byte `m`.
proof fn lemma_le_word_bits(w: u64, b: u64)
    requires
        b < 8,
    ensures
        (((w & 0xff) as u8) >> (b as u8)) & 1 == ((w >> b) & 1) as u8,
        ((((w >> 8) & 0xff) as u8) >> (b as u8)) & 1 == ((w >> (8 + b)) & 1) as u8,
        ((((w >> 16) & 0xff) as u8) >> (b as u8)) & 1 == ((w >> (16 + b)) & 1) as u8,
        ((((w >> 24) & 0xff) as u8) >> (b as u8)) & 1 == ((w >> (24 + b)) & 1) as u8,
        ((((w >> 32) & 0xff) as u8) >> (b as u8)) & 1 == ((w >> (32 + b)) & 1) as u8,
        ((((w >> 40) & 0xff) as u8) >> (b as u8)) & 1 == ((w >> (40 + b)) & 1) as u8,
        ((((w >> 48) & 0xff) as u8) >> (b as u8)) & 1 == ((w >> (48 + b)) & 1) as u8,
        ((((w >> 56) & 0xff) as u8) >> (b as u8)) & 1 == ((w >> (56 + b)) & 1) as u8,
{
    assert({
        &&& (((w & 0xff) as u8) >> (b as u8)) & 1 == ((w >> b) & 1) as u8
        &&& ((((w >> 8) & 0xff) as u8) >> (b as u8)) & 1 == ((w >> (8 + b)) & 1) as u8
        &&& ((((w >> 16) & 0xff) as u8) >> (b as u8)) & 1 == ((w >> (16 + b)) & 1) as u8
        &&& ((((w >> 24) & 0xff) as u8) >> (b as u8)) & 1 == ((w >> (24 + b)) & 1) as u8
        &&& ((((w >> 32) & 0xff) as u8) >> (b as u8)) & 1 == ((w >> (32 + b)) & 1) as u8
        &&& ((((w >> 40) & 0xff) as u8) >> (b as u8)) & 1 == ((w >> (40 + b)) & 1) as u8
        &&& ((((w >> 48) & 0xff) as u8) >> (b as u8)) & 1 == ((w >> (48 + b)) & 1) as u8
        &&& ((((w >> 56) & 0xff) as u8) >> (b as u8)) & 1 == ((w >> (56 + b)) & 1) as u8
    }) by (bit_vector)
        requires
            b < 8,
    ;
}

/// Sign law of the challenge: the coefficient that round `r` fills is
/// `q - 1` exactly when bit `r % 8` of stream byte `r / 8` is set, and `1`
/// otherwise; the first eight stream bytes hold one sign bit per round.
pub proof fn lemma_challenge_signs_are_stream_bits(seed: Seq<u8>)
    ensures
        forall|r: int|
            #![trigger challenge_position(seed, r as nat)]
            0 <= r < TAU ==> 0 <= challenge_position(seed, r as nat) < N && challenge_spec(seed)[challenge_position(
                seed,
                r as nat,
            )] == (if (shake256_byte(seed, (r / 8) as nat) >> ((r % 8) as u8)) & 1 == 1 {
                (Q - 1) as i64
            } else {
                1i64
            }),
{
    let ident = Seq::new(N as nat, |k: int| k as u16);
    let zero = Seq::new(N as nat, |k: int| 0i64);
    let signs = challenge_signs(seed);
    let bytes = shake256_out(seed, 8);
    vstd::bytes::lemma_auto_spec_u64_to_from_le_bytes();
    assert(vstd::bytes::spec_u64_to_le_bytes(vstd::bytes::spec_u64_from_le_bytes(bytes)) == bytes);
    vstd::bytes::spec_u64_to_le_bytes_to_open(signs);
    let open = vstd::bytes::spec_u64_to_le_bytes_open(signs);
    assert(open == bytes);
    assert forall|x: int| 0 <= x < N implies #[trigger] ident[x] < N by {}
    assert forall|x: int, y: int| 0 <= x < N && 0 <= y < N && x != y implies #[trigger] ident[x] != #[trigger] ident[y] by {}
    assert forall|r: int|
        #![trigger challenge_position(seed, r as nat)]
        0 <= r < TAU implies 0 <= challenge_position(seed, r as nat) < N && challenge_spec(seed)[challenge_position(
            seed,
            r as nat,
        )] == (if (shake256_byte(seed, (r / 8) as nat) >> ((r % 8) as u8)) & 1 == 1 {
            (Q - 1) as i64
        } else {
            1i64
        }) by {
        lemma_round_value(seed, signs, 0, ident, zero, 8, r as nat);
        let k = r / 8;
        let bit = (r % 8) as u64;
        lemma_le_word_bits(signs, bit);
        assert(0 <= k < 8);
        assert(bytes[k] == shake256_byte(seed, k as nat));
        let bv = (bytes[k] >> (bit as u8)) & 1;
        assert(bv == ((signs >> (r as u64)) & 1) as u8) by {
            if k == 0 {
                assert(open[0] == (signs & 0xff) as u8);
            } else if k == 1 {
                assert(open[1] == ((signs >> 8) & 0xff) as u8);
            } else if k == 2 {
                assert(open[2] == ((signs >> 16) & 0xff) as u8);
            } else if k == 3 {
                assert(open[3] == ((signs >> 24) & 0xff) as u8);
            } else if k == 4 {
                assert(open[4] == ((signs >> 32) & 0xff) as u8);
            } else if k == 5 {
                assert(open[5] == ((signs >> 40) & 0xff) as u8);
            } else if k == 6 {
                assert(open[6] == ((signs >> 48) & 0xff) as u8);
            } else {
                assert(open[7] == ((signs >> 56) & 0xff) as u8);
            }
        }
        let sh = r as u64;
        let masked = (signs >> sh) & 1;
        assert(masked <= 1) by (bit_vector)
            requires
                masked == (signs >> sh) & 1,
        ;
        assert(bit as u8 == (r % 8) as u8);
        assert(shake256_byte(seed, (r / 8) as nat) == bytes[k]);
        assert(((shake256_byte(seed, (r / 8) as nat) >> ((r % 8) as u8)) & 1 == 1) == (masked != 0));
        assert(challenge_spec(seed) == challenge_rounds(seed, signs, 0, ident, zero, 8));
        assert(challenge_position(seed, r as nat) == round_position(seed, 0, ident, 8, r as nat));
    }
}

} // verus!
