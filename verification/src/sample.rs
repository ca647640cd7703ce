//! Sampling of polynomials, vectors and matrices from random bytes.
//!
//! Each sampler draws its bytes from the caller's generator and maps them to
//! coefficients with verified code; the contracts state what holds for every
//! possible draw.

use vstd::prelude::*;
use rand::rngs::StdRng;
use crate::poly::{
    centered, is_canonical_seq, vec_canonical, Poly, PolyMat, PolyVec, GAMMA1, K, N,
    Q,
};
use crate::random::random_bytes;

verus! {

/// Upper bound on rejection-sampling draws for one coefficient. Beyond it
/// the last candidate is reduced modulo `q` instead of being redrawn; with a
/// rejection probability below one in a thousand per draw this bound is
/// never reached in practice.
pub const SAMPLE_ATTEMPTS: u32 = 65536;

/// Number of set bits among the two low bits of `x`.
pub open spec fn popcount2(x: u8) -> int {
    (x & 1) as int + ((x >> 1u8) & 1) as int
}

/// Nibble `i` (low nibble first) of a byte string.
pub open spec fn nibble(b: Seq<u8>, i: int) -> u8 {
    (b[i / 2] >> (4 * (i % 2)) as u8) & 0x0f
}

/// Centered binomial value encoded by a nibble: the difference of the bit
/// counts of its two halves, in `[-2, 2]`.
pub open spec fn cbd_value(n: u8) -> int {
    popcount2(n & 3) - popcount2((n >> 2u8) & 3)
}

/// The centered-binomial polynomial determined by 128 random bytes.
pub open spec fn cbd_poly(b: Seq<u8>) -> Seq<i64> {
    Seq::new(N as nat, |i: int| (cbd_value(nibble(b, i)) % (Q as int)) as i64)
}

/// A candidate coefficient: the low 23 bits of a little-endian 32-bit word
/// whose first three bytes are `b0`, `b1`, `b2`.
pub open spec fn cand23(b0: u8, b1: u8, b2: u8) -> int {
    b0 + 256 * b1 + 65536 * (b2 % 128)
}

/// Every coefficient is the canonical representative of a value in
/// `[-gamma1 + 1, gamma1]`.
pub open spec fn is_masking_seq(s: Seq<i64>) -> bool {
    is_canonical_seq(s) && forall|i: int| 0 <= i < N ==> -GAMMA1 + 1 <= #[trigger] centered(s[i]) <= GAMMA1
}

/// Every coefficient has centered magnitude at most `eta`.
pub open spec fn is_small_seq(s: Seq<i64>) -> bool {
    is_canonical_seq(s) && forall|i: int| 0 <= i < N ==> -2 <= #[trigger] centered(s[i]) <= 2
}

/// The 18-bit masking candidate of the little-endian word starting at byte
/// `4 * i`.
pub open spec fn masking_cand(b: Seq<u8>, i: int) -> int {
    b[4 * i] + 256 * b[4 * i + 1] + 65536 * (b[4 * i + 2] % 4)
}

/// The masking polynomial determined by `4 * N` random bytes: coefficient `i`
/// is the 18-bit candidate of word `i`, shifted to `[-gamma1 + 1, gamma1]`
/// and reduced to `[0, q)`.
pub open spec fn masking_poly(b: Seq<u8>) -> Seq<i64> {
    Seq::new(N as nat, |i: int| ((masking_cand(b, i) - GAMMA1 + 1) % (Q as int)) as i64)
}

/// `p` is the masking polynomial of some `4 * N` drawn bytes.
pub open spec fn is_masking_draw(p: Seq<i64>) -> bool {
    exists|b: Seq<u8>| b.len() == 4 * N && p == #[trigger] masking_poly(b)
}

/// `p` is the centered-binomial polynomial of some 128 drawn bytes.
pub open spec fn is_cbd_draw(p: Seq<i64>) -> bool {
    exists|b: Seq<u8>| b.len() == 128 && p == #[trigger] cbd_poly(b)
}

/// One rejection-sampling step on a candidate `c`: once `N` coefficients are
/// collected nothing changes; a candidate below `q` is accepted; after
/// `SAMPLE_ATTEMPTS` failed candidates for one coefficient the last one is
/// reduced modulo `q`; otherwise the failure is counted.
pub open spec fn uniform_step(acc: Seq<i64>, fails: nat, c: int) -> (Seq<i64>, nat) {
    if acc.len() >= N {
        (acc, fails)
    } else if c < Q {
        (acc.push(c as i64), 0)
    } else if fails + 1 >= SAMPLE_ATTEMPTS {
        (acc.push((c - Q) as i64), 0)
    } else {
        (acc, fails + 1)
    }
}

/// Coefficients collected, and failures counted for the next one, after
/// the first `g` four-byte candidates of `b`.
pub open spec fn uniform_draw_state(b: Seq<u8>, g: nat) -> (Seq<i64>, nat)
    decreases g,
{
    if g == 0 {
        (Seq::empty(), 0)
    } else {
        let prev = uniform_draw_state(b, (g - 1) as nat);
        let o = 4 * (g - 1);
        uniform_step(prev.0, prev.1, cand23(b[o], b[o + 1], b[o + 2]))
    }
}

/// The coefficients rejection sampling collects from the drawn bytes `b`,
/// read four at a time.
pub open spec fn uniform_poly(b: Seq<u8>) -> Seq<i64> {
    uniform_draw_state(b, b.len() / 4).0
}

/// `p` is what rejection sampling collects from some drawn bytes.
pub open spec fn is_uniform_draw(p: Seq<i64>) -> bool {
    exists|b: Seq<u8>| b.len() % 4 == 0 && p == #[trigger] uniform_poly(b)
}

/// The state after `g` candidates depends only on the bytes they occupy.
proof fn lemma_uniform_state_prefix(b: Seq<u8>, x: Seq<u8>, g: nat)
    requires
        4 * g <= b.len(),
    ensures
        uniform_draw_state(b + x, g) == uniform_draw_state(b, g),
    decreases g,
{
    if g > 0 {
        lemma_uniform_state_prefix(b, x, (g - 1) as nat);
        let o = 4 * (g - 1);
        assert((b + x)[o] == b[o] && (b + x)[o + 1] == b[o + 1] && (b + x)[o + 2] == b[o + 2]);
    }
}

/// Candidate value of a 4-byte draw, masked to 23 bits.
pub fn candidate23(b: &[u8]) -> (v: i64)
    requires
        b@.len() == 4,
    ensures
        v == cand23(b@[0], b@[1], b@[2]),
        0 <= v < 0x80_0000,
{
    let b0 = b[0];
    let b1 = b[1];
    let b2 = b[2];
    let b3 = b[3];
    let word = (b0 as u32) | ((b1 as u32) << 8u32) | ((b2 as u32) << 16u32) | ((b3 as u32) << 24u32);
    let masked = word & 0x7F_FFFF;
    assert(masked == b0 + 256 * b1 + 65536 * (b2 % 128) && masked < 0x80_0000) by (bit_vector)
        requires
            word == (b0 as u32) | ((b1 as u32) << 8u32) | ((b2 as u32) << 16u32) | ((b3 as u32) << 24u32),
            masked == word & 0x7F_FFFF;
    masked as i64
}

impl Poly {
    /// Maps 128 bytes to a centered-binomial polynomial with `eta = 2`: each
    /// coefficient is the difference of the bit counts of the two halves of
    /// one nibble, reduced to `[0, q)`.
    pub fn from_cbd_bytes(bytes: &[u8]) -> (p: Poly)
        requires
            bytes@.len() == 128,
        ensures
            p@ == cbd_poly(bytes@),
            is_small_seq(p@),
    {
        let mut poly = Poly::zero();
        let mut i: usize = 0;
        while i < N
            invariant
                0 <= i <= N,
                bytes@.len() == 128,
                poly@.len() == N,
                forall|j: int| 0 <= j < i ==> #[trigger] poly@[j] == cbd_poly(bytes@)[j],
                forall|j: int| 0 <= j < N ==> 0 <= #[trigger] poly@[j] < Q,
                forall|j: int| 0 <= j < i ==> -2 <= #[trigger] cbd_value(nibble(bytes@, j)) <= 2,
            decreases N - i,
        {
            let bit_offset = i * 4;
            let byte_idx = bit_offset / 8;
            let bit_idx = bit_offset % 8;
            assert(byte_idx == i / 2 && bit_idx == 4 * (i % 2));
            let nib = (bytes[byte_idx] >> (bit_idx as u8)) & 0x0F;
            assert(nib == nibble(bytes@, i as int));
            let a_bits = nib & 0x03;
            let b_bits = (nib >> 2u8) & 0x03;
            assert(a_bits & 1 <= 1 && (a_bits >> 1u8) & 1 <= 1 && b_bits & 1 <= 1 && (b_bits >> 1u8) & 1 <= 1) by (bit_vector);
            let a_count = (a_bits & 1) + ((a_bits >> 1u8) & 1);
            let b_count = (b_bits & 1) + ((b_bits >> 1u8) & 1);
            let coeff = (a_count as i64) - (b_count as i64);
            assert(coeff == cbd_value(nib));
            let reduced = if coeff < 0 { coeff + Q } else { coeff };
            assert(reduced == (coeff as int) % (Q as int));
            poly.coeffs[i] = reduced;
            i += 1;
        }
        assert(poly@ =~= cbd_poly(bytes@));
        assert forall|j: int| 0 <= j < N implies -2 <= #[trigger] centered(poly@[j]) <= 2 by {
            assert(-2 <= cbd_value(nibble(bytes@, j)) <= 2);
        }
        poly
    }

    /// Samples a polynomial from the centered binomial distribution with
    /// `eta = 2`, drawing 128 bytes from `rng`.
    pub fn sample_cbd(rng: &mut StdRng) -> (p: Poly)
        ensures
            is_cbd_draw(p@),
            is_small_seq(p@),
    {
        let bytes = random_bytes(rng, 128);
        Poly::from_cbd_bytes(bytes.as_slice())
    }

    /// Samples a polynomial with coefficients uniform in `[0, q)` by
    /// rejection sampling 23-bit candidates drawn four bytes at a time.
    pub fn sample_uniform(rng: &mut StdRng) -> (p: Poly)
        ensures
            p.is_canonical(),
            is_uniform_draw(p@),
    {
        let ghost mut drawn: Seq<u8> = Seq::empty();
        let mut poly = Poly::zero();
        let mut i: usize = 0;
        while i < N
            invariant
                0 <= i <= N,
                poly@.len() == N,
                forall|j: int| 0 <= j < N ==> 0 <= #[trigger] poly@[j] < Q,
                drawn.len() % 4 == 0,
                uniform_draw_state(drawn, drawn.len() / 4) == (poly@.take(i as int), 0nat),
            decreases N - i,
        {
            let mut attempts: u32 = 0;
            let mut value: i64 = 0;
            loop
                invariant_except_break
                    attempts < SAMPLE_ATTEMPTS,
                    uniform_draw_state(drawn, drawn.len() / 4) == (poly@.take(i as int), attempts as nat),
                invariant
                    0 <= i < N,
                    poly@.len() == N,
                    drawn.len() % 4 == 0,
                ensures
                    0 <= value < Q,
                    uniform_draw_state(drawn, drawn.len() / 4) == (poly@.take(i as int).push(value), 0nat),
                decreases SAMPLE_ATTEMPTS - attempts,
            {
                let candidate_bytes = random_bytes(rng, 4);
                let candidate = candidate23(candidate_bytes.as_slice());
                proof {
                    let g: nat = drawn.len() / 4;
                    let o: int = 4 * (g as int);
                    let next = drawn + candidate_bytes@;
                    lemma_uniform_state_prefix(drawn, candidate_bytes@, g);
                    assert(next.len() / 4 == g + 1);
                    assert(next[o] == candidate_bytes@[0] && next[o + 1] == candidate_bytes@[1]
                        && next[o + 2] == candidate_bytes@[2]);
                    drawn = next;
                }
                attempts += 1;
                if candidate < Q {
                    value = candidate;
                    break;
                }
                if attempts >= SAMPLE_ATTEMPTS {
                    value = candidate - Q;
                    break;
                }
            }
            proof {
                assert(poly@.take(i as int).push(value) =~= poly@.update(i as int, value).take(i + 1));
            }
            poly.coeffs[i] = value;
            i += 1;
        }
        assert(poly@.take(N as int) =~= poly@);
        assert(uniform_poly(drawn) == poly@);
        poly
    }

    /// Maps `4 * N` bytes to a masking polynomial: each coefficient takes
    /// the low 18 bits of one little-endian 32-bit word, shifted to
    /// `[-gamma1 + 1, gamma1]` and stored in `[0, q)`. Every 18-bit
    /// candidate lies in the range, so none is rejected.
    pub fn masking_from_bytes(bytes: &[u8]) -> (p: Poly)
        requires
            bytes@.len() == 4 * N,
        ensures
            p@ == masking_poly(bytes@),
            is_masking_seq(p@),
    {
        let mut poly = Poly::zero();
        let mut i: usize = 0;
        while i < N
            invariant
                0 <= i <= N,
                bytes@.len() == 4 * N,
                poly@.len() == N,
                forall|j: int| 0 <= j < i ==> #[trigger] poly@[j] == masking_poly(bytes@)[j],
                forall|j: int| 0 <= j < N ==> 0 <= #[trigger] poly@[j] < Q,
                forall|j: int| 0 <= j < i ==> -GAMMA1 + 1 <= #[trigger] centered(poly@[j]) <= GAMMA1,
            decreases N - i,
        {
            let b0 = bytes[4 * i];
            let b1 = bytes[4 * i + 1];
            let b2 = bytes[4 * i + 2];
            let b3 = bytes[4 * i + 3];
            let word = (b0 as u32) | ((b1 as u32) << 8u32) | ((b2 as u32) << 16u32) | ((b3 as u32) << 24u32);
            let candidate = word & 0x0003_FFFF;
            assert(candidate == b0 + 256 * b1 + 65536 * (b2 % 4) && candidate < 0x4_0000) by (bit_vector)
                requires
                    word == (b0 as u32) | ((b1 as u32) << 8u32) | ((b2 as u32) << 16u32) | ((b3 as u32) << 24u32),
                    candidate == word & 0x0003_FFFF;
            assert(candidate == masking_cand(bytes@, i as int));
            let shifted = (candidate as i64) - GAMMA1 + 1;
            let value = if shifted < 0 { shifted + Q } else { shifted };
            assert(value == (shifted as int) % (Q as int));
            poly.coeffs[i] = value;
            assert(centered(value) == shifted);
            i += 1;
        }
        assert(poly@ =~= masking_poly(bytes@));
        poly
    }

    /// Samples a masking polynomial with coefficients uniform in
    /// `[-gamma1 + 1, gamma1]`, stored in `[0, q)`, from `4 * N` bytes drawn
    /// from `rng`.
    pub fn sample_masking(rng: &mut StdRng) -> (p: Poly)
        ensures
            is_masking_draw(p@),
            is_masking_seq(p@),
    {
        let bytes = random_bytes(rng, 4 * N);
        Poly::masking_from_bytes(bytes.as_slice())
    }
}

impl PolyVec {
    /// Samples a vector of `k` uniform polynomials.
    pub fn sample_uniform(rng: &mut StdRng) -> (v: PolyVec)
        ensures
            v.is_canonical(),
            forall|i: int| 0 <= i < K ==> #[trigger] is_uniform_draw(v@[i]),
    {
        let mut polys: Vec<Poly> = Vec::new();
        let mut i: usize = 0;
        while i < K
            invariant
                0 <= i <= K,
                polys@.len() == i,
                forall|j: int| 0 <= j < i ==> #[trigger] is_canonical_seq(polys@[j]@) && is_uniform_draw(polys@[j]@),
            decreases K - i,
        {
            polys.push(Poly::sample_uniform(rng));
            i += 1;
        }
        let v = PolyVec { polys };
        assert forall|j: int| 0 <= j < K implies #[trigger] is_canonical_seq(v@[j]) by {
            assert(v@[j] == polys@[j]@);
            assert(is_canonical_seq(polys@[j]@) && is_uniform_draw(polys@[j]@));
        }
        assert forall|j: int| 0 <= j < K implies #[trigger] is_uniform_draw(v@[j]) by {
            assert(v@[j] == polys@[j]@);
            assert(is_canonical_seq(polys@[j]@) && is_uniform_draw(polys@[j]@));
        }
        v
    }

    /// Samples a vector of `k` centered-binomial polynomials.
    pub fn sample_cbd(rng: &mut StdRng) -> (v: PolyVec)
        ensures
            v@.len() == K,
            forall|i: int| 0 <= i < K ==> #[trigger] is_small_seq(v@[i]) && is_cbd_draw(v@[i]),
            v.is_canonical(),
    {
        let mut polys: Vec<Poly> = Vec::new();
        let mut i: usize = 0;
        while i < K
            invariant
                0 <= i <= K,
                polys@.len() == i,
                forall|j: int| 0 <= j < i ==> #[trigger] is_small_seq(polys@[j]@) && is_cbd_draw(polys@[j]@),
            decreases K - i,
        {
            polys.push(Poly::sample_cbd(rng));
            i += 1;
        }
        let v = PolyVec { polys };
        assert forall|j: int| 0 <= j < K implies #[trigger] is_small_seq(v@[j]) && is_cbd_draw(v@[j]) by {
            assert(v@[j] == polys@[j]@);
            assert(is_small_seq(polys@[j]@) && is_cbd_draw(polys@[j]@));
        }
        assert forall|j: int| 0 <= j < K implies #[trigger] is_canonical_seq(v@[j]) by {
            assert(is_small_seq(v@[j]));
        }
        v
    }

    /// Samples a vector of `k` masking polynomials.
    pub fn sample_masking(rng: &mut StdRng) -> (v: PolyVec)
        ensures
            v@.len() == K,
            forall|i: int| 0 <= i < K ==> #[trigger] is_masking_seq(v@[i]) && is_masking_draw(v@[i]),
            v.is_canonical(),
    {
        let mut polys: Vec<Poly> = Vec::new();
        let mut i: usize = 0;
        while i < K
            invariant
                0 <= i <= K,
                polys@.len() == i,
                forall|j: int| 0 <= j < i ==> #[trigger] is_masking_seq(polys@[j]@) && is_masking_draw(polys@[j]@),
            decreases K - i,
        {
            polys.push(Poly::sample_masking(rng));
            i += 1;
        }
        let v = PolyVec { polys };
        assert forall|j: int| 0 <= j < K implies #[trigger] is_masking_seq(v@[j]) && is_masking_draw(v@[j]) by {
            assert(v@[j] == polys@[j]@);
            assert(is_masking_seq(polys@[j]@) && is_masking_draw(polys@[j]@));
        }
        assert forall|j: int| 0 <= j < K implies #[trigger] is_canonical_seq(v@[j]) by {
            assert(is_masking_seq(v@[j]));
        }
        v
    }
}

impl PolyMat {
    /// Samples a uniform random `k x k` matrix.
    pub fn sample_uniform(rng: &mut StdRng) -> (m: PolyMat)
        ensures
            m.is_canonical(),
            forall|r: int, c: int| 0 <= r < K && 0 <= c < K ==> #[trigger] is_uniform_draw(m@[r][c]),
    {
        let mut rows: Vec<PolyVec> = Vec::new();
        let mut i: usize = 0;
        while i < K
            invariant
                0 <= i <= K,
                rows@.len() == i,
                forall|j: int| 0 <= j < i ==> #[trigger] vec_canonical(rows@[j]@),
                forall|j: int, c: int| 0 <= j < i && 0 <= c < K ==> #[trigger] is_uniform_draw(rows@[j]@[c]),
            decreases K - i,
        {
            rows.push(PolyVec::sample_uniform(rng));
            i += 1;
        }
        let m = PolyMat { rows };
        assert forall|j: int| 0 <= j < K implies #[trigger] vec_canonical(m@[j]) by {
            assert(m@[j] == rows@[j]@);
        }
        assert forall|j: int, c: int| 0 <= j < K && 0 <= c < K implies #[trigger] is_uniform_draw(m@[j][c]) by {
            assert(m@[j] == rows@[j]@);
        }
        m
    }
}

/// Centered-binomial law: coefficient `i` of the polynomial sampled from
/// bytes `b` is, modulo `q`, the number of set bits among bits `4(i % 2)`
/// and `4(i % 2) + 1` of byte `b[i / 2]` minus the number of set bits among
/// its bits `4(i % 2) + 2` and `4(i % 2) + 3`.
pub proof fn lemma_cbd_coefficient_bits(b: Seq<u8>, i: int)
    requires
        b.len() == 128,
        0 <= i < N,
    ensures
        ({
            let byte = b[i / 2];
            let sh: u8 = if i % 2 == 0 { 0 } else { 4 };
            let v: int = ((byte >> sh) & 1) as int + ((byte >> (sh + 1) as u8) & 1) as int - ((byte >> (sh + 2) as u8)
                & 1) as int - ((byte >> (sh + 3) as u8) & 1) as int;
            cbd_poly(b)[i] == (v % (Q as int)) as i64
        }),
{
    let byte = b[i / 2];
    let sh: u8 = if i % 2 == 0 { 0 } else { 4 };
    let n = nibble(b, i);
    assert(n == (byte >> sh) & 0x0f);
    assert({
        &&& (n & 3) & 1 == (byte >> sh) & 1
        &&& ((n & 3) >> 1u8) & 1 == (byte >> (sh + 1) as u8) & 1
        &&& ((n >> 2u8) & 3) & 1 == (byte >> (sh + 2) as u8) & 1
        &&& (((n >> 2u8) & 3) >> 1u8) & 1 == (byte >> (sh + 3) as u8) & 1
    }) by (bit_vector)
        requires
            n == (byte >> sh) & 0x0f,
            sh == 0 || sh == 4,
    ;
}

} // verus!
