//! Polynomial arithmetic over `R_q = Z_q[X] / (X^256 + 1)`.
//!
//! Module-LWE keys, responses and verifier relations are built from these
//! polynomials. Arithmetic and norm checks traverse the full ring dimension
//! with branch-free coefficient updates; decoding rejects out-of-range
//! coefficients before any arithmetic.

use vstd::prelude::*;
use zeroize::Zeroize;
use crate::ring::{
    conv, conv_sum, ints, lemma_conv_sum_bound, nega, ring_add, ring_mul, ring_sub, row_col,
};

verus! {

/// Ring dimension: polynomials have 256 coefficients.
pub const N: usize = 256;

/// Module rank: vectors and matrices have dimension `k = 2`.
pub const K: usize = 2;

/// Prime modulus `q = 8_380_417 = 2^23 - 2^13 + 1`.
pub const Q: i64 = 8_380_417;

/// Half of `q`, used for the centered representation.
pub const Q_HALF: i64 = 4_190_208;

/// Secret key coefficient bound (centered binomial distribution parameter).
pub const ETA: i64 = 2;

/// Challenge polynomial weight: number of non-zero (±1) coefficients.
pub const TAU: usize = 39;

/// Masking coefficients are uniform in `[-gamma1 + 1, gamma1]`; `gamma1 = 2^17`.
pub const GAMMA1: i64 = 131_072;

/// Rejection bound `beta = tau * eta = 78`: the largest infinity-norm
/// contribution of `c * s` for a weight-`tau` challenge and an `eta`-bounded
/// secret.
pub const BETA: i64 = (TAU as i64) * ETA;

/// Largest magnitude of a coefficient product accepted by multiplication, so
/// that the 256-term accumulation fits in `i128`.
pub const PRODUCT_BOUND: i128 = 332306998946228968225951765070086144;

/// `-1` when the low bit of `bit` is set, `0` otherwise.
fn ct_mask_from_bool(bit: u64) -> (r: i64)
    ensures
        r == (if bit & 1 == 1 { -1i64 } else { 0i64 }),
{
    let low = bit & 1;
    assert(low == 0 || low == 1) by (bit_vector)
        requires low == bit & 1;
    0i64.wrapping_sub(low as i64)
}

/// `-1` when `value` is negative, `0` otherwise.
fn ct_is_negative(value: i64) -> (r: i64)
    ensures
        r == (if value < 0 { -1i64 } else { 0i64 }),
{
    let sign = ((value as u64) >> 63u64) & 1;
    assert((sign & 1 == 1) == (value < 0)) by (bit_vector)
        requires sign == ((value as u64) >> 63u64) & 1;
    ct_mask_from_bool(sign)
}

/// Selects `b` under an all-ones mask and `a` under a zero mask.
fn ct_select_i64(a: i64, b: i64, mask: i64) -> (r: i64)
    ensures
        r == (a & !mask) | (b & mask),
        mask == -1 ==> r == b,
        mask == 0 ==> r == a,
{
    let r = (a & !mask) | (b & mask);
    assert(mask == -1 ==> r == b) by (bit_vector)
        requires r == (a & !mask) | (b & mask);
    assert(mask == 0 ==> r == a) by (bit_vector)
        requires r == (a & !mask) | (b & mask);
    r
}

/// `-1` when `a >= b`, `0` otherwise.
fn ct_ge_i64(a: i64, b: i64) -> (r: i64)
    ensures
        r == (if a >= b { -1i64 } else { 0i64 }),
{
    let diff = (a as i128) - (b as i128);
    let lt = ((diff >> 127u32) & 1) as u64;
    assert((lt == 1) == (diff < 0) && (lt == 0 || lt == 1)) by (bit_vector)
        requires lt == ((diff >> 127u32) & 1) as u64;
    let flipped = lt ^ 1;
    assert((flipped & 1 == 1) == (lt == 0)) by (bit_vector)
        requires flipped == lt ^ 1, lt == 0 || lt == 1;
    ct_mask_from_bool(flipped)
}

/// Absolute value with two's-complement wrap-around at `i64::MIN`.
fn ct_abs_i64(value: i64) -> (r: i64)
    ensures
        r == wrapping_abs(value),
{
    let mask = ct_is_negative(value);
    let flipped = value ^ mask;
    assert(value < 0 ==> flipped == -1i64 - value) by (bit_vector)
        requires mask == (if value < 0 { -1i64 } else { 0i64 }), flipped == value ^ mask;
    assert(value >= 0 ==> flipped == value) by (bit_vector)
        requires mask == (if value < 0 { -1i64 } else { 0i64 }), flipped == value ^ mask;
    flipped.wrapping_sub(mask)
}

/// Absolute value with two's-complement wrap-around at `i64::MIN`.
pub open spec fn wrapping_abs(v: i64) -> int {
    if v == i64::MIN {
        v as int
    } else if v < 0 {
        -v
    } else {
        v as int
    }
}

/// Sum of two coefficients with one conditional subtraction of `q`.
pub open spec fn add_mod_q_spec(a: i64, b: i64) -> int {
    if a + b >= Q {
        a + b - Q
    } else {
        a + b
    }
}

/// Difference of two coefficients with one conditional addition of `q`.
pub open spec fn sub_mod_q_spec(a: i64, b: i64) -> int {
    if a - b < 0 {
        a - b + Q
    } else {
        a - b
    }
}

/// Centered representative of a coefficient.
pub open spec fn centered(c: i64) -> int {
    if c >= Q_HALF + 1 {
        c - Q
    } else {
        c as int
    }
}

/// Magnitude of a coefficient in centered representation.
pub open spec fn coeff_norm(c: i64) -> int {
    let v = centered(c);
    if v < 0 {
        -v
    } else {
        v
    }
}

fn add_mod_q(a: i64, b: i64) -> (r: i64)
    requires
        i64::MIN <= a + b <= i64::MAX,
    ensures
        r == add_mod_q_spec(a, b),
{
    let sum = a + b;
    let mask = ct_ge_i64(sum, Q);
    assert((Q & mask) == (if mask == -1 { Q } else { 0 })) by (bit_vector)
        requires mask == -1 || mask == 0;
    sum - (Q & mask)
}

fn sub_mod_q(a: i64, b: i64) -> (r: i64)
    requires
        i64::MIN <= a - b <= i64::MAX,
    ensures
        r == sub_mod_q_spec(a, b),
{
    let diff = a - b;
    let mask = ct_is_negative(diff);
    assert((Q & mask) == (if mask == -1 { Q } else { 0 })) by (bit_vector)
        requires mask == -1 || mask == 0;
    diff + (Q & mask)
}

fn centered_coeff(c: i64) -> (r: i64)
    requires
        c >= i64::MIN + Q,
    ensures
        r == centered(c),
{
    ct_select_i64(c, c - Q, ct_ge_i64(c, Q_HALF + 1))
}

fn ct_max_i64(a: i64, b: i64) -> (r: i64)
    requires
        a < i64::MAX,
    ensures
        r == (if b > a { b } else { a }),
{
    ct_select_i64(a, b, ct_ge_i64(b, a + 1))
}

} // verus!

verus! {

/// Largest centered magnitude over the first `n` coefficients (0 when empty).
pub open spec fn norm_upto(s: Seq<i64>, n: int) -> int
    decreases n,
{
    if n <= 0 {
        0
    } else {
        let m = norm_upto(s, n - 1);
        let c = coeff_norm(s[n - 1]);
        if c > m {
            c
        } else {
            m
        }
    }
}

/// Maximum law: the largest centered magnitude over the first `n`
/// coefficients bounds each of them and is attained by one of them (it is 0
/// when `n` is 0).
pub proof fn lemma_norm_upto_is_max(s: Seq<i64>, n: int)
    requires
        0 <= n <= s.len(),
    ensures
        forall|i: int| 0 <= i < n ==> #[trigger] coeff_norm(s[i]) <= norm_upto(s, n),
        n == 0 ==> norm_upto(s, n) == 0,
        n > 0 ==> exists|i: int| 0 <= i < n && norm_upto(s, n) == #[trigger] coeff_norm(s[i]),
    decreases n,
{
    if n > 0 {
        lemma_norm_upto_is_max(s, n - 1);
        if n - 1 > 0 {
            let w = choose|i: int| 0 <= i < n - 1 && norm_upto(s, n - 1) == #[trigger] coeff_norm(s[i]);
            if norm_upto(s, n) != coeff_norm(s[n - 1]) {
                assert(norm_upto(s, n) == coeff_norm(s[w]));
            }
        } else {
            assert(coeff_norm(s[0]) >= 0);
        }
        assert(norm_upto(s, n) == coeff_norm(s[n - 1]) ==> coeff_norm(s[n - 1]) == norm_upto(s, n));
    }
}

/// Every coefficient has centered magnitude strictly below `bound`.
pub open spec fn norm_lt(s: Seq<i64>, bound: int) -> bool {
    forall|i: int| 0 <= i < N ==> #[trigger] coeff_norm(s[i]) < bound
}

/// Every coefficient can be centered without overflow.
pub open spec fn centerable(s: Seq<i64>) -> bool {
    forall|i: int| 0 <= i < N ==> #[trigger] s[i] >= i64::MIN + Q
}

/// Every coefficient lies in `[0, q)`.
pub open spec fn is_canonical_seq(s: Seq<i64>) -> bool {
    s.len() == N && forall|i: int| 0 <= i < N ==> 0 <= #[trigger] s[i] < Q
}

/// Every coefficient product of `a` and `b` is small enough for the `i128`
/// accumulation of a negacyclic product.
pub open spec fn mul_fits(a: Seq<i64>, b: Seq<i64>) -> bool {
    forall|i: int, j: int|
        #![trigger a[i], b[j]]
        0 <= i < N && 0 <= j < N ==> -PRODUCT_BOUND <= (a[i] as int) * (b[j] as int)
            <= PRODUCT_BOUND
}

/// Coefficient-wise sums of `a` and `b` fit in `i64`.
pub open spec fn add_fits(a: Seq<i64>, b: Seq<i64>) -> bool {
    forall|i: int| 0 <= i < N ==> i64::MIN <= #[trigger] a[i] + b[i] <= i64::MAX
}

/// Coefficient-wise differences of `a` and `b` fit in `i64`.
pub open spec fn sub_fits(a: Seq<i64>, b: Seq<i64>) -> bool {
    forall|i: int| 0 <= i < N ==> i64::MIN <= #[trigger] a[i] - b[i] <= i64::MAX
}

/// Polynomial element of `R_q = Z_q[X] / (X^256 + 1)`.
///
/// The coefficient array fixes the ring dimension. Decoding additionally
/// enforces coefficients in `[0, q)`, the canonical form that the arithmetic
/// produces.
#[derive(Debug, Clone, Copy, PartialEq, Eq)]
pub struct Poly {
    /// Coefficients of `a_0 + a_1 X + ... + a_255 X^255`.
    pub coeffs: [i64; N],
}

impl View for Poly {
    type V = Seq<i64>;

    open spec fn view(&self) -> Seq<i64> {
        self.coeffs@
    }
}

impl Poly {
    /// Every coefficient lies in `[0, q)`.
    pub open spec fn is_canonical(&self) -> bool {
        is_canonical_seq(self@)
    }

    /// Returns the zero polynomial.
    pub fn zero() -> (r: Poly)
        ensures
            r@ == Seq::new(N as nat, |i: int| 0i64),
            r.is_canonical(),
    {
        let r = Poly { coeffs: [0i64; N] };
        assert(r@ =~= Seq::new(N as nat, |i: int| 0i64));
        r
    }

    /// Builds a polynomial from a decoded coefficient list: `None` unless
    /// there are exactly `N` coefficients, each in `[0, q)`.
    pub fn from_coeffs(coeffs: &[i64]) -> (r: Option<Poly>)
        ensures
            r is Some <==> is_canonical_seq(coeffs@),
            r matches Some(p) ==> p@ == coeffs@,
    {
        if coeffs.len() != N {
            return None;
        }
        let mut poly = Poly::zero();
        let mut i: usize = 0;
        while i < N
            invariant
                0 <= i <= N,
                coeffs@.len() == N,
                poly@.len() == N,
                forall|j: int| 0 <= j < i ==> #[trigger] poly@[j] == coeffs@[j] && 0 <= coeffs@[j] < Q,
            decreases N - i,
        {
            let c = coeffs[i];
            if c < 0 || c >= Q {
                return None;
            }
            poly.coeffs[i] = c;
            i += 1;
        }
        assert(poly@ =~= coeffs@);
        Some(poly)
    }

    /// Reduces every coefficient to `[0, q)` by Euclidean remainder.
    pub fn reduce(&mut self)
        ensures
            forall|i: int| 0 <= i < N ==> #[trigger] final(self)@[i] == old(self)@[i] % Q,
            final(self).is_canonical(),
    {
        let mut i: usize = 0;
        while i < N
            invariant
                0 <= i <= N,
                self@.len() == N,
                forall|j: int| 0 <= j < i ==> #[trigger] self@[j] == old(self)@[j] % Q,
                forall|j: int| i <= j < N ==> #[trigger] self@[j] == old(self)@[j],
            decreases N - i,
        {
            let c = self.coeffs[i];
            let r = match c.checked_rem_euclid(Q) {
                Some(r) => r,
                None => 0,
            };
            self.coeffs[i] = r;
            i += 1;
        }
    }

    /// Infinity norm in centered representation.
    pub fn infinity_norm(&self) -> (r: i64)
        requires
            centerable(self@),
        ensures
            r == norm_upto(self@, N as int),
            0 <= r <= i64::MAX - Q + 1,
            forall|i: int| 0 <= i < N ==> #[trigger] coeff_norm(self@[i]) <= r,
            exists|i: int| 0 <= i < N && r == #[trigger] coeff_norm(self@[i]),
    {
        proof {
            lemma_norm_upto_is_max(self@, N as int);
        }
        let mut max: i64 = 0;
        let mut i: usize = 0;
        while i < N
            invariant
                0 <= i <= N,
                self@.len() == N,
                centerable(self@),
                max == norm_upto(self@, i as int),
                0 <= max <= i64::MAX - Q + 1,
            decreases N - i,
        {
            let c = self.coeffs[i];
            let centered_c = centered_coeff(c);
            let abs = ct_abs_i64(centered_c);
            assert(abs == coeff_norm(c));
            max = ct_max_i64(max, abs);
            i += 1;
        }
        max
    }

    /// Returns true when every centered coefficient magnitude is strictly
    /// below `bound`. The whole polynomial is always scanned.
    pub fn infinity_norm_lt(&self, bound: i64) -> (r: bool)
        requires
            bound > i64::MIN,
            centerable(self@),
        ensures
            r == norm_lt(self@, bound as int),
    {
        let mut ok_mask: i64 = -1;
        let mut i: usize = 0;
        while i < N
            invariant
                0 <= i <= N,
                self@.len() == N,
                centerable(self@),
                bound > i64::MIN,
                ok_mask == (if (forall|j: int| 0 <= j < i ==> #[trigger] coeff_norm(self@[j])
                    < bound) { -1i64 } else { 0i64 }),
            decreases N - i,
        {
            let c = self.coeffs[i];
            let centered_c = centered_coeff(c);
            let abs = ct_abs_i64(centered_c);
            assert(abs == coeff_norm(c));
            let ge = ct_ge_i64(bound - 1, abs);
            assert((forall|j: int| 0 <= j < i + 1 ==> #[trigger] coeff_norm(self@[j]) < bound)
                == ((forall|j: int| 0 <= j < i ==> #[trigger] coeff_norm(self@[j]) < bound)
                && coeff_norm(self@[i as int]) < bound)) by {
                if forall|j: int| 0 <= j < i ==> #[trigger] coeff_norm(self@[j]) < bound {
                    if coeff_norm(self@[i as int]) < bound {
                        assert forall|j: int| 0 <= j < i + 1 implies #[trigger] coeff_norm(self@[j]) < bound by {
                            if j < i {
                            }
                        }
                    }
                }
            }
            let prev = ok_mask;
            ok_mask = prev & ge;
            assert((prev == -1 && ge == -1) ==> ok_mask == -1) by (bit_vector)
                requires ok_mask == prev & ge;
            assert((prev == 0 || ge == 0) ==> ok_mask == 0) by (bit_vector)
                requires ok_mask == prev & ge;
            i += 1;
        }
        ok_mask == -1
    }

    /// Adds two polynomials coefficient-wise with one conditional reduction.
    pub fn add(&self, other: &Poly) -> (r: Poly)
        requires
            add_fits(self@, other@),
        ensures
            forall|i: int| 0 <= i < N ==> #[trigger] r@[i] == add_mod_q_spec(self@[i], other@[i]),
            self.is_canonical() && other.is_canonical() ==> r.is_canonical() && ints(r@)
                == ring_add(ints(self@), ints(other@)),
    {
        let mut result = Poly::zero();
        let mut i: usize = 0;
        while i < N
            invariant
                0 <= i <= N,
                result@.len() == N,
                add_fits(self@, other@),
                forall|j: int| 0 <= j < i ==> #[trigger] result@[j] == add_mod_q_spec(self@[j], other@[j]),
            decreases N - i,
        {
            result.coeffs[i] = add_mod_q(self.coeffs[i], other.coeffs[i]);
            i += 1;
        }
        assert(self.is_canonical() && other.is_canonical() ==> ints(result@) =~= ring_add(ints(self@), ints(other@)));
        result
    }

    /// Subtracts `other` from `self` coefficient-wise with one conditional
    /// correction.
    pub fn sub(&self, other: &Poly) -> (r: Poly)
        requires
            sub_fits(self@, other@),
        ensures
            forall|i: int| 0 <= i < N ==> #[trigger] r@[i] == sub_mod_q_spec(self@[i], other@[i]),
            self.is_canonical() && other.is_canonical() ==> r.is_canonical() && ints(r@)
                == ring_sub(ints(self@), ints(other@)),
    {
        let mut result = Poly::zero();
        let mut i: usize = 0;
        while i < N
            invariant
                0 <= i <= N,
                result@.len() == N,
                sub_fits(self@, other@),
                forall|j: int| 0 <= j < i ==> #[trigger] result@[j] == sub_mod_q_spec(self@[j], other@[j]),
            decreases N - i,
        {
            result.coeffs[i] = sub_mod_q(self.coeffs[i], other.coeffs[i]);
            i += 1;
        }
        assert(self.is_canonical() && other.is_canonical() ==> ints(result@) =~= ring_sub(ints(self@), ints(other@)));
        result
    }

    /// Multiplies two polynomials in `R_q = Z_q[X] / (X^256 + 1)`.
    ///
    /// Schoolbook multiplication accumulates exact products in `i128`; terms
    /// whose degree reaches `N` wrap around with a sign flip because
    /// `X^N = -1`. The accumulated coefficients are then reduced to `[0, q)`.
    pub fn mul(&self, other: &Poly) -> (r: Poly)
        requires
            mul_fits(self@, other@),
        ensures
            forall|k: int| 0 <= k < N ==> #[trigger] r@[k] == conv(ints(self@), ints(other@), k) % (Q as int),
            ints(r@) == ring_mul(ints(self@), ints(other@)),
            r.is_canonical(),
    {
        let ghost a = ints(self@);
        let ghost b = ints(other@);
        proof {
            assert forall|x: int, y: int|
                #![trigger a[x], b[y]]
                0 <= x < N && 0 <= y < N implies -PRODUCT_BOUND <= a[x] * b[y] <= PRODUCT_BOUND by {
                assert(self@[x] == a[x] && other@[y] == b[y]);
            }
        }
        let mut product_coeffs = [0i128; N];
        let mut i: usize = 0;
        while i < N
            invariant
                0 <= i <= N,
                a == ints(self@),
                b == ints(other@),
                a.len() == N,
                b.len() == N,
                forall|x: int, y: int|
                    #![trigger a[x], b[y]]
                    0 <= x < N && 0 <= y < N ==> -PRODUCT_BOUND <= a[x] * b[y] <= PRODUCT_BOUND,
                forall|k: int| 0 <= k < N ==> #[trigger] product_coeffs@[k] == conv_sum(a, b, k, i as int),
            decreases N - i,
        {
            let mut j: usize = 0;
            while j < N
                invariant
                    0 <= i < N,
                    0 <= j <= N,
                    a == ints(self@),
                    b == ints(other@),
                    a.len() == N,
                    b.len() == N,
                    forall|x: int, y: int|
                        #![trigger a[x], b[y]]
                        0 <= x < N && 0 <= y < N ==> -PRODUCT_BOUND <= a[x] * b[y] <= PRODUCT_BOUND,
                    forall|k: int|
                        0 <= k < N ==> #[trigger] product_coeffs@[k] == conv_sum(a, b, k, i as int) + (
                        if row_col(i as int, k) < j {
                            a[i as int] * nega(b, i as int, k)
                        } else {
                            0
                        }),
                decreases N - j,
            {
                assert(self@[i as int] == a[i as int] && other@[j as int] == b[j as int]);
                assert(-PRODUCT_BOUND <= a[i as int] * b[j as int] <= PRODUCT_BOUND);
                let product = (self.coeffs[i] as i128) * (other.coeffs[j] as i128);
                let idx = i + j;
                let ghost k0: int = if idx < N { idx as int } else { idx - N };
                proof {
                    lemma_conv_sum_bound(a, b, k0, i as int, PRODUCT_BOUND as int);
                    assert(row_col(i as int, k0) == j);
                    assert((i as int) * (PRODUCT_BOUND as int) <= 255 * (PRODUCT_BOUND as int)) by (nonlinear_arith)
                        requires i <= 255, PRODUCT_BOUND > 0;
                    assert(product_coeffs@[k0] == conv_sum(a, b, k0, i as int));
                }
                if idx < N {
                    assert(nega(b, i as int, k0) == b[j as int]);
                    product_coeffs[idx] = product_coeffs[idx] + product;
                } else {
                    assert(nega(b, i as int, k0) == -b[j as int]);
                    assert(a[i as int] * (-b[j as int]) == -(a[i as int] * b[j as int])) by (nonlinear_arith);
                    product_coeffs[idx - N] = product_coeffs[idx - N] - product;
                }
                proof {
                    assert forall|k: int| 0 <= k < N implies #[trigger] product_coeffs@[k] == conv_sum(a, b, k, i as int) + (
                        if row_col(i as int, k) < j + 1 {
                            a[i as int] * nega(b, i as int, k)
                        } else {
                            0
                        }) by {
                        if k != k0 {
                            assert(row_col(i as int, k) != j);
                        }
                    }
                }
                j += 1;
            }
            i += 1;
        }
        let mut out = Poly::zero();
        let mut k: usize = 0;
        while k < N
            invariant
                0 <= k <= N,
                out@.len() == N,
                a == ints(self@),
                b == ints(other@),
                forall|m: int| 0 <= m < N ==> #[trigger] product_coeffs@[m] == conv(a, b, m),
                forall|m: int| 0 <= m < k ==> #[trigger] out@[m] == conv(a, b, m) % (Q as int),
            decreases N - k,
        {
            out.coeffs[k] = mod_q_i128(product_coeffs[k]);
            k += 1;
        }
        assert(ints(out@) =~= ring_mul(a, b));
        out
    }
}

/// Euclidean remainder of `v` modulo `q`.
fn mod_q_i128(v: i128) -> (r: i64)
    ensures
        r == (v as int) % (Q as int),
        0 <= r < Q,
{
    match v.checked_rem_euclid(Q as i128) {
        Some(r) => r as i64,
        None => 0,
    }
}


/// Byte `t` (0, 1 or 2) of the little-endian 24-bit encoding of `c`.
pub open spec fn coeff_byte(c: i64, t: int) -> u8 {
    let v = c as u32;
    if t == 0 {
        v as u8
    } else if t == 1 {
        (v >> 8u32) as u8
    } else {
        (v >> 16u32) as u8
    }
}

/// Little-endian encoding of a coefficient sequence, three bytes per
/// coefficient.
pub open spec fn poly_bytes(s: Seq<i64>) -> Seq<u8> {
    Seq::new(3 * s.len(), |m: int| coeff_byte(s[m / 3], m % 3))
}

/// The 24-bit little-endian value stored at coefficient slot `i` of `b`.
pub open spec fn le24(b: Seq<u8>, i: int) -> int {
    b[3 * i] + 256 * b[3 * i + 1] + 65536 * b[3 * i + 2]
}

/// Decoding of a polynomial encoding: defined when the length is right and
/// every slot holds a value below `q`.
pub open spec fn poly_decodable(b: Seq<u8>) -> bool {
    b.len() == 3 * N && forall|i: int| 0 <= i < N ==> #[trigger] le24(b, i) < Q
}

impl Poly {
    /// Serializes the polynomial as little-endian 24-bit coefficients.
    pub fn to_bytes(&self) -> (r: Vec<u8>)
        ensures
            r@ == poly_bytes(self@),
    {
        let mut bytes: Vec<u8> = Vec::with_capacity(N * 3);
        let mut i: usize = 0;
        while i < N
            invariant
                0 <= i <= N,
                self@.len() == N,
                bytes@.len() == 3 * i,
                forall|m: int| 0 <= m < 3 * i ==> #[trigger] bytes@[m] == coeff_byte(self@[m / 3], m % 3),
            decreases N - i,
        {
            let c = self.coeffs[i];
            let v = c as u32;
            bytes.push(v as u8);
            bytes.push((v >> 8u32) as u8);
            bytes.push((v >> 16u32) as u8);
            proof {
                assert forall|m: int| 0 <= m < 3 * (i + 1) implies #[trigger] bytes@[m] == coeff_byte(self@[m / 3], m % 3) by {
                    if m >= 3 * i {
                        assert(m / 3 == i);
                    }
                }
            }
            i += 1;
        }
        assert(bytes@ =~= poly_bytes(self@));
        bytes
    }

    /// Deserializes a polynomial from little-endian 24-bit coefficients.
    ///
    /// Input of the wrong length, or with a coefficient outside `[0, q)`, is
    /// rejected with `None`.
    pub fn from_bytes(bytes: &[u8]) -> (r: Option<Poly>)
        ensures
            r.is_some() == poly_decodable(bytes@),
            r matches Some(p) ==> p.is_canonical() && forall|i: int| 0 <= i < N ==> #[trigger] p@[i] == le24(bytes@, i),
    {
        if bytes.len() != N * 3 {
            return None;
        }
        let mut poly = Poly::zero();
        let mut i: usize = 0;
        while i < N
            invariant
                0 <= i <= N,
                bytes@.len() == 3 * N,
                poly@.len() == N,
                forall|j: int| 0 <= j < i ==> #[trigger] le24(bytes@, j) < Q,
                forall|j: int| 0 <= j < i ==> #[trigger] poly@[j] == le24(bytes@, j),
                forall|j: int| 0 <= j < N ==> 0 <= #[trigger] poly@[j] < Q,
            decreases N - i,
        {
            let offset = i * 3;
            let b0 = bytes[offset];
            let b1 = bytes[offset + 1];
            let b2 = bytes[offset + 2];
            let v = (b0 as i64) | ((b1 as i64) << 8u32) | ((b2 as i64) << 16u32);
            assert(v == b0 + 256 * b1 + 65536 * b2) by (bit_vector)
                requires v == (b0 as i64) | ((b1 as i64) << 8u32) | ((b2 as i64) << 16u32);
            assert(v == le24(bytes@, i as int));
            if v >= Q {
                return None;
            }
            poly.coeffs[i] = v;
            i += 1;
        }
        Some(poly)
    }
}

/// The three encoding bytes of a coefficient in `[0, 2^24)` recombine to it.
pub proof fn lemma_coeff_bytes_roundtrip(c: i64)
    requires
        0 <= c < 0x100_0000,
    ensures
        coeff_byte(c, 0) + 256 * coeff_byte(c, 1) + 65536 * coeff_byte(c, 2) == c,
{
    let v = c as u32;
    assert((v as u8) + 256 * ((v >> 8u32) as u8) + 65536 * ((v >> 16u32) as u8) == c) by (bit_vector)
        requires v == c as u32, 0 <= c < 0x100_0000;
}

/// Decoding inverts encoding: a canonical polynomial decodes from its own
/// encoding.
pub proof fn lemma_poly_bytes_roundtrip(s: Seq<i64>)
    requires
        is_canonical_seq(s),
    ensures
        poly_decodable(poly_bytes(s)),
        forall|i: int| 0 <= i < N ==> #[trigger] le24(poly_bytes(s), i) == s[i],
{
    let b = poly_bytes(s);
    assert forall|i: int| 0 <= i < N implies #[trigger] le24(b, i) == s[i] by {
        assert((3 * i) / 3 == i && (3 * i) % 3 == 0);
        assert((3 * i + 1) / 3 == i && (3 * i + 1) % 3 == 1);
        assert((3 * i + 2) / 3 == i && (3 * i + 2) % 3 == 2);
        lemma_coeff_bytes_roundtrip(s[i]);
    }
}

/// Encoding inverts decoding: a decodable byte string is the encoding of the
/// polynomial it decodes to.
pub proof fn lemma_poly_decode_reencode(b: Seq<u8>, s: Seq<i64>)
    requires
        poly_decodable(b),
        s.len() == N,
        forall|i: int| 0 <= i < N ==> #[trigger] s[i] == le24(b, i),
    ensures
        poly_bytes(s) == b,
{
    assert forall|m: int| 0 <= m < 3 * N implies #[trigger] poly_bytes(s)[m] == b[m] by {
        let i = m / 3;
        let t = m % 3;
        assert(0 <= i < N);
        assert(s[i] == le24(b, i));
        let b0 = b[3 * i];
        let b1 = b[3 * i + 1];
        let b2 = b[3 * i + 2];
        let c = s[i];
        assert(c == b0 + 256 * b1 + 65536 * b2);
        assert(coeff_byte(c, 0) == b0 && coeff_byte(c, 1) == b1 && coeff_byte(c, 2) == b2) by {
            let v = c as u32;
            assert((v as u8) == b0 && ((v >> 8u32) as u8) == b1 && ((v >> 16u32) as u8) == b2) by (bit_vector)
                requires v == c as u32, c == b0 + 256 * b1 + 65536 * b2;
        }
    }
    assert(poly_bytes(s) =~= b);
}


/// A vector of coefficient sequences has rank `K` and canonical entries.
pub open spec fn vec_canonical(v: Seq<Seq<i64>>) -> bool {
    v.len() == K && forall|i: int| 0 <= i < K ==> #[trigger] is_canonical_seq(v[i])
}

/// Every entry of `v` can be centered without overflow.
pub open spec fn vec_centerable(v: Seq<Seq<i64>>) -> bool {
    forall|i: int| 0 <= i < v.len() ==> #[trigger] centerable(v[i])
}

/// Integer view of a vector of coefficient sequences.
pub open spec fn vints(v: Seq<Seq<i64>>) -> Seq<Seq<int>> {
    v.map_values(|p: Seq<i64>| ints(p))
}

/// Largest centered magnitude over the first `n` polynomials of `v`.
pub open spec fn vec_norm_upto(v: Seq<Seq<i64>>, n: int) -> int
    decreases n,
{
    if n <= 0 {
        0
    } else {
        let m = vec_norm_upto(v, n - 1);
        let c = norm_upto(v[n - 1], N as int);
        if c > m {
            c
        } else {
            m
        }
    }
}

/// Maximum law for vectors: the largest centered magnitude over the first
/// `n` polynomials bounds every coefficient of them and is the norm of one of
/// them.
pub proof fn lemma_vec_norm_upto_is_max(v: Seq<Seq<i64>>, n: int)
    requires
        0 <= n <= v.len(),
        forall|i: int| 0 <= i < n ==> (#[trigger] v[i]).len() == N,
    ensures
        forall|i: int, k: int| 0 <= i < n && 0 <= k < N ==> #[trigger] coeff_norm(v[i][k]) <= vec_norm_upto(v, n),
        n > 0 ==> exists|i: int| 0 <= i < n && vec_norm_upto(v, n) == #[trigger] norm_upto(v[i], N as int),
    decreases n,
{
    if n > 0 {
        lemma_vec_norm_upto_is_max(v, n - 1);
        lemma_norm_upto_is_max(v[n - 1], N as int);
        assert forall|i: int, k: int| 0 <= i < n && 0 <= k < N implies #[trigger] coeff_norm(v[i][k]) <= vec_norm_upto(v, n) by {
            if i < n - 1 {
                assert(coeff_norm(v[i][k]) <= vec_norm_upto(v, n - 1));
            } else {
                assert(coeff_norm(v[n - 1][k]) <= norm_upto(v[n - 1], N as int));
            }
        }
        if n - 1 > 0 && vec_norm_upto(v, n) != norm_upto(v[n - 1], N as int) {
            let w = choose|i: int| 0 <= i < n - 1 && vec_norm_upto(v, n - 1) == #[trigger] norm_upto(v[i], N as int);
            assert(vec_norm_upto(v, n) == norm_upto(v[w], N as int));
        }
        if n - 1 == 0 {
            lemma_norm_upto_is_max(v[0], N as int);
            assert(vec_norm_upto(v, 0) == 0);
            assert(vec_norm_upto(v, n) == norm_upto(v[0], N as int));
        }
    }
}

/// Concatenated encodings of the polynomials of `v`, in order.
pub open spec fn vec_bytes(v: Seq<Seq<i64>>) -> Seq<u8>
    decreases v.len(),
{
    if v.len() == 0 {
        Seq::empty()
    } else {
        vec_bytes(v.drop_last()) + poly_bytes(v.last())
    }
}

/// Sum of the first `n` component products `a[i] * b[i]` in `R_q`.
pub open spec fn inner_spec(a: Seq<Seq<int>>, b: Seq<Seq<int>>, n: int) -> Seq<int>
    decreases n,
{
    if n <= 0 {
        crate::ring::ring_zero()
    } else {
        ring_add(inner_spec(a, b, n - 1), ring_mul(a[n - 1], b[n - 1]))
    }
}

/// Vector of `k` polynomials in `R_q^k`.
///
/// Secret vectors, public key vectors and proof responses are values of this
/// type. Decoding enforces the rank `K`; arithmetic requires it.
#[derive(Debug, Clone, PartialEq, Eq)]
pub struct PolyVec {
    /// Component polynomials.
    pub polys: Vec<Poly>,
}

impl View for PolyVec {
    type V = Seq<Seq<i64>>;

    open spec fn view(&self) -> Seq<Seq<i64>> {
        self.polys@.map_values(|p: Poly| p@)
    }
}

impl PolyVec {
    /// Builds a vector from decoded component polynomials: `None` unless
    /// there are exactly `K` of them.
    pub fn from_polys(polys: Vec<Poly>) -> (r: Option<PolyVec>)
        ensures
            r is Some <==> polys@.len() == K,
            r matches Some(v) ==> v@ == polys@.map_values(|p: Poly| p@),
    {
        if polys.len() != K {
            return None;
        }
        Some(PolyVec { polys })
    }
}

impl PolyVec {
    /// Rank `K` with canonical coefficients.
    pub open spec fn is_canonical(&self) -> bool {
        vec_canonical(self@)
    }

    /// Returns the zero vector of dimension `k`.
    pub fn zero() -> (r: PolyVec)
        ensures
            r@.len() == K,
            forall|i: int| 0 <= i < K ==> #[trigger] r@[i] == Seq::new(N as nat, |j: int| 0i64),
            r.is_canonical(),
    {
        let mut polys: Vec<Poly> = Vec::new();
        let mut i: usize = 0;
        while i < K
            invariant
                0 <= i <= K,
                polys@.len() == i,
                forall|j: int| 0 <= j < i ==> #[trigger] polys@[j]@ == Seq::new(N as nat, |x: int| 0i64),
            decreases K - i,
        {
            polys.push(Poly::zero());
            i += 1;
        }
        PolyVec { polys }
    }

    /// Adds two vectors of rank `K` component-wise.
    pub fn add(&self, other: &PolyVec) -> (r: PolyVec)
        requires
            self@.len() == K,
            other@.len() == K,
            forall|i: int| 0 <= i < K ==> #[trigger] add_fits(self@[i], other@[i]),
        ensures
            r@.len() == K,
            forall|i: int, k: int|
                0 <= i < K && 0 <= k < N ==> #[trigger] r@[i][k] == add_mod_q_spec(self@[i][k], other@[i][k]),
            self.is_canonical() && other.is_canonical() ==> r.is_canonical() && forall|i: int|
                0 <= i < K ==> #[trigger] ints(r@[i]) == ring_add(ints(self@[i]), ints(other@[i])),
    {
        let mut polys: Vec<Poly> = Vec::new();
        let mut i: usize = 0;
        while i < K
            invariant
                0 <= i <= K,
                self@.len() == K,
                other@.len() == K,
                forall|j: int| 0 <= j < K ==> #[trigger] add_fits(self@[j], other@[j]),
                polys@.len() == i,
                forall|j: int, k: int|
                    0 <= j < i && 0 <= k < N ==> #[trigger] polys@[j]@[k] == add_mod_q_spec(self@[j][k], other@[j][k]),
                self.is_canonical() && other.is_canonical() ==> forall|j: int| 0 <= j < i ==> #[trigger] is_canonical_seq(polys@[j]@),
                self.is_canonical() && other.is_canonical() ==> forall|j: int| 0 <= j < i ==> #[trigger] ints(polys@[j]@) == ring_add(ints(self@[j]), ints(other@[j])),
            decreases K - i,
        {
            assert(add_fits(self@[i as int], other@[i as int]));
            let p = self.polys[i].add(&other.polys[i]);
            polys.push(p);
            i += 1;
        }
        let r = PolyVec { polys };
        assert forall|j: int, k: int| 0 <= j < K && 0 <= k < N implies #[trigger] r@[j][k] == add_mod_q_spec(self@[j][k], other@[j][k]) by {
            assert(r@[j] == polys@[j]@);
        }
        assert(self.is_canonical() && other.is_canonical() ==> r.is_canonical() && forall|j: int|
                0 <= j < K ==> #[trigger] ints(r@[j]) == ring_add(ints(self@[j]), ints(other@[j]))) by {
            if self.is_canonical() && other.is_canonical() {
                assert forall|j: int| 0 <= j < K implies #[trigger] is_canonical_seq(r@[j]) by {
                    assert(r@[j] == polys@[j]@);
                }
                assert forall|j: int| 0 <= j < K implies #[trigger] ints(r@[j]) == ring_add(ints(self@[j]), ints(other@[j])) by {
                    assert(r@[j] == polys@[j]@);
                }
            }
        }
        r
    }

    /// Subtracts two vectors of rank `K` component-wise.
    pub fn sub(&self, other: &PolyVec) -> (r: PolyVec)
        requires
            self@.len() == K,
            other@.len() == K,
            forall|i: int| 0 <= i < K ==> #[trigger] sub_fits(self@[i], other@[i]),
        ensures
            r@.len() == K,
            forall|i: int, k: int|
                0 <= i < K && 0 <= k < N ==> #[trigger] r@[i][k] == sub_mod_q_spec(self@[i][k], other@[i][k]),
            self.is_canonical() && other.is_canonical() ==> r.is_canonical() && forall|i: int|
                0 <= i < K ==> #[trigger] ints(r@[i]) == ring_sub(ints(self@[i]), ints(other@[i])),
    {
        let mut polys: Vec<Poly> = Vec::new();
        let mut i: usize = 0;
        while i < K
            invariant
                0 <= i <= K,
                self@.len() == K,
                other@.len() == K,
                forall|j: int| 0 <= j < K ==> #[trigger] sub_fits(self@[j], other@[j]),
                polys@.len() == i,
                forall|j: int, k: int|
                    0 <= j < i && 0 <= k < N ==> #[trigger] polys@[j]@[k] == sub_mod_q_spec(self@[j][k], other@[j][k]),
                self.is_canonical() && other.is_canonical() ==> forall|j: int| 0 <= j < i ==> #[trigger] is_canonical_seq(polys@[j]@),
                self.is_canonical() && other.is_canonical() ==> forall|j: int| 0 <= j < i ==> #[trigger] ints(polys@[j]@) == ring_sub(ints(self@[j]), ints(other@[j])),
            decreases K - i,
        {
            assert(sub_fits(self@[i as int], other@[i as int]));
            let p = self.polys[i].sub(&other.polys[i]);
            polys.push(p);
            i += 1;
        }
        let r = PolyVec { polys };
        assert forall|j: int, k: int| 0 <= j < K && 0 <= k < N implies #[trigger] r@[j][k] == sub_mod_q_spec(self@[j][k], other@[j][k]) by {
            assert(r@[j] == polys@[j]@);
        }
        assert(self.is_canonical() && other.is_canonical() ==> r.is_canonical() && forall|j: int|
                0 <= j < K ==> #[trigger] ints(r@[j]) == ring_sub(ints(self@[j]), ints(other@[j]))) by {
            if self.is_canonical() && other.is_canonical() {
                assert forall|j: int| 0 <= j < K implies #[trigger] is_canonical_seq(r@[j]) by {
                    assert(r@[j] == polys@[j]@);
                }
                assert forall|j: int| 0 <= j < K implies #[trigger] ints(r@[j]) == ring_sub(ints(self@[j]), ints(other@[j])) by {
                    assert(r@[j] == polys@[j]@);
                }
            }
        }
        r
    }
}


/// The encoding slot of polynomial `i` inside a vector encoding.
pub open spec fn vec_slot(b: Seq<u8>, i: int) -> Seq<u8> {
    b.subrange(3 * N * i, 3 * N * i + 3 * N)
}

/// A vector encoding has the length of `K` polynomials and every slot decodes.
pub open spec fn vec_decodable(b: Seq<u8>) -> bool {
    b.len() == K * 3 * N && forall|i: int| 0 <= i < K ==> #[trigger] poly_decodable(vec_slot(b, i))
}

impl PolyVec {
    /// Multiplies each component by the polynomial `scalar`.
    pub fn scalar_mul(&self, scalar: &Poly) -> (r: PolyVec)
        requires
            forall|i: int| 0 <= i < self@.len() ==> #[trigger] mul_fits(self@[i], scalar@),
        ensures
            r@.len() == self@.len(),
            forall|i: int| 0 <= i < self@.len() ==> #[trigger] ints(r@[i]) == ring_mul(ints(self@[i]), ints(scalar@)),
            forall|i: int| 0 <= i < self@.len() ==> #[trigger] is_canonical_seq(r@[i]),
    {
        let mut polys: Vec<Poly> = Vec::new();
        let mut i: usize = 0;
        while i < self.polys.len()
            invariant
                0 <= i <= self@.len(),
                self@.len() == self.polys@.len(),
                forall|j: int| 0 <= j < self@.len() ==> #[trigger] mul_fits(self@[j], scalar@),
                polys@.len() == i,
                forall|j: int| 0 <= j < i ==> #[trigger] ints(polys@[j]@) == ring_mul(ints(self@[j]), ints(scalar@)),
                forall|j: int| 0 <= j < i ==> #[trigger] is_canonical_seq(polys@[j]@),
            decreases self.polys@.len() - i,
        {
            assert(mul_fits(self@[i as int], scalar@));
            let p = self.polys[i].mul(scalar);
            polys.push(p);
            i += 1;
        }
        let r = PolyVec { polys };
        assert forall|j: int| 0 <= j < self@.len() implies #[trigger] ints(r@[j]) == ring_mul(ints(self@[j]), ints(scalar@)) by {
            assert(r@[j] == polys@[j]@);
        }
        assert forall|j: int| 0 <= j < self@.len() implies #[trigger] is_canonical_seq(r@[j]) by {
            assert(r@[j] == polys@[j]@);
        }
        r
    }

    /// Computes the inner product `sum_i self[i] * other[i]` in `R_q`.
    pub fn inner_product(&self, other: &PolyVec) -> (r: Poly)
        requires
            self@.len() == K,
            other@.len() == K,
            forall|i: int| 0 <= i < K ==> #[trigger] mul_fits(self@[i], other@[i]),
        ensures
            ints(r@) == inner_spec(vints(self@), vints(other@), K as int),
            r.is_canonical(),
    {
        let mut result = Poly::zero();
        proof {
            assert(ints(result@) =~= crate::ring::ring_zero());
        }
        let mut i: usize = 0;
        while i < K
            invariant
                0 <= i <= K,
                self@.len() == K,
                other@.len() == K,
                forall|j: int| 0 <= j < K ==> #[trigger] mul_fits(self@[j], other@[j]),
                result.is_canonical(),
                ints(result@) == inner_spec(vints(self@), vints(other@), i as int),
            decreases K - i,
        {
            assert(mul_fits(self@[i as int], other@[i as int]));
            let prod = self.polys[i].mul(&other.polys[i]);
            proof {
                assert(vints(self@)[i as int] == ints(self@[i as int]));
                assert(vints(other@)[i as int] == ints(other@[i as int]));
                assert forall|j: int| 0 <= j < N implies i64::MIN <= #[trigger] result@[j] + prod@[j] <= i64::MAX by {
                }
            }
            result = result.add(&prod);
            i += 1;
        }
        result
    }

    /// Largest centered infinity norm among the component polynomials.
    pub fn infinity_norm(&self) -> (r: i64)
        requires
            vec_centerable(self@),
        ensures
            r == vec_norm_upto(self@, self@.len() as int),
            forall|i: int, k: int| 0 <= i < self@.len() && 0 <= k < N ==> #[trigger] coeff_norm(self@[i][k]) <= r,
            self@.len() > 0 ==> exists|i: int, k: int|
                0 <= i < self@.len() && 0 <= k < N && r == #[trigger] coeff_norm(self@[i][k]),
    {
        proof {
            lemma_vec_norm_upto_is_max(self@, self@.len() as int);
            if self@.len() > 0 {
                let w = choose|i: int|
                    0 <= i < self@.len() && vec_norm_upto(self@, self@.len() as int) == #[trigger] norm_upto(self@[i], N as int);
                lemma_norm_upto_is_max(self@[w], N as int);
                let k = choose|k: int| 0 <= k < N && norm_upto(self@[w], N as int) == #[trigger] coeff_norm(self@[w][k]);
                assert(coeff_norm(self@[w][k]) == vec_norm_upto(self@, self@.len() as int));
            }
        }
        let mut max: i64 = 0;
        let mut i: usize = 0;
        while i < self.polys.len()
            invariant
                0 <= i <= self@.len(),
                self@.len() == self.polys@.len(),
                vec_centerable(self@),
                max == vec_norm_upto(self@, i as int),
                0 <= max <= i64::MAX - Q + 1,
            decreases self.polys@.len() - i,
        {
            assert(centerable(self@[i as int]));
            let n = self.polys[i].infinity_norm();
            max = ct_max_i64(max, n);
            i += 1;
        }
        max
    }

    /// Returns true when every component polynomial is strictly below
    /// `bound`; all components are always evaluated.
    pub fn infinity_norm_lt(&self, bound: i64) -> (r: bool)
        requires
            bound > i64::MIN,
            vec_centerable(self@),
        ensures
            r == (forall|i: int| 0 <= i < self@.len() ==> #[trigger] norm_lt(self@[i], bound as int)),
    {
        let mut ok = true;
        let mut i: usize = 0;
        while i < self.polys.len()
            invariant
                0 <= i <= self@.len(),
                self@.len() == self.polys@.len(),
                vec_centerable(self@),
                bound > i64::MIN,
                ok == (forall|j: int| 0 <= j < i ==> #[trigger] norm_lt(self@[j], bound as int)),
            decreases self.polys@.len() - i,
        {
            assert(centerable(self@[i as int]));
            let this = self.polys[i].infinity_norm_lt(bound);
            proof {
                assert((forall|j: int| 0 <= j < i + 1 ==> #[trigger] norm_lt(self@[j], bound as int)) == (
                    (forall|j: int| 0 <= j < i ==> #[trigger] norm_lt(self@[j], bound as int)) && norm_lt(self@[i as int], bound as int))) by {
                    if (forall|j: int| 0 <= j < i ==> #[trigger] norm_lt(self@[j], bound as int)) && norm_lt(self@[i as int], bound as int) {
                        assert forall|j: int| 0 <= j < i + 1 implies #[trigger] norm_lt(self@[j], bound as int) by {
                            if j < i {
                            }
                        }
                    }
                }
            }
            ok = ok && this;
            i += 1;
        }
        ok
    }

    /// Serializes all component polynomials in order.
    pub fn to_bytes(&self) -> (r: Vec<u8>)
        ensures
            r@ == vec_bytes(self@),
    {
        let mut bytes: Vec<u8> = Vec::new();
        let mut i: usize = 0;
        while i < self.polys.len()
            invariant
                0 <= i <= self@.len(),
                self@.len() == self.polys@.len(),
                bytes@ == vec_bytes(self@.take(i as int)),
            decreases self.polys@.len() - i,
        {
            let pb = self.polys[i].to_bytes();
            bytes.extend_from_slice(pb.as_slice());
            proof {
                let t = self@.take(i + 1);
                assert(t.drop_last() =~= self@.take(i as int));
                assert(t.last() == self@[i as int]);
            }
            i += 1;
        }
        assert(self@.take(self@.len() as int) =~= self@);
        bytes
    }

    /// Deserializes a vector of rank `K` from its byte encoding.
    ///
    /// Input of the wrong length, or with any coefficient outside `[0, q)`,
    /// is rejected with `None`.
    pub fn from_bytes(bytes: &[u8]) -> (r: Option<PolyVec>)
        ensures
            r.is_some() == vec_decodable(bytes@),
            r matches Some(v) ==> v.is_canonical() && forall|i: int, k: int|
                0 <= i < K && 0 <= k < N ==> #[trigger] v@[i][k] == le24(vec_slot(bytes@, i), k),
    {
        let poly_size = N * 3;
        if bytes.len() != K * poly_size {
            return None;
        }
        let mut polys: Vec<Poly> = Vec::with_capacity(K);
        let mut i: usize = 0;
        while i < K
            invariant
                0 <= i <= K,
                poly_size == 3 * N,
                bytes@.len() == K * 3 * N,
                polys@.len() == i,
                forall|j: int| 0 <= j < i ==> #[trigger] poly_decodable(vec_slot(bytes@, j)),
                forall|j: int| 0 <= j < i ==> #[trigger] is_canonical_seq(polys@[j]@),
                forall|j: int, k: int|
                    0 <= j < i && 0 <= k < N ==> #[trigger] polys@[j]@[k] == le24(vec_slot(bytes@, j), k),
            decreases K - i,
        {
            assert(i * poly_size + poly_size <= K * 3 * N) by (nonlinear_arith)
                requires i < K, poly_size == 3 * N;
            let start = i * poly_size;
            let end = start + poly_size;
            assert(start == 3 * N * i && end == 3 * N * i + 3 * N) by (nonlinear_arith)
                requires start == i * poly_size, end == start + poly_size, poly_size == 3 * N;
            let chunk = &bytes[start..end];
            assert(chunk@ == vec_slot(bytes@, i as int));
            match Poly::from_bytes(chunk) {
                Some(p) => {
                    polys.push(p);
                },
                None => {
                    return None;
                },
            }
            i += 1;
        }
        let v = PolyVec { polys };
        assert forall|j: int| 0 <= j < K implies #[trigger] is_canonical_seq(v@[j]) by {
            assert(v@[j] == polys@[j]@);
        }
        assert forall|j: int, k: int| 0 <= j < K && 0 <= k < N implies #[trigger] v@[j][k] == le24(vec_slot(bytes@, j), k) by {
            assert(v@[j] == polys@[j]@);
        }
        Some(v)
    }
}

/// Length of a vector encoding, and the placement of each polynomial's
/// encoding inside it.
pub proof fn lemma_vec_bytes_slots(v: Seq<Seq<i64>>)
    requires
        forall|i: int| 0 <= i < v.len() ==> (#[trigger] v[i]).len() == N,
    ensures
        vec_bytes(v).len() == 3 * N * v.len(),
        forall|i: int| 0 <= i < v.len() ==> #[trigger] vec_slot(vec_bytes(v), i) == poly_bytes(v[i]),
    decreases v.len(),
{
    if v.len() > 0 {
        let init = v.drop_last();
        lemma_vec_bytes_slots(init);
        let n = v.len() - 1;
        assert(3 * N * v.len() == 3 * N * n + 3 * N) by (nonlinear_arith)
            requires n == v.len() - 1;
        assert forall|i: int| 0 <= i < v.len() implies #[trigger] vec_slot(vec_bytes(v), i) == poly_bytes(v[i]) by {
            assert(3 * N * i + 3 * N <= 3 * N * v.len()) by (nonlinear_arith)
                requires i < v.len();
            if i < n {
                assert(3 * N * i + 3 * N <= 3 * N * n) by (nonlinear_arith)
                    requires i < n;
                assert(init[i] == v[i]);
                assert(vec_slot(vec_bytes(v), i) =~= vec_slot(vec_bytes(init), i));
            } else {
                assert(vec_slot(vec_bytes(v), i) =~= poly_bytes(v[i]));
            }
        }
    }
}

/// A canonical vector decodes from its own encoding.
pub proof fn lemma_vec_bytes_roundtrip(v: Seq<Seq<i64>>)
    requires
        vec_canonical(v),
    ensures
        vec_decodable(vec_bytes(v)),
        forall|i: int, k: int| 0 <= i < K && 0 <= k < N ==> #[trigger] le24(vec_slot(vec_bytes(v), i), k) == v[i][k],
{
    assert forall|i: int| 0 <= i < v.len() implies (#[trigger] v[i]).len() == N by {
        assert(is_canonical_seq(v[i]));
    }
    lemma_vec_bytes_slots(v);
    assert forall|i: int| 0 <= i < K implies #[trigger] poly_decodable(vec_slot(vec_bytes(v), i)) by {
        lemma_poly_bytes_roundtrip(v[i]);
    }
    assert forall|i: int, k: int| 0 <= i < K && 0 <= k < N implies #[trigger] le24(vec_slot(vec_bytes(v), i), k) == v[i][k] by {
        lemma_poly_bytes_roundtrip(v[i]);
    }
}


/// Calls `zeroize::Zeroize::zeroize` on a coefficient array, which overwrites
/// every coefficient with zero through volatile writes.
/// Calls `zeroize::Zeroize::zeroize` on a coefficient array. The contract
/// claims that every coefficient is zero afterwards, which is what the
/// crate's volatile writes of the default value produce for integer arrays.
#[verifier::external_body]
fn zeroize_coeffs(coeffs: &mut [i64; N])
    ensures
        final(coeffs)@ == Seq::new(N as nat, |i: int| 0i64),
{
    coeffs.zeroize();
}

impl Default for Poly {
    /// The zero polynomial.
    fn default() -> (r: Poly)
        ensures
            r@ == Seq::new(N as nat, |i: int| 0i64),
    {
        Poly::zero()
    }
}

impl Poly {
    /// Overwrites every coefficient with zero.
    pub fn zeroize(&mut self)
        ensures
            final(self)@ == Seq::new(N as nat, |i: int| 0i64),
    {
        zeroize_coeffs(&mut self.coeffs);
    }
}

impl PolyVec {
    /// Overwrites every component polynomial with zero, then empties the
    /// vector.
    pub fn zeroize(&mut self)
        ensures
            final(self)@.len() == 0,
    {
        let mut i: usize = 0;
        while i < self.polys.len()
            invariant
                0 <= i <= self.polys@.len(),
            decreases self.polys@.len() - i,
        {
            self.polys[i].zeroize();
            i += 1;
        }
        self.polys.clear();
    }
}

/// A matrix of coefficient sequences is `K x K` with canonical entries.
pub open spec fn mat_canonical(m: Seq<Seq<Seq<i64>>>) -> bool {
    m.len() == K && forall|i: int| 0 <= i < K ==> #[trigger] vec_canonical(m[i])
}

/// The matrix is `K x K` and every product of a matrix entry with the
/// matching entry of `v` fits the multiplication accumulator.
pub open spec fn mat_vec_ready(m: Seq<Seq<Seq<i64>>>, v: Seq<Seq<i64>>) -> bool {
    &&& m.len() == K
    &&& v.len() == K
    &&& forall|i: int| 0 <= i < K ==> (#[trigger] m[i]).len() == K
    &&& forall|i: int, j: int| 0 <= i < K && 0 <= j < K ==> #[trigger] mul_fits(m[i][j], v[j])
}

/// Integer view of a matrix.
pub open spec fn mints(m: Seq<Seq<Seq<i64>>>) -> Seq<Seq<Seq<int>>> {
    m.map_values(|r: Seq<Seq<i64>>| vints(r))
}

/// Matrix-vector product in `R_q^k`.
pub open spec fn matvec_spec(m: Seq<Seq<Seq<int>>>, v: Seq<Seq<int>>) -> Seq<Seq<int>> {
    Seq::new(K as nat, |i: int| inner_spec(m[i], v, K as int))
}

/// Matrix of polynomials in `R_q^{k x k}`, the public Module-LWE parameter.
#[derive(Debug, Clone, PartialEq, Eq)]
pub struct PolyMat {
    /// Rows of the matrix; `rows[i]` is the i-th row vector.
    pub rows: Vec<PolyVec>,
}

impl View for PolyMat {
    type V = Seq<Seq<Seq<i64>>>;

    open spec fn view(&self) -> Seq<Seq<Seq<i64>>> {
        self.rows@.map_values(|r: PolyVec| r@)
    }
}

impl PolyMat {
    /// Builds a matrix from decoded rows: `None` unless there are exactly
    /// `K` of them.
    pub fn from_rows(rows: Vec<PolyVec>) -> (r: Option<PolyMat>)
        ensures
            r is Some <==> rows@.len() == K,
            r matches Some(m) ==> m@ == rows@.map_values(|v: PolyVec| v@),
    {
        if rows.len() != K {
            return None;
        }
        Some(PolyMat { rows })
    }
}

impl PolyMat {
    /// `K x K` with canonical coefficients.
    pub open spec fn is_canonical(&self) -> bool {
        mat_canonical(self@)
    }

    /// Computes the matrix-vector product `A * v`.
    pub fn mul_vec(&self, v: &PolyVec) -> (r: PolyVec)
        requires
            mat_vec_ready(self@, v@),
        ensures
            r@.len() == K,
            forall|i: int| 0 <= i < K ==> #[trigger] ints(r@[i]) == matvec_spec(mints(self@), vints(v@))[i],
            r.is_canonical(),
    {
        let mut polys: Vec<Poly> = Vec::new();
        let mut i: usize = 0;
        while i < K
            invariant
                0 <= i <= K,
                mat_vec_ready(self@, v@),
                self.rows@.len() == K,
                polys@.len() == i,
                forall|j: int| 0 <= j < i ==> #[trigger] ints(polys@[j]@) == matvec_spec(mints(self@), vints(v@))[j],
                forall|j: int| 0 <= j < i ==> #[trigger] is_canonical_seq(polys@[j]@),
            decreases K - i,
        {
            let row = &self.rows[i];
            assert(row@ == self@[i as int]);
            assert(row@.len() == K);
            assert forall|j: int| 0 <= j < K implies #[trigger] mul_fits(row@[j], v@[j]) by {
                assert(mul_fits(self@[i as int][j], v@[j]));
            }
            let p = row.inner_product(v);
            assert(mints(self@)[i as int] == vints(row@));
            polys.push(p);
            i += 1;
        }
        let r = PolyVec { polys };
        assert forall|j: int| 0 <= j < K implies #[trigger] ints(r@[j]) == matvec_spec(mints(self@), vints(v@))[j] by {
            assert(r@[j] == polys@[j]@);
        }
        assert forall|j: int| 0 <= j < K implies #[trigger] is_canonical_seq(r@[j]) by {
            assert(r@[j] == polys@[j]@);
        }
        r
    }
}


/// Any `i64` polynomial times a canonical polynomial fits the multiplication
/// accumulator.
pub proof fn lemma_mul_fits_canonical(a: Seq<i64>, b: Seq<i64>)
    requires
        is_canonical_seq(b),
    ensures
        mul_fits(a, b),
{
    assert forall|i: int, j: int|
        #![trigger a[i], b[j]]
        0 <= i < N && 0 <= j < N implies -PRODUCT_BOUND <= (a[i] as int) * (b[j] as int) <= PRODUCT_BOUND by {
        let x = a[i] as int;
        let y = b[j] as int;
        assert(0 <= y < Q);
        assert(-PRODUCT_BOUND <= x * y <= PRODUCT_BOUND) by (nonlinear_arith)
            requires
                i64::MIN <= x <= i64::MAX,
                0 <= y < 8_380_417,
                PRODUCT_BOUND == 332306998946228968225951765070086144int;
    }
}

/// A canonical polynomial times any `i64` polynomial fits the multiplication
/// accumulator.
pub proof fn lemma_mul_fits_canonical_left(a: Seq<i64>, b: Seq<i64>)
    requires
        is_canonical_seq(a),
    ensures
        mul_fits(a, b),
{
    assert forall|i: int, j: int|
        #![trigger a[i], b[j]]
        0 <= i < N && 0 <= j < N implies -PRODUCT_BOUND <= (a[i] as int) * (b[j] as int) <= PRODUCT_BOUND by {
        let x = a[i] as int;
        let y = b[j] as int;
        assert(0 <= x < Q);
        assert(-PRODUCT_BOUND <= x * y <= PRODUCT_BOUND) by (nonlinear_arith)
            requires
                i64::MIN <= y <= i64::MAX,
                0 <= x < 8_380_417,
                PRODUCT_BOUND == 332306998946228968225951765070086144int;
    }
}

/// Canonical polynomials can be added and subtracted without overflow.
pub proof fn lemma_canonical_fits(a: Seq<i64>, b: Seq<i64>)
    requires
        is_canonical_seq(a),
        is_canonical_seq(b),
    ensures
        add_fits(a, b),
        sub_fits(a, b),
        centerable(a),
{
}

} // verus!
