//! Mathematical model of `R_q = Z_q[X] / (X^256 + 1)`.
//!
//! Polynomials are modelled as sequences of `N` integers. The product of two
//! polynomials is the negacyclic convolution: a term whose degree reaches `N`
//! wraps around with its sign flipped, since `X^N = -1`.

use vstd::prelude::*;
use vstd::arithmetic::div_mod::{lemma_fundamental_div_mod, lemma_mod_multiples_basic};
use crate::poly::{N, Q};

verus! {

/// Integer view of a coefficient sequence.
pub open spec fn ints(s: Seq<i64>) -> Seq<int> {
    s.map_values(|x: i64| x as int)
}

/// The factor multiplying `a[i]` in coefficient `k` of the negacyclic
/// product `a * b`.
pub open spec fn nega(b: Seq<int>, i: int, k: int) -> int {
    if i <= k {
        b[k - i]
    } else {
        -b[k + N - i]
    }
}

/// Contribution of the first `n` coefficients of `a` to coefficient `k` of
/// the negacyclic product `a * b`.
pub open spec fn conv_sum(a: Seq<int>, b: Seq<int>, k: int, n: int) -> int
    decreases n,
{
    if n <= 0 {
        0
    } else {
        conv_sum(a, b, k, n - 1) + a[n - 1] * nega(b, n - 1, k)
    }
}

/// Coefficient `k` of the negacyclic product `a * b` over the integers.
pub open spec fn conv(a: Seq<int>, b: Seq<int>, k: int) -> int {
    conv_sum(a, b, k, N as int)
}

/// Integer negacyclic product.
pub open spec fn conv_seq(a: Seq<int>, b: Seq<int>) -> Seq<int> {
    Seq::new(N as nat, |k: int| conv(a, b, k))
}

/// Product in `R_q` with canonical coefficients.
pub open spec fn ring_mul(a: Seq<int>, b: Seq<int>) -> Seq<int> {
    Seq::new(N as nat, |k: int| conv(a, b, k) % (Q as int))
}

/// Sum in `R_q` with canonical coefficients.
pub open spec fn ring_add(a: Seq<int>, b: Seq<int>) -> Seq<int> {
    Seq::new(N as nat, |k: int| (a[k] + b[k]) % (Q as int))
}

/// Difference in `R_q` with canonical coefficients.
pub open spec fn ring_sub(a: Seq<int>, b: Seq<int>) -> Seq<int> {
    Seq::new(N as nat, |k: int| (a[k] - b[k]) % (Q as int))
}

/// The zero polynomial.
pub open spec fn ring_zero() -> Seq<int> {
    Seq::new(N as nat, |k: int| 0)
}

/// Every coefficient lies in `[0, q)`.
pub open spec fn canonical(s: Seq<int>) -> bool {
    s.len() == N && forall|k: int| 0 <= k < N ==> 0 <= #[trigger] s[k] < Q
}

} // verus!

verus! {

/// Column of row `i` of the schoolbook product that lands on coefficient `k`.
pub open spec fn row_col(i: int, k: int) -> int {
    if k >= i {
        k - i
    } else {
        k + N - i
    }
}

/// Bounds every negacyclic product term by the bound on coefficient products.
pub proof fn lemma_nega_term_bound(a: Seq<int>, b: Seq<int>, i: int, k: int, bound: int)
    requires
        0 <= i < N,
        0 <= k < N,
        a.len() == N,
        b.len() == N,
        forall|x: int, y: int|
            #![trigger a[x], b[y]]
            0 <= x < N && 0 <= y < N ==> -bound <= a[x] * b[y] <= bound,
    ensures
        -bound <= a[i] * nega(b, i, k) <= bound,
{
    if i <= k {
        assert(-bound <= a[i] * b[k - i] <= bound);
    } else {
        let m = k + N - i;
        assert(-bound <= a[i] * b[m] <= bound);
        assert(a[i] * (-b[m]) == -(a[i] * b[m])) by (nonlinear_arith);
    }
}

/// A partial negacyclic sum of `n` terms is bounded by `n` times the bound on
/// each term.
pub proof fn lemma_conv_sum_bound(a: Seq<int>, b: Seq<int>, k: int, n: int, bound: int)
    requires
        0 <= k < N,
        0 <= n <= N,
        a.len() == N,
        b.len() == N,
        forall|x: int, y: int|
            #![trigger a[x], b[y]]
            0 <= x < N && 0 <= y < N ==> -bound <= a[x] * b[y] <= bound,
    ensures
        -(n * bound) <= conv_sum(a, b, k, n) <= n * bound,
    decreases n,
{
    if n > 0 {
        lemma_conv_sum_bound(a, b, k, n - 1, bound);
        lemma_nega_term_bound(a, b, n - 1, k, bound);
        assert(n * bound == (n - 1) * bound + bound) by (nonlinear_arith);
    }
}

} // verus!

verus! {

/// `f(0) + ... + f(n - 1)`.
pub open spec fn sum(f: spec_fn(int) -> int, n: int) -> int
    decreases n,
{
    if n <= 0 {
        0
    } else {
        sum(f, n - 1) + f(n - 1)
    }
}

/// Sums of pointwise equal terms are equal.
pub proof fn lemma_sum_ext(f: spec_fn(int) -> int, g: spec_fn(int) -> int, n: int)
    requires
        forall|i: int| 0 <= i < n ==> #[trigger] f(i) == g(i),
    ensures
        sum(f, n) == sum(g, n),
    decreases n,
{
    if n > 0 {
        lemma_sum_ext(f, g, n - 1);
    }
}

/// A sum splits into its first term and the rest.
pub proof fn lemma_sum_peel_first(f: spec_fn(int) -> int, n: int)
    requires
        n >= 1,
    ensures
        sum(f, n) == f(0) + sum(|i: int| f(i + 1), n - 1),
    decreases n,
{
    if n == 1 {
        assert(sum(f, 0) == 0);
        assert(sum(|i: int| f(i + 1), 0) == 0);
    } else {
        lemma_sum_peel_first(f, n - 1);
        assert(sum(|i: int| f(i + 1), n - 1) == sum(|i: int| f(i + 1), n - 2) + f(n - 1));
    }
}

/// Sums are additive in their terms.
pub proof fn lemma_sum_add(f: spec_fn(int) -> int, g: spec_fn(int) -> int, n: int)
    ensures
        sum(|i: int| f(i) + g(i), n) == sum(f, n) + sum(g, n),
    decreases n,
{
    if n > 0 {
        lemma_sum_add(f, g, n - 1);
    }
}

/// Constant factors move out of a sum.
pub proof fn lemma_sum_scale(f: spec_fn(int) -> int, c: int, n: int)
    ensures
        sum(|i: int| c * f(i), n) == c * sum(f, n),
    decreases n,
{
    if n > 0 {
        lemma_sum_scale(f, c, n - 1);
        assert(c * sum(f, n - 1) + c * f(n - 1) == c * (sum(f, n - 1) + f(n - 1))) by (nonlinear_arith);
    }
}

/// Summing in reverse order gives the same total.
pub proof fn lemma_sum_reverse(f: spec_fn(int) -> int, n: int)
    ensures
        sum(f, n) == sum(|i: int| f(n - 1 - i), n),
    decreases n,
{
    if n > 0 {
        let g = |i: int| f(n - 1 - i);
        lemma_sum_peel_first(g, n);
        lemma_sum_reverse(f, n - 1);
        lemma_sum_ext(|i: int| g(i + 1), |i: int| f(n - 1 - 1 - i), n - 1);
    }
}

/// Shifting the window of a sum of `n`-periodic terms by one step keeps the
/// total.
proof fn lemma_sum_window_step(f: spec_fn(int) -> int, s: int, n: int)
    requires
        n >= 1,
        forall|i: int| #[trigger] f(i + n) == f(i),
    ensures
        sum(|j: int| f(j + s + 1), n) == sum(|j: int| f(j + s), n),
{
    let g = |j: int| f(j + s);
    lemma_sum_peel_first(g, n);
    lemma_sum_ext(|i: int| g(i + 1), |j: int| f(j + s + 1), n - 1);
    assert(sum(|j: int| f(j + s + 1), n) == sum(|j: int| f(j + s + 1), n - 1) + f(n - 1 + s + 1));
    assert(f(s + n) == f(s));
}

/// Any window of `n` consecutive terms of an `n`-periodic function sums to
/// the same total.
pub proof fn lemma_sum_window(f: spec_fn(int) -> int, s: int, n: int)
    requires
        n >= 1,
        forall|i: int| #[trigger] f(i + n) == f(i),
    ensures
        sum(|j: int| f(j + s), n) == sum(f, n),
    decreases (if s >= 0 { s } else { -s }),
{
    if s > 0 {
        lemma_sum_window_step(f, s - 1, n);
        lemma_sum_window(f, s - 1, n);
        lemma_sum_ext(|j: int| f(j + (s - 1) + 1), |j: int| f(j + s), n);
    } else if s < 0 {
        lemma_sum_window_step(f, s, n);
        lemma_sum_window(f, s + 1, n);
        lemma_sum_ext(|j: int| f(j + s + 1), |j: int| f(j + (s + 1)), n);
    } else {
        lemma_sum_ext(|j: int| f(j + s), f, n);
    }
}

/// Negacyclic extension of `b` to every integer index: `b` on `[0, N)`, with
/// a sign flip for every wrap around.
pub open spec fn ext(b: Seq<int>, x: int) -> int
    decreases (if x < 0 { N - x } else { x }),
{
    if 0 <= x < N {
        b[x]
    } else if x < 0 {
        -ext(b, x + N)
    } else {
        -ext(b, x - N)
    }
}

/// The extension changes sign over one period.
pub proof fn lemma_ext_anti(b: Seq<int>, x: int)
    ensures
        ext(b, x + N) == -ext(b, x),
{
}

/// The negacyclic factor is the extension at the index difference.
pub proof fn lemma_nega_ext(b: Seq<int>, i: int, k: int)
    requires
        0 <= i < N,
        0 <= k < N,
    ensures
        nega(b, i, k) == ext(b, k - i),
{
    if i > k {
        assert(ext(b, k - i) == -ext(b, k - i + N));
    }
}

/// Sum of `a[i] * ext(b, y - i)` over `i < n`: the negacyclic convolution
/// extended to every index `y`.
pub open spec fn csum(a: Seq<int>, b: Seq<int>, y: int, n: int) -> int {
    sum(|i: int| a[i] * ext(b, y - i), n)
}

proof fn lemma_conv_sum_csum(a: Seq<int>, b: Seq<int>, k: int, n: int)
    requires
        0 <= k < N,
        0 <= n <= N,
    ensures
        conv_sum(a, b, k, n) == csum(a, b, k, n),
    decreases n,
{
    if n > 0 {
        lemma_conv_sum_csum(a, b, k, n - 1);
        lemma_nega_ext(b, n - 1, k);
    }
}

/// Coefficient `k` of the negacyclic product as an extended sum.
pub proof fn lemma_conv_csum(a: Seq<int>, b: Seq<int>, k: int)
    requires
        0 <= k < N,
    ensures
        conv(a, b, k) == csum(a, b, k, N as int),
{
    lemma_conv_sum_csum(a, b, k, N as int);
}

proof fn lemma_csum_anti(a: Seq<int>, b: Seq<int>, y: int, n: int)
    ensures
        csum(a, b, y + N, n) == -csum(a, b, y, n),
    decreases n,
{
    if n > 0 {
        lemma_csum_anti(a, b, y, n - 1);
        lemma_ext_anti(b, y - (n - 1));
        assert(y + N - (n - 1) == (y - (n - 1)) + N);
        assert(a[n - 1] * (-ext(b, y - (n - 1))) == -(a[n - 1] * ext(b, y - (n - 1)))) by (nonlinear_arith);
    }
}

/// The extension of a product is the extended convolution sum.
pub proof fn lemma_ext_conv(a: Seq<int>, b: Seq<int>, y: int)
    ensures
        ext(conv_seq(a, b), y) == csum(a, b, y, N as int),
    decreases (if y < 0 { N - y } else { y }),
{
    if 0 <= y < N {
        lemma_conv_csum(a, b, y);
    } else if y < 0 {
        lemma_ext_conv(a, b, y + N);
        lemma_csum_anti(a, b, y, N as int);
    } else {
        lemma_ext_conv(a, b, y - N);
        lemma_csum_anti(a, b, y - N, N as int);
    }
}

/// Commutativity of the integer negacyclic product.
pub proof fn lemma_conv_comm(a: Seq<int>, b: Seq<int>, k: int)
    requires
        0 <= k < N,
    ensures
        conv(a, b, k) == conv(b, a, k),
{
    let n = N as int;
    let f = |i: int| ext(a, i) * ext(b, k - i);
    assert forall|i: int| #[trigger] f(i + n) == f(i) by {
        lemma_ext_anti(a, i);
        assert(k - (i + n) + n == k - i);
        lemma_ext_anti(b, k - (i + n));
        assert((-ext(a, i)) * (-ext(b, k - i)) == ext(a, i) * ext(b, k - i)) by (nonlinear_arith);
    }
    lemma_conv_csum(a, b, k);
    lemma_conv_csum(b, a, k);
    let g1 = |i: int| a[i] * ext(b, k - i);
    assert forall|i: int| 0 <= i < n implies #[trigger] g1(i) == f(i) by {
        assert(ext(a, i) == a[i]);
    }
    lemma_sum_ext(g1, f, n);
    let h = |j: int| f(k - j);
    let g2 = |j: int| b[j] * ext(a, k - j);
    assert forall|j: int| 0 <= j < n implies #[trigger] g2(j) == h(j) by {
        assert(ext(b, j) == b[j]);
        assert(k - (k - j) == j);
        let x = ext(a, k - j);
        let y = ext(b, j);
        assert(b[j] * x == x * y) by (nonlinear_arith)
            requires
                b[j] == y,
        ;
    }
    lemma_sum_ext(g2, h, n);
    lemma_sum_reverse(h, n);
    let h2 = |j: int| h(n - 1 - j);
    let f2 = |j: int| f(j + (k - n + 1));
    assert forall|j: int| 0 <= j < n implies #[trigger] h2(j) == f2(j) by {
        assert(k - (n - 1 - j) == j + (k - n + 1));
    }
    lemma_sum_ext(h2, f2, n);
    lemma_sum_window(f, k - n + 1, n);
}


/// Pointwise sum of two coefficient sequences.
pub open spec fn seq_add(u: Seq<int>, v: Seq<int>) -> Seq<int> {
    Seq::new(N as nat, |k: int| u[k] + v[k])
}

/// A coefficient sequence times a constant.
pub open spec fn seq_scale(c: int, u: Seq<int>) -> Seq<int> {
    Seq::new(N as nat, |k: int| c * u[k])
}

/// The product `X^p * s` in the negacyclic ring.
pub open spec fn shift(s: Seq<int>, p: int) -> Seq<int> {
    Seq::new(N as nat, |k: int| ext(s, k - p))
}

/// `sum_{p < n} c[p] * X^p * s`.
pub open spec fn wsum(c: Seq<int>, s: Seq<int>, n: int) -> Seq<int> {
    Seq::new(N as nat, |k: int| csum(c, s, k, n))
}

proof fn lemma_ext_add(u: Seq<int>, v: Seq<int>, x: int)
    ensures
        ext(seq_add(u, v), x) == ext(u, x) + ext(v, x),
    decreases (if x < 0 { N - x } else { x }),
{
    if x < 0 {
        lemma_ext_add(u, v, x + N);
    } else if x >= N {
        lemma_ext_add(u, v, x - N);
    }
}

proof fn lemma_ext_scale(c: int, u: Seq<int>, x: int)
    ensures
        ext(seq_scale(c, u), x) == c * ext(u, x),
    decreases (if x < 0 { N - x } else { x }),
{
    if x < 0 {
        lemma_ext_scale(c, u, x + N);
        assert(-(c * ext(u, x + N)) == c * (-ext(u, x + N))) by (nonlinear_arith);
    } else if x >= N {
        lemma_ext_scale(c, u, x - N);
        assert(-(c * ext(u, x - N)) == c * (-ext(u, x - N))) by (nonlinear_arith);
    }
}

proof fn lemma_ext_shift(s: Seq<int>, p: int, x: int)
    ensures
        ext(shift(s, p), x) == ext(s, x - p),
    decreases (if x < 0 { N - x } else { x }),
{
    if x < 0 {
        lemma_ext_shift(s, p, x + N);
        lemma_ext_anti(s, x - p);
        assert(x + N - p == (x - p) + N);
    } else if x >= N {
        lemma_ext_shift(s, p, x - N);
        lemma_ext_anti(s, x - N - p);
        assert(x - p == (x - N - p) + N);
    }
}

/// The product is additive in its second factor.
pub proof fn lemma_conv_add_right(a: Seq<int>, u: Seq<int>, v: Seq<int>, k: int)
    requires
        0 <= k < N,
    ensures
        conv(a, seq_add(u, v), k) == conv(a, u, k) + conv(a, v, k),
{
    let n = N as int;
    lemma_conv_csum(a, seq_add(u, v), k);
    lemma_conv_csum(a, u, k);
    lemma_conv_csum(a, v, k);
    let f = |i: int| a[i] * ext(u, k - i);
    let g = |i: int| a[i] * ext(v, k - i);
    let h = |i: int| a[i] * ext(seq_add(u, v), k - i);
    assert forall|i: int| 0 <= i < n implies #[trigger] h(i) == (|i: int| f(i) + g(i))(i) by {
        lemma_ext_add(u, v, k - i);
        assert(a[i] * (ext(u, k - i) + ext(v, k - i)) == a[i] * ext(u, k - i) + a[i] * ext(v, k - i)) by (nonlinear_arith);
    }
    lemma_sum_ext(h, |i: int| f(i) + g(i), n);
    lemma_sum_add(f, g, n);
}

/// Constant factors of the second factor move out of the product.
pub proof fn lemma_conv_scale_right(a: Seq<int>, c: int, u: Seq<int>, k: int)
    requires
        0 <= k < N,
    ensures
        conv(a, seq_scale(c, u), k) == c * conv(a, u, k),
{
    let n = N as int;
    lemma_conv_csum(a, seq_scale(c, u), k);
    lemma_conv_csum(a, u, k);
    let f = |i: int| a[i] * ext(u, k - i);
    let h = |i: int| a[i] * ext(seq_scale(c, u), k - i);
    assert forall|i: int| 0 <= i < n implies #[trigger] h(i) == (|i: int| c * f(i))(i) by {
        lemma_ext_scale(c, u, k - i);
        assert(a[i] * (c * ext(u, k - i)) == c * (a[i] * ext(u, k - i))) by (nonlinear_arith);
    }
    lemma_sum_ext(h, |i: int| c * f(i), n);
    lemma_sum_scale(f, c, n);
}

/// The product is additive in its first factor.
pub proof fn lemma_conv_add_left(u: Seq<int>, v: Seq<int>, b: Seq<int>, k: int)
    requires
        0 <= k < N,
    ensures
        conv(seq_add(u, v), b, k) == conv(u, b, k) + conv(v, b, k),
{
    let n = N as int;
    lemma_conv_csum(seq_add(u, v), b, k);
    lemma_conv_csum(u, b, k);
    lemma_conv_csum(v, b, k);
    let f = |i: int| u[i] * ext(b, k - i);
    let g = |i: int| v[i] * ext(b, k - i);
    let h = |i: int| seq_add(u, v)[i] * ext(b, k - i);
    assert forall|i: int| 0 <= i < n implies #[trigger] h(i) == (|i: int| f(i) + g(i))(i) by {
        assert((u[i] + v[i]) * ext(b, k - i) == u[i] * ext(b, k - i) + v[i] * ext(b, k - i)) by (nonlinear_arith);
    }
    lemma_sum_ext(h, |i: int| f(i) + g(i), n);
    lemma_sum_add(f, g, n);
}

/// Constant factors of the first factor move out of the product.
pub proof fn lemma_conv_scale_left(c: int, u: Seq<int>, b: Seq<int>, k: int)
    requires
        0 <= k < N,
    ensures
        conv(seq_scale(c, u), b, k) == c * conv(u, b, k),
{
    let n = N as int;
    lemma_conv_csum(seq_scale(c, u), b, k);
    lemma_conv_csum(u, b, k);
    let f = |i: int| u[i] * ext(b, k - i);
    let h = |i: int| seq_scale(c, u)[i] * ext(b, k - i);
    assert forall|i: int| 0 <= i < n implies #[trigger] h(i) == (|i: int| c * f(i))(i) by {
        assert((c * u[i]) * ext(b, k - i) == c * (u[i] * ext(b, k - i))) by (nonlinear_arith);
    }
    lemma_sum_ext(h, |i: int| c * f(i), n);
    lemma_sum_scale(f, c, n);
}

/// Multiplying by `X^p` commutes with the product.
proof fn lemma_conv_shift(a: Seq<int>, s: Seq<int>, p: int, k: int)
    requires
        0 <= k < N,
    ensures
        conv(a, shift(s, p), k) == ext(conv_seq(a, s), k - p),
{
    let n = N as int;
    lemma_conv_csum(a, shift(s, p), k);
    lemma_ext_conv(a, s, k - p);
    let h = |i: int| a[i] * ext(shift(s, p), k - i);
    let g = |i: int| a[i] * ext(s, k - p - i);
    assert forall|i: int| 0 <= i < n implies #[trigger] h(i) == g(i) by {
        lemma_ext_shift(s, p, k - i);
        assert(k - i - p == k - p - i);
    }
    lemma_sum_ext(h, g, n);
}

proof fn lemma_conv_zero_right(a: Seq<int>, k: int)
    requires
        0 <= k < N,
    ensures
        conv(a, wsum(a, a, 0), k) == 0,
{
    let z = Seq::new(N as nat, |j: int| 0int);
    assert(wsum(a, a, 0) =~= seq_scale(0, z));
    lemma_conv_scale_right(a, 0, z, k);
}

proof fn lemma_conv_wsum(a: Seq<int>, c: Seq<int>, s: Seq<int>, n: int, k: int)
    requires
        0 <= k < N,
        0 <= n,
    ensures
        conv(a, wsum(c, s, n), k) == csum(c, conv_seq(a, s), k, n),
    decreases n,
{
    if n == 0 {
        assert(wsum(c, s, 0) =~= wsum(a, a, 0));
        lemma_conv_zero_right(a, k);
    } else {
        lemma_conv_wsum(a, c, s, n - 1, k);
        assert(wsum(c, s, n) =~= seq_add(wsum(c, s, n - 1), seq_scale(c[n - 1], shift(s, n - 1))));
        lemma_conv_add_right(a, wsum(c, s, n - 1), seq_scale(c[n - 1], shift(s, n - 1)), k);
        lemma_conv_scale_right(a, c[n - 1], shift(s, n - 1), k);
        lemma_conv_shift(a, s, n - 1, k);
    }
}

/// Associativity of the integer negacyclic product.
pub proof fn lemma_conv_assoc(a: Seq<int>, s: Seq<int>, c: Seq<int>, k: int)
    requires
        0 <= k < N,
    ensures
        conv(a, conv_seq(s, c), k) == conv(conv_seq(a, s), c, k),
{
    assert forall|j: int| 0 <= j < N implies #[trigger] conv_seq(s, c)[j] == wsum(c, s, N as int)[j] by {
        lemma_conv_comm(s, c, j);
        lemma_conv_csum(c, s, j);
    }
    assert(conv_seq(s, c) =~= wsum(c, s, N as int));
    lemma_conv_wsum(a, c, s, N as int, k);
    lemma_conv_csum(c, conv_seq(a, s), k);
    lemma_conv_comm(c, conv_seq(a, s), k);
}


/// `x` and `y` are congruent modulo `q`.
pub open spec fn cong(x: int, y: int) -> bool {
    (x - y) % (Q as int) == 0
}

/// Coefficient-wise congruence modulo `q`.
pub open spec fn seq_cong(u: Seq<int>, v: Seq<int>) -> bool {
    forall|k: int| 0 <= k < N ==> #[trigger] cong(u[k], v[k])
}

/// Pointwise difference of two coefficient sequences.
pub open spec fn seq_sub(u: Seq<int>, v: Seq<int>) -> Seq<int> {
    Seq::new(N as nat, |k: int| u[k] - v[k])
}

/// A congruence has an explicit multiple of `q` as witness.
pub proof fn lemma_cong_witness(x: int, y: int)
    requires
        cong(x, y),
    ensures
        x - y == Q * ((x - y) / (Q as int)),
{
    lemma_fundamental_div_mod(x - y, Q as int);
}

proof fn lemma_cong_intro(x: int, y: int, m: int)
    requires
        x - y == Q * m,
    ensures
        cong(x, y),
{
    lemma_mod_multiples_basic(m, Q as int);
    assert(m * Q == Q * m) by (nonlinear_arith);
}

/// Congruence is reflexive.
pub proof fn lemma_cong_refl(x: int)
    ensures
        cong(x, x),
{
    lemma_cong_intro(x, x, 0);
}

/// Congruence is symmetric.
pub proof fn lemma_cong_symm(x: int, y: int)
    requires
        cong(x, y),
    ensures
        cong(y, x),
{
    lemma_cong_witness(x, y);
    let m = (x - y) / (Q as int);
    lemma_cong_intro(y, x, -m);
}

/// Congruence is transitive.
pub proof fn lemma_cong_trans(x: int, y: int, z: int)
    requires
        cong(x, y),
        cong(y, z),
    ensures
        cong(x, z),
{
    lemma_cong_witness(x, y);
    lemma_cong_witness(y, z);
    let m1 = (x - y) / (Q as int);
    let m2 = (y - z) / (Q as int);
    assert(x - z == Q * (m1 + m2)) by (nonlinear_arith)
        requires
            x - y == Q * m1,
            y - z == Q * m2,
    ;
    lemma_cong_intro(x, z, m1 + m2);
}

/// Congruences add.
pub proof fn lemma_cong_add(x1: int, y1: int, x2: int, y2: int)
    requires
        cong(x1, y1),
        cong(x2, y2),
    ensures
        cong(x1 + x2, y1 + y2),
        cong(x1 - x2, y1 - y2),
{
    lemma_cong_witness(x1, y1);
    lemma_cong_witness(x2, y2);
    let m1 = (x1 - y1) / (Q as int);
    let m2 = (x2 - y2) / (Q as int);
    assert((x1 + x2) - (y1 + y2) == Q * (m1 + m2)) by (nonlinear_arith)
        requires
            x1 - y1 == Q * m1,
            x2 - y2 == Q * m2,
    ;
    assert((x1 - x2) - (y1 - y2) == Q * (m1 - m2)) by (nonlinear_arith)
        requires
            x1 - y1 == Q * m1,
            x2 - y2 == Q * m2,
    ;
    lemma_cong_intro(x1 + x2, y1 + y2, m1 + m2);
    lemma_cong_intro(x1 - x2, y1 - y2, m1 - m2);
}

/// A value is congruent to its remainder.
pub proof fn lemma_cong_mod(x: int)
    ensures
        cong(x % (Q as int), x),
{
    lemma_fundamental_div_mod(x, Q as int);
    lemma_cong_intro(x % (Q as int), x, -(x / (Q as int)));
}

/// Products with a congruent second factor are congruent.
pub proof fn lemma_conv_cong_right(a: Seq<int>, u: Seq<int>, v: Seq<int>, k: int)
    requires
        0 <= k < N,
        u.len() == N,
        v.len() == N,
        seq_cong(u, v),
    ensures
        cong(conv(a, u, k), conv(a, v, k)),
{
    let t = Seq::new(N as nat, |i: int| (u[i] - v[i]) / (Q as int));
    assert forall|i: int| 0 <= i < N implies #[trigger] seq_add(v, seq_scale(Q as int, t))[i] == u[i] by {
        assert(cong(u[i], v[i]));
        lemma_cong_witness(u[i], v[i]);
    }
    assert(seq_add(v, seq_scale(Q as int, t)) =~= u);
    lemma_conv_add_right(a, v, seq_scale(Q as int, t), k);
    lemma_conv_scale_right(a, Q as int, t, k);
    lemma_cong_intro(conv(a, u, k), conv(a, v, k), conv(a, t, k));
}

/// Products with a congruent first factor are congruent.
pub proof fn lemma_conv_cong_left(u: Seq<int>, v: Seq<int>, b: Seq<int>, k: int)
    requires
        0 <= k < N,
        u.len() == N,
        v.len() == N,
        seq_cong(u, v),
    ensures
        cong(conv(u, b, k), conv(v, b, k)),
{
    let t = Seq::new(N as nat, |i: int| (u[i] - v[i]) / (Q as int));
    assert forall|i: int| 0 <= i < N implies #[trigger] seq_add(v, seq_scale(Q as int, t))[i] == u[i] by {
        assert(cong(u[i], v[i]));
        lemma_cong_witness(u[i], v[i]);
    }
    assert(seq_add(v, seq_scale(Q as int, t)) =~= u);
    lemma_conv_add_left(v, seq_scale(Q as int, t), b, k);
    lemma_conv_scale_left(Q as int, t, b, k);
    lemma_cong_intro(conv(u, b, k), conv(v, b, k), conv(t, b, k));
}


/// Number of nonzero entries among the first `n`.
pub open spec fn int_nonzero(c: Seq<int>, n: int) -> int
    decreases n,
{
    if n <= 0 {
        0
    } else {
        int_nonzero(c, n - 1) + if c[n - 1] != 0 {
            1int
        } else {
            0int
        }
    }
}

proof fn lemma_ext_bound(e: Seq<int>, bound: int, x: int)
    requires
        bound >= 0,
        forall|i: int| 0 <= i < N ==> -bound <= #[trigger] e[i] <= bound,
    ensures
        -bound <= ext(e, x) <= bound,
    decreases (if x < 0 { N - x } else { x }),
{
    if x < 0 {
        lemma_ext_bound(e, bound, x + N);
    } else if x >= N {
        lemma_ext_bound(e, bound, x - N);
    }
}

/// A product with a sparse signed-unit factor is bounded by the number of
/// its nonzero entries times the bound on the other factor.
pub proof fn lemma_csum_sparse(c: Seq<int>, e: Seq<int>, y: int, n: int, bound: int)
    requires
        0 <= n <= N,
        bound >= 0,
        forall|i: int| 0 <= i < N ==> (#[trigger] c[i] == -1 || c[i] == 0 || c[i] == 1),
        forall|i: int| 0 <= i < N ==> -bound <= #[trigger] e[i] <= bound,
    ensures
        -(bound * int_nonzero(c, n)) <= csum(c, e, y, n) <= bound * int_nonzero(c, n),
    decreases n,
{
    if n > 0 {
        lemma_csum_sparse(c, e, y, n - 1, bound);
        lemma_ext_bound(e, bound, y - (n - 1));
        let t = c[n - 1] * ext(e, y - (n - 1));
        assert(csum(c, e, y, n) == csum(c, e, y, n - 1) + t);
        let cnt = int_nonzero(c, n - 1);
        if c[n - 1] == 0 {
            assert(t == 0);
        } else if c[n - 1] == 1 {
            assert(t == ext(e, y - (n - 1)));
            assert(bound * (cnt + 1) == bound * cnt + bound) by (nonlinear_arith);
        } else {
            let x = ext(e, y - (n - 1));
            assert(t == -x) by (nonlinear_arith)
                requires
                    c[n - 1] == -1,
                    t == c[n - 1] * x,
            ;
            assert(bound * (cnt + 1) == bound * cnt + bound) by (nonlinear_arith);
        }
    }
}


/// Congruent values in `[0, q)` are equal.
pub proof fn lemma_cong_canonical_eq(x: int, y: int)
    requires
        0 <= x < Q,
        0 <= y < Q,
        cong(x, y),
    ensures
        x == y,
{
    lemma_cong_witness(x, y);
    let m = (x - y) / (Q as int);
    assert(m == 0) by (nonlinear_arith)
        requires
            x - y == 8_380_417 * m,
            0 <= x < 8_380_417,
            0 <= y < 8_380_417,
    ;
}

/// Subtraction undoes addition in `R_q`: `(a + b) - b = a`.
pub proof fn lemma_ring_add_sub(a: Seq<int>, b: Seq<int>)
    requires
        canonical(a),
        canonical(b),
    ensures
        ring_sub(ring_add(a, b), b) == a,
{
    let s = ring_add(a, b);
    let d = ring_sub(s, b);
    assert forall|k: int| 0 <= k < N implies #[trigger] d[k] == a[k] by {
        lemma_cong_mod(a[k] + b[k]);
        lemma_cong_refl(b[k]);
        lemma_cong_add(s[k], a[k] + b[k], b[k], b[k]);
        lemma_cong_mod(s[k] - b[k]);
        lemma_cong_trans(d[k], s[k] - b[k], a[k] + b[k] - b[k]);
        lemma_cong_canonical_eq(d[k], a[k]);
    }
    assert(d =~= a);
}

/// Multiplication in `R_q` is commutative.
pub proof fn lemma_ring_mul_comm(a: Seq<int>, b: Seq<int>)
    ensures
        ring_mul(a, b) == ring_mul(b, a),
{
    assert forall|k: int| 0 <= k < N implies #[trigger] ring_mul(a, b)[k] == ring_mul(b, a)[k] by {
        lemma_conv_comm(a, b, k);
    }
    assert(ring_mul(a, b) =~= ring_mul(b, a));
}

/// Multiplication in `R_q` is associative.
pub proof fn lemma_ring_mul_assoc(a: Seq<int>, b: Seq<int>, c: Seq<int>)
    requires
        a.len() == N,
        b.len() == N,
        c.len() == N,
    ensures
        ring_mul(a, ring_mul(b, c)) == ring_mul(ring_mul(a, b), c),
{
    assert forall|k: int| 0 <= k < N implies #[trigger] ring_mul(a, ring_mul(b, c))[k] == ring_mul(ring_mul(a, b), c)[k] by {
        assert forall|j: int| 0 <= j < N implies #[trigger] cong(ring_mul(b, c)[j], conv_seq(b, c)[j]) by {
            lemma_cong_mod(conv(b, c, j));
        }
        assert forall|j: int| 0 <= j < N implies #[trigger] cong(ring_mul(a, b)[j], conv_seq(a, b)[j]) by {
            lemma_cong_mod(conv(a, b, j));
        }
        lemma_conv_cong_right(a, ring_mul(b, c), conv_seq(b, c), k);
        lemma_conv_cong_left(ring_mul(a, b), conv_seq(a, b), c, k);
        lemma_conv_assoc(a, b, c, k);
        let x = conv(a, ring_mul(b, c), k);
        let y = conv(ring_mul(a, b), c, k);
        lemma_cong_symm(y, conv(conv_seq(a, b), c, k));
        lemma_cong_trans(x, conv(a, conv_seq(b, c), k), y);
        lemma_cong_mod(x);
        lemma_cong_mod(y);
        lemma_cong_trans(x % (Q as int), x, y);
        lemma_cong_symm(y % (Q as int), y);
        lemma_cong_trans(x % (Q as int), y, y % (Q as int));
        lemma_cong_canonical_eq(x % (Q as int), y % (Q as int));
    }
    assert(ring_mul(a, ring_mul(b, c)) =~= ring_mul(ring_mul(a, b), c));
}

/// Multiplying by zero gives zero.
pub proof fn lemma_ring_mul_zero(a: Seq<int>)
    ensures
        ring_mul(a, ring_zero()) == ring_zero(),
{
    assert forall|k: int| 0 <= k < N implies #[trigger] ring_mul(a, ring_zero())[k] == 0 by {
        assert(ring_zero() =~= seq_scale(0, ring_zero()));
        lemma_conv_scale_right(a, 0, ring_zero(), k);
    }
    assert(ring_mul(a, ring_zero()) =~= ring_zero());
}

/// The constant polynomial `1`.
pub open spec fn ring_one() -> Seq<int> {
    Seq::new(N as nat, |k: int| if k == 0 { 1int } else { 0int })
}

proof fn lemma_csum_one(a: Seq<int>, k: int, n: int)
    requires
        0 <= k < N,
        0 <= n <= N,
    ensures
        csum(a, ring_one(), k, n) == if n > k { a[k] } else { 0 },
    decreases n,
{
    if n > 0 {
        lemma_csum_one(a, k, n - 1);
        let d = k - (n - 1);
        if d < 0 {
            assert(ext(ring_one(), d) == -ext(ring_one(), d + N));
            assert(ring_one()[d + N] == 0);
        }
    }
}

/// Multiplying by one gives the polynomial back.
pub proof fn lemma_ring_mul_one(a: Seq<int>)
    requires
        canonical(a),
    ensures
        ring_mul(a, ring_one()) == a,
{
    assert forall|k: int| 0 <= k < N implies #[trigger] ring_mul(a, ring_one())[k] == a[k] by {
        lemma_conv_csum(a, ring_one(), k);
        lemma_csum_one(a, k, N as int);
    }
    assert(ring_mul(a, ring_one()) =~= a);
}

} // verus!
