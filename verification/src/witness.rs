//! The hidden witness bundle of an authorization proof and its JSON text.
//!
//! A proof carries the prover's public key and Merkle path only in encrypted
//! form. The plaintext is the compact JSON object
//! `{"public_key":{"polys":[[..],..]},"merkle_path":{"leaf":[..],"siblings":[[..],..],"path_indices":[..],"root":[..]}}`
//! with every number in decimal. Decoding accepts exactly the canonical text
//! of a well-formed bundle: it parses the text and then checks that encoding
//! the parsed bundle reproduces it byte for byte.

use vstd::prelude::*;
use crate::poly::{is_canonical_seq, vec_canonical, Poly, PolyVec, K, N, Q};
use crate::tree::{sib_views, MerkleProof};

verus! {

// ---------------------------------------------------------------------------
// Encoding
// ---------------------------------------------------------------------------

/// ASCII decimal digits of `n`, without leading zeros.
pub open spec fn digits(n: nat) -> Seq<u8>
    decreases n,
{
    if n < 10 {
        seq![(48 + n) as u8]
    } else {
        digits(n / 10).push((48 + n % 10) as u8)
    }
}

/// The first `m` items separated by commas.
pub open spec fn joined(items: Seq<Seq<u8>>, m: int) -> Seq<u8>
    decreases m,
{
    if m <= 0 {
        Seq::empty()
    } else if m == 1 {
        items[0]
    } else {
        joined(items, m - 1) + seq![44u8] + items[m - 1]
    }
}

/// A JSON array of already encoded items.
pub open spec fn json_array(items: Seq<Seq<u8>>) -> Seq<u8> {
    seq![91u8] + joined(items, items.len() as int) + seq![93u8]
}

/// JSON array of byte values.
pub open spec fn bytes_json(s: Seq<u8>) -> Seq<u8> {
    json_array(Seq::new(s.len(), |i: int| digits(s[i] as nat)))
}

/// JSON array of non-negative coefficients.
pub open spec fn coeffs_json(s: Seq<i64>) -> Seq<u8> {
    json_array(Seq::new(s.len(), |i: int| digits(s[i] as nat)))
}

/// JSON array of coefficient arrays.
pub open spec fn polys_json(v: Seq<Seq<i64>>) -> Seq<u8> {
    json_array(Seq::new(v.len(), |i: int| coeffs_json(v[i])))
}

/// JSON array of byte arrays.
pub open spec fn digests_json(v: Seq<Seq<u8>>) -> Seq<u8> {
    json_array(Seq::new(v.len(), |i: int| bytes_json(v[i])))
}

/// `true` or `false`.
pub open spec fn bool_json(b: bool) -> Seq<u8> {
    if b {
        seq![116u8, 114, 117, 101]
    } else {
        seq![102u8, 97, 108, 115, 101]
    }
}

/// JSON array of booleans.
pub open spec fn bools_json(v: Seq<bool>) -> Seq<u8> {
    json_array(Seq::new(v.len(), |i: int| bool_json(v[i])))
}

/// `{"public_key":{"polys":`
pub open spec fn lit_head() -> Seq<u8> {
    seq![123u8, 34, 112, 117, 98, 108, 105, 99, 95, 107, 101, 121, 34, 58, 123, 34, 112, 111, 108, 121, 115, 34, 58]
}

/// `},"merkle_path":{"leaf":`
pub open spec fn lit_leaf() -> Seq<u8> {
    seq![125u8, 44, 34, 109, 101, 114, 107, 108, 101, 95, 112, 97, 116, 104, 34, 58, 123, 34, 108, 101, 97, 102, 34, 58]
}

/// `,"siblings":`
pub open spec fn lit_siblings() -> Seq<u8> {
    seq![44u8, 34, 115, 105, 98, 108, 105, 110, 103, 115, 34, 58]
}

/// `,"path_indices":`
pub open spec fn lit_dirs() -> Seq<u8> {
    seq![44u8, 34, 112, 97, 116, 104, 95, 105, 110, 100, 105, 99, 101, 115, 34, 58]
}

/// `,"root":`
pub open spec fn lit_root() -> Seq<u8> {
    seq![44u8, 34, 114, 111, 111, 116, 34, 58]
}

/// `}}`
pub open spec fn lit_tail() -> Seq<u8> {
    seq![125u8, 125]
}

/// Mathematical content of a witness bundle: public key coefficients, leaf,
/// sibling digests, directions and root.
pub type WitnessModel = (Seq<Seq<i64>>, Seq<u8>, Seq<Seq<u8>>, Seq<bool>, Seq<u8>);

/// Canonical JSON text of a witness bundle.
pub open spec fn witness_json(m: WitnessModel) -> Seq<u8> {
    lit_head() + polys_json(m.0) + lit_leaf() + bytes_json(m.1) + lit_siblings() + digests_json(m.2)
        + lit_dirs() + bools_json(m.3) + lit_root() + bytes_json(m.4) + lit_tail()
}

/// A bundle the encoder accepts: a rank-`K` canonical public key and 32-byte
/// digests.
pub open spec fn model_wf(m: WitnessModel) -> bool {
    &&& vec_canonical(m.0)
    &&& m.1.len() == 32
    &&& forall|i: int| 0 <= i < m.2.len() ==> (#[trigger] m.2[i]).len() == 32
    &&& m.4.len() == 32
}

/// Hidden witness bundle: the prover's public key and Merkle path.
pub struct HiddenWitness {
    pub public_key: PolyVec,
    pub merkle_path: MerkleProof,
}

/// Model of a public key and Merkle path.
pub open spec fn witness_model(public_key: Seq<Seq<i64>>, path: MerkleProof) -> WitnessModel {
    (public_key, path.leaf@, sib_views(path.siblings@), path.path_indices@, path.root@)
}

impl HiddenWitness {
    /// Model of the bundle.
    pub open spec fn model(&self) -> WitnessModel {
        witness_model(self.public_key@, self.merkle_path)
    }
}

fn push_lit(out: &mut Vec<u8>, lit: &[u8])
    ensures
        final(out)@ == old(out)@ + lit@,
{
    let mut i: usize = 0;
    while i < lit.len()
        invariant
            0 <= i <= lit@.len(),
            out@ == old(out)@ + lit@.subrange(0, i as int),
        decreases lit@.len() - i,
    {
        out.push(lit[i]);
        i += 1;
        assert(out@ =~= old(out)@ + lit@.subrange(0, i as int));
    }
    assert(lit@.subrange(0, lit@.len() as int) =~= lit@);
}

fn lit_head_bytes() -> (r: Vec<u8>)
    ensures
        r@ == lit_head(),
{
    let r: Vec<u8> = vec![123, 34, 112, 117, 98, 108, 105, 99, 95, 107, 101, 121, 34, 58, 123, 34, 112, 111, 108, 121, 115, 34, 58];
    assert(r@ =~= lit_head());
    r
}

fn lit_leaf_bytes() -> (r: Vec<u8>)
    ensures
        r@ == lit_leaf(),
{
    let r: Vec<u8> = vec![125, 44, 34, 109, 101, 114, 107, 108, 101, 95, 112, 97, 116, 104, 34, 58, 123, 34, 108, 101, 97, 102, 34, 58];
    assert(r@ =~= lit_leaf());
    r
}

fn lit_siblings_bytes() -> (r: Vec<u8>)
    ensures
        r@ == lit_siblings(),
{
    let r: Vec<u8> = vec![44, 34, 115, 105, 98, 108, 105, 110, 103, 115, 34, 58];
    assert(r@ =~= lit_siblings());
    r
}

fn lit_dirs_bytes() -> (r: Vec<u8>)
    ensures
        r@ == lit_dirs(),
{
    let r: Vec<u8> = vec![44, 34, 112, 97, 116, 104, 95, 105, 110, 100, 105, 99, 101, 115, 34, 58];
    assert(r@ =~= lit_dirs());
    r
}

fn lit_root_bytes() -> (r: Vec<u8>)
    ensures
        r@ == lit_root(),
{
    let r: Vec<u8> = vec![44, 34, 114, 111, 111, 116, 34, 58];
    assert(r@ =~= lit_root());
    r
}

fn lit_tail_bytes() -> (r: Vec<u8>)
    ensures
        r@ == lit_tail(),
{
    let r: Vec<u8> = vec![125, 125];
    assert(r@ =~= lit_tail());
    r
}

fn bool_bytes(b: bool) -> (r: Vec<u8>)
    ensures
        r@ == bool_json(b),
{
    if b {
        let r: Vec<u8> = vec![116, 114, 117, 101];
        assert(r@ =~= bool_json(b));
        r
    } else {
        let r: Vec<u8> = vec![102, 97, 108, 115, 101];
        assert(r@ =~= bool_json(b));
        r
    }
}

fn push_digits(out: &mut Vec<u8>, n: u64)
    ensures
        final(out)@ == old(out)@ + digits(n as nat),
    decreases n,
{
    if n >= 10 {
        push_digits(out, n / 10);
    }
    out.push((48 + n % 10) as u8);
    assert(out@ =~= old(out)@ + digits(n as nat));
}

/// Appending one more item extends the joined text by a comma and the item.
proof fn lemma_joined_step(items: Seq<Seq<u8>>, m: int)
    requires
        0 <= m < items.len(),
    ensures
        joined(items, m + 1) == (if m == 0 { Seq::empty() } else { joined(items, m) + seq![44u8] }) + items[m],
{
    if m == 0 {
        assert(joined(items, 1) =~= Seq::<u8>::empty() + items[0]);
    }
}

fn push_nat_array(out: &mut Vec<u8>, vals: &[u64])
    ensures
        final(out)@ == old(out)@ + json_array(Seq::new(vals@.len(), |i: int| digits(vals@[i] as nat))),
{
    let ghost items = Seq::new(vals@.len(), |i: int| digits(vals@[i] as nat));
    out.push(91);
    let mut i: usize = 0;
    while i < vals.len()
        invariant
            0 <= i <= vals@.len(),
            items == Seq::new(vals@.len(), |i: int| digits(vals@[i] as nat)),
            out@ == old(out)@ + seq![91u8] + joined(items, i as int),
        decreases vals@.len() - i,
    {
        proof {
            lemma_joined_step(items, i as int);
        }
        if i > 0 {
            out.push(44);
        }
        push_digits(out, vals[i]);
        i += 1;
        assert(out@ =~= old(out)@ + seq![91u8] + joined(items, i as int));
    }
    out.push(93);
    assert(out@ =~= old(out)@ + json_array(items));
}

fn push_bytes_array(out: &mut Vec<u8>, bytes: &[u8])
    ensures
        final(out)@ == old(out)@ + bytes_json(bytes@),
{
    let mut vals: Vec<u64> = Vec::new();
    let mut i: usize = 0;
    while i < bytes.len()
        invariant
            0 <= i <= bytes@.len(),
            vals@.len() == i,
            forall|j: int| 0 <= j < i ==> #[trigger] vals@[j] == bytes@[j] as u64,
        decreases bytes@.len() - i,
    {
        vals.push(bytes[i] as u64);
        i += 1;
    }
    push_nat_array(out, vals.as_slice());
    assert(Seq::new(vals@.len(), |i: int| digits(vals@[i] as nat)) =~= Seq::new(bytes@.len(), |i: int| digits(bytes@[i] as nat)));
}

fn push_coeffs_array(out: &mut Vec<u8>, p: &Poly)
    requires
        is_canonical_seq(p@),
    ensures
        final(out)@ == old(out)@ + coeffs_json(p@),
{
    let mut vals: Vec<u64> = Vec::new();
    let mut i: usize = 0;
    while i < N
        invariant
            0 <= i <= N,
            is_canonical_seq(p@),
            vals@.len() == i,
            forall|j: int| 0 <= j < i ==> #[trigger] vals@[j] as int == p@[j] as int,
        decreases N - i,
    {
        vals.push(p.coeffs[i] as u64);
        i += 1;
    }
    push_nat_array(out, vals.as_slice());
    assert(Seq::new(vals@.len(), |i: int| digits(vals@[i] as nat)) =~= Seq::new(p@.len(), |i: int| digits(p@[i] as nat)));
}

fn push_polys(out: &mut Vec<u8>, v: &PolyVec)
    requires
        vec_canonical(v@),
    ensures
        final(out)@ == old(out)@ + polys_json(v@),
{
    let ghost items = Seq::new(v@.len(), |i: int| coeffs_json(v@[i]));
    out.push(91);
    let mut i: usize = 0;
    while i < v.polys.len()
        invariant
            0 <= i <= v@.len(),
            v@.len() == v.polys@.len(),
            vec_canonical(v@),
            items == Seq::new(v@.len(), |i: int| coeffs_json(v@[i])),
            out@ == old(out)@ + seq![91u8] + joined(items, i as int),
        decreases v.polys@.len() - i,
    {
        proof {
            lemma_joined_step(items, i as int);
        }
        if i > 0 {
            out.push(44);
        }
        assert(v.polys@[i as int]@ == v@[i as int]);
        push_coeffs_array(out, &v.polys[i]);
        i += 1;
        assert(out@ =~= old(out)@ + seq![91u8] + joined(items, i as int));
    }
    out.push(93);
    assert(out@ =~= old(out)@ + json_array(items));
}

fn push_digests(out: &mut Vec<u8>, v: &Vec<[u8; 32]>)
    ensures
        final(out)@ == old(out)@ + digests_json(sib_views(v@)),
{
    let ghost items = Seq::new(v@.len(), |i: int| bytes_json(sib_views(v@)[i]));
    out.push(91);
    let mut i: usize = 0;
    while i < v.len()
        invariant
            0 <= i <= v@.len(),
            items == Seq::new(v@.len(), |i: int| bytes_json(sib_views(v@)[i])),
            out@ == old(out)@ + seq![91u8] + joined(items, i as int),
        decreases v@.len() - i,
    {
        proof {
            lemma_joined_step(items, i as int);
        }
        if i > 0 {
            out.push(44);
        }
        assert(sib_views(v@)[i as int] == v@[i as int]@);
        push_bytes_array(out, v[i].as_slice());
        i += 1;
        assert(out@ =~= old(out)@ + seq![91u8] + joined(items, i as int));
    }
    out.push(93);
    assert(sib_views(v@).len() == v@.len());
    assert(out@ =~= old(out)@ + json_array(items));
}

fn push_bools(out: &mut Vec<u8>, v: &Vec<bool>)
    ensures
        final(out)@ == old(out)@ + bools_json(v@),
{
    let ghost items = Seq::new(v@.len(), |i: int| bool_json(v@[i]));
    out.push(91);
    let mut i: usize = 0;
    while i < v.len()
        invariant
            0 <= i <= v@.len(),
            items == Seq::new(v@.len(), |i: int| bool_json(v@[i])),
            out@ == old(out)@ + seq![91u8] + joined(items, i as int),
        decreases v@.len() - i,
    {
        proof {
            lemma_joined_step(items, i as int);
        }
        if i > 0 {
            out.push(44);
        }
        let lit = bool_bytes(v[i]);
        push_lit(out, lit.as_slice());
        i += 1;
        assert(out@ =~= old(out)@ + seq![91u8] + joined(items, i as int));
    }
    out.push(93);
    assert(out@ =~= old(out)@ + json_array(items));
}

/// Encodes a public key and Merkle path as the canonical JSON text of the
/// witness bundle.
pub fn encode_witness(public_key: &PolyVec, path: &MerkleProof) -> (r: Vec<u8>)
    requires
        vec_canonical(public_key@),
    ensures
        r@ == witness_json(witness_model(public_key@, *path)),
{
    let mut out: Vec<u8> = Vec::new();
    let l = lit_head_bytes();
    push_lit(&mut out, l.as_slice());
    push_polys(&mut out, public_key);
    let l = lit_leaf_bytes();
    push_lit(&mut out, l.as_slice());
    push_bytes_array(&mut out, path.leaf.as_slice());
    let l = lit_siblings_bytes();
    push_lit(&mut out, l.as_slice());
    push_digests(&mut out, &path.siblings);
    let l = lit_dirs_bytes();
    push_lit(&mut out, l.as_slice());
    push_bools(&mut out, &path.path_indices);
    let l = lit_root_bytes();
    push_lit(&mut out, l.as_slice());
    push_bytes_array(&mut out, path.root.as_slice());
    let l = lit_tail_bytes();
    push_lit(&mut out, l.as_slice());
    assert(out@ =~= witness_json(witness_model(public_key@, *path)));
    out
}


// ---------------------------------------------------------------------------
// Decoding
// ---------------------------------------------------------------------------

/// An ASCII decimal digit.
pub open spec fn is_digit(c: u8) -> bool {
    48 <= c <= 57
}

/// Length of the run of digits starting at `p`, looking at most `k` bytes ahead.
pub open spec fn digit_run(b: Seq<u8>, p: int, k: nat) -> nat
    decreases k,
{
    if k == 0 || p < 0 || p >= b.len() || !is_digit(b[p]) {
        0
    } else {
        1 + digit_run(b, p + 1, (k - 1) as nat)
    }
}

/// Value of a string of decimal digits.
pub open spec fn digits_value(s: Seq<u8>) -> int
    decreases s.len(),
{
    if s.len() == 0 {
        0
    } else {
        10 * digits_value(s.drop_last()) + (s.last() - 48)
    }
}

/// `10^k`.
pub open spec fn pow10(k: nat) -> nat
    decreases k,
{
    if k == 0 {
        1
    } else {
        10 * pow10((k - 1) as nat)
    }
}

/// The bytes of `s` occur in `b` at position `p`.
pub open spec fn fits_at(b: Seq<u8>, p: int, s: Seq<u8>) -> bool {
    &&& 0 <= p
    &&& p + s.len() <= b.len()
    &&& b.subrange(p, p + s.len()) == s
}

/// A decimal number of at most 18 digits at `p`, and the position after it.
pub open spec fn nat_at(b: Seq<u8>, p: int) -> Option<(nat, int)> {
    let len = digit_run(b, p, 19);
    if len == 0 || len > 18 {
        None
    } else {
        Some((digits_value(b.subrange(p, p + len)) as nat, p + len))
    }
}

/// A boolean literal at `p`.
pub open spec fn bool_at(b: Seq<u8>, p: int) -> Option<(bool, int)> {
    if fits_at(b, p, bool_json(true)) {
        Some((true, p + 4))
    } else if fits_at(b, p, bool_json(false)) {
        Some((false, p + 5))
    } else {
        None
    }
}

/// Items of a non-empty JSON array starting at item position `i`: each item
/// is followed by a comma or by the closing bracket. `fuel` bounds the number
/// of items.
pub open spec fn list_items<T>(
    b: Seq<u8>,
    i: int,
    item: spec_fn(Seq<u8>, int) -> Option<(T, int)>,
    fuel: nat,
) -> Option<(Seq<T>, int)>
    decreases fuel,
{
    if fuel == 0 {
        None
    } else {
        match item(b, i) {
            None => None,
            Some((x, j)) => {
                if 0 <= j < b.len() && b[j] == 44u8 {
                    match list_items(b, j + 1, item, (fuel - 1) as nat) {
                        Some((xs, e)) => Some((seq![x] + xs, e)),
                        None => None,
                    }
                } else if 0 <= j < b.len() && b[j] == 93u8 {
                    Some((seq![x], j + 1))
                } else {
                    None
                }
            },
        }
    }
}

/// A JSON array at `p` whose items `item` parses, and the position after it.
pub open spec fn list_at<T>(b: Seq<u8>, p: int, item: spec_fn(Seq<u8>, int) -> Option<(T, int)>) -> Option<(Seq<T>, int)> {
    if 0 <= p < b.len() && b[p] == 91u8 {
        if p + 1 < b.len() && b[p + 1] == 93u8 {
            Some((Seq::empty(), p + 2))
        } else {
            list_items(b, p + 1, item, b.len())
        }
    } else {
        None
    }
}

/// Prefixes the items of a parse result with `acc`.
pub open spec fn prepend<T>(acc: Seq<T>, r: Option<(Seq<T>, int)>) -> Option<(Seq<T>, int)> {
    match r {
        Some((xs, e)) => Some((acc + xs, e)),
        None => None,
    }
}

/// Parser of numbers.
pub open spec fn nat_item() -> spec_fn(Seq<u8>, int) -> Option<(nat, int)> {
    |b: Seq<u8>, p: int| nat_at(b, p)
}

/// An array of exactly 32 byte values at `p`.
pub open spec fn bytes_at(b: Seq<u8>, p: int) -> Option<(Seq<u8>, int)> {
    match list_at(b, p, nat_item()) {
        Some((xs, e)) => if xs.len() == 32 && forall|i: int| 0 <= i < 32 ==> #[trigger] xs[i] <= 255 {
            Some((Seq::new(32, |i: int| xs[i] as u8), e))
        } else {
            None
        },
        None => None,
    }
}

/// An array of exactly `N` coefficients below `q` at `p`.
pub open spec fn coeffs_at(b: Seq<u8>, p: int) -> Option<(Seq<i64>, int)> {
    match list_at(b, p, nat_item()) {
        Some((xs, e)) => if xs.len() == N && forall|i: int| 0 <= i < N ==> #[trigger] xs[i] < Q {
            Some((Seq::new(N as nat, |i: int| xs[i] as i64), e))
        } else {
            None
        },
        None => None,
    }
}

/// Parser of coefficient arrays.
pub open spec fn coeffs_item() -> spec_fn(Seq<u8>, int) -> Option<(Seq<i64>, int)> {
    |b: Seq<u8>, p: int| coeffs_at(b, p)
}

/// Parser of 32-byte arrays.
pub open spec fn bytes_item() -> spec_fn(Seq<u8>, int) -> Option<(Seq<u8>, int)> {
    |b: Seq<u8>, p: int| bytes_at(b, p)
}

/// Parser of boolean literals.
pub open spec fn bool_item() -> spec_fn(Seq<u8>, int) -> Option<(bool, int)> {
    |b: Seq<u8>, p: int| bool_at(b, p)
}

/// An array of exactly `K` coefficient arrays at `p`.
pub open spec fn polys_at(b: Seq<u8>, p: int) -> Option<(Seq<Seq<i64>>, int)> {
    match list_at(b, p, coeffs_item()) {
        Some((v, e)) => if v.len() == K {
            Some((v, e))
        } else {
            None
        },
        None => None,
    }
}

/// Parses the fields of a witness bundle in order.
pub open spec fn witness_parse(b: Seq<u8>) -> Option<WitnessModel> {
    if !fits_at(b, 0, lit_head()) {
        None
    } else {
        match polys_at(b, lit_head().len() as int) {
            None => None,
            Some((pk, p2)) => if !fits_at(b, p2, lit_leaf()) {
                None
            } else {
                match bytes_at(b, p2 + lit_leaf().len()) {
                    None => None,
                    Some((leaf, p3)) => if !fits_at(b, p3, lit_siblings()) {
                        None
                    } else {
                        match list_at(b, p3 + lit_siblings().len(), bytes_item()) {
                            None => None,
                            Some((sibs, p4)) => if !fits_at(b, p4, lit_dirs()) {
                                None
                            } else {
                                match list_at(b, p4 + lit_dirs().len(), bool_item()) {
                                    None => None,
                                    Some((dirs, p5)) => if !fits_at(b, p5, lit_root()) {
                                        None
                                    } else {
                                        match bytes_at(b, p5 + lit_root().len()) {
                                            None => None,
                                            Some((root, p6)) => if !fits_at(b, p6, lit_tail()) {
                                                None
                                            } else {
                                                Some((pk, leaf, sibs, dirs, root))
                                            },
                                        }
                                    },
                                }
                            },
                        }
                    },
                }
            },
        }
    }
}

/// Decoding of witness text: the parsed bundle, provided that its canonical
/// encoding is exactly the text.
pub open spec fn witness_decode(b: Seq<u8>) -> Option<WitnessModel> {
    match witness_parse(b) {
        Some(m) => if witness_json(m) == b {
            Some(m)
        } else {
            None
        },
        None => None,
    }
}

proof fn lemma_pow10_bound(k: nat)
    requires
        k <= 17,
    ensures
        pow10(k) <= 100_000_000_000_000_000,
    decreases 17 - k,
{
    reveal_with_fuel(pow10, 18);
    if k < 17 {
        lemma_pow10_bound(k + 1);
        assert(pow10(k + 1) == 10 * pow10(k));
    }
}

fn lit_at(b: &[u8], p: usize, lit: &[u8]) -> (r: bool)
    ensures
        r == fits_at(b@, p as int, lit@),
{
    if p > b.len() || b.len() - p < lit.len() {
        return false;
    }
    let blen = b.len();
    let mut i: usize = 0;
    while i < lit.len()
        invariant
            0 <= i <= lit@.len(),
            blen == b@.len(),
            p + lit@.len() <= b@.len(),
            forall|k: int| 0 <= k < i ==> #[trigger] b@[p + k] == lit@[k],
        decreases lit@.len() - i,
    {
        assert(p + i < b@.len());
        if b[p + i] != lit[i] {
            assert(b@.subrange(p as int, p + lit@.len())[i as int] != lit@[i as int]);
            return false;
        }
        i += 1;
    }
    assert forall|k: int| 0 <= k < lit@.len() implies #[trigger] b@.subrange(p as int, p + lit@.len())[k] == lit@[k] by {
        assert(b@[p + k] == lit@[k]);
    }
    assert(b@.subrange(p as int, p + lit@.len()) =~= lit@);
    true
}

fn parse_nat(b: &[u8], p: usize) -> (r: Option<(u64, usize)>)
    ensures
        nat_at(b@, p as int) == (match r {
            Some((v, q)) => Some((v as nat, q as int)),
            None => None::<(nat, int)>,
        }),
        r matches Some((v, q)) ==> p < q <= b@.len(),
{
    if p >= b.len() {
        return None;
    }
    let mut i: usize = p;
    let mut v: u64 = 0;
    assert(b@.subrange(p as int, p as int) =~= Seq::<u8>::empty());
    loop
        invariant
            p < b@.len(),
            p <= i <= b@.len(),
            i - p <= 18,
            digit_run(b@, p as int, 19) == (i - p) + digit_run(b@, i as int, (19 - (i - p)) as nat),
            v == digits_value(b@.subrange(p as int, i as int)),
            v < pow10((i - p) as nat),
        ensures
            p < b@.len(),
            p <= i <= b@.len(),
            i - p <= 18,
            digit_run(b@, p as int, 19) == i - p,
            v == digits_value(b@.subrange(p as int, i as int)),
        decreases b@.len() - i,
    {
        if i >= b.len() {
            break;
        }
        let c = b[i];
        if c < 48 || c > 57 {
            break;
        }
        if i - p >= 18 {
            assert(digit_run(b@, i as int, 1) == 1 + digit_run(b@, i + 1, 0));
            return None;
        }
        proof {
            lemma_pow10_bound((i - p) as nat);
            assert(b@.subrange(p as int, i + 1).drop_last() =~= b@.subrange(p as int, i as int));
        }
        v = v * 10 + (c - 48) as u64;
        i += 1;
    }
    if i == p {
        return None;
    }
    Some((v, i))
}

fn parse_bool(b: &[u8], p: usize) -> (r: Option<(bool, usize)>)
    ensures
        bool_at(b@, p as int) == (match r {
            Some((v, q)) => Some((v, q as int)),
            None => None::<(bool, int)>,
        }),
        r matches Some((v, q)) ==> p < q <= b@.len(),
{
    let blen = b.len();
    let t = bool_bytes(true);
    assert(t@.len() == 4);
    if lit_at(b, p, t.as_slice()) {
        return Some((true, p + 4));
    }
    let f = bool_bytes(false);
    assert(f@.len() == 5);
    if lit_at(b, p, f.as_slice()) {
        return Some((false, p + 5));
    }
    None
}

proof fn lemma_prepend_push<T>(acc: Seq<T>, x: T, r: Option<(Seq<T>, int)>)
    ensures
        prepend(acc, prepend(seq![x], r)) == prepend(acc.push(x), r),
{
    match r {
        Some((xs, e)) => {
            assert(acc + (seq![x] + xs) =~= acc.push(x) + xs);
        },
        None => {},
    }
}

fn parse_nat_list(b: &[u8], p: usize) -> (r: Option<(Vec<u64>, usize)>)
    ensures
        list_at(b@, p as int, nat_item()) == (match r {
            Some((v, q)) => Some((v@.map_values(|x: u64| x as nat), q as int)),
            None => None::<(Seq<nat>, int)>,
        }),
        r matches Some((v, q)) ==> p < q <= b@.len(),
{
    if p >= b.len() || b[p] != 91 {
        return None;
    }
    if p + 1 < b.len() && b[p + 1] == 93 {
        let v: Vec<u64> = Vec::new();
        assert(v@.map_values(|x: u64| x as nat) =~= Seq::<nat>::empty());
        return Some((v, p + 2));
    }
    let mut acc: Vec<u64> = Vec::new();
    let mut i: usize = p + 1;
    let mut fuel: usize = b.len();
    assert(prepend(acc@.map_values(|x: u64| x as nat), list_items(b@, i as int, nat_item(), fuel as nat))
        == list_items(b@, i as int, nat_item(), fuel as nat)) by {
        assert(acc@.map_values(|x: u64| x as nat) =~= Seq::<nat>::empty());
        match list_items(b@, i as int, nat_item(), fuel as nat) {
            Some((xs, e)) => {
                assert(Seq::<nat>::empty() + xs =~= xs);
            },
            None => {},
        }
    }
    loop
        invariant
            p < i <= b@.len(),
            list_at(b@, p as int, nat_item()) == prepend(
                acc@.map_values(|x: u64| x as nat),
                list_items(b@, i as int, nat_item(), fuel as nat),
            ),
        decreases fuel,
    {
        if fuel == 0 {
            return None;
        }
        let item = parse_nat(b, i);
        match item {
            None => {
                return None;
            },
            Some((x, j)) => {
                if j < b.len() && b[j] == 44 {
                    let ghost old_view = acc@.map_values(|x: u64| x as nat);
                    proof {
                        lemma_prepend_push(old_view, x as nat, list_items(b@, j + 1, nat_item(), (fuel - 1) as nat));
                    }
                    acc.push(x);
                    assert(acc@.map_values(|x: u64| x as nat) =~= old_view.push(x as nat));
                    i = j + 1;
                    fuel -= 1;
                } else if j < b.len() && b[j] == 93 {
                    let ghost old_view = acc@.map_values(|x: u64| x as nat);
                    acc.push(x);
                    assert(acc@.map_values(|x: u64| x as nat) =~= old_view + seq![x as nat]);
                    return Some((acc, j + 1));
                } else {
                    return None;
                }
            },
        }
    }
}

fn parse_bytes32(b: &[u8], p: usize) -> (r: Option<([u8; 32], usize)>)
    ensures
        bytes_at(b@, p as int) == (match r {
            Some((a, q)) => Some((a@, q as int)),
            None => None::<(Seq<u8>, int)>,
        }),
        r matches Some((a, q)) ==> p < q <= b@.len(),
{
    let parsed = parse_nat_list(b, p);
    if parsed.is_none() {
        return None;
    }
    let (vals, q) = parsed.unwrap();
    let ghost xs = vals@.map_values(|x: u64| x as nat);
    if vals.len() != 32 {
        return None;
    }
    let mut out = [0u8; 32];
    let mut i: usize = 0;
    while i < 32
        invariant
            0 <= i <= 32,
            vals@.len() == 32,
            xs == vals@.map_values(|x: u64| x as nat),
            list_at(b@, p as int, nat_item()) == Some((xs, q as int)),
            forall|j: int| 0 <= j < i ==> #[trigger] xs[j] <= 255,
            forall|j: int| 0 <= j < i ==> #[trigger] out@[j] == xs[j] as u8,
        decreases 32 - i,
    {
        if vals[i] > 255 {
            assert(xs[i as int] > 255);
            assert(!(forall|j: int| 0 <= j < 32 ==> #[trigger] xs[j] <= 255));
            return None;
        }
        out[i] = vals[i] as u8;
        i += 1;
    }
    assert(out@ =~= Seq::new(32, |j: int| xs[j] as u8));
    Some((out, q))
}

fn parse_coeffs(b: &[u8], p: usize) -> (r: Option<(Poly, usize)>)
    ensures
        coeffs_at(b@, p as int) == (match r {
            Some((c, q)) => Some((c@, q as int)),
            None => None::<(Seq<i64>, int)>,
        }),
        r matches Some((c, q)) ==> p < q <= b@.len() && is_canonical_seq(c@),
{
    let parsed = parse_nat_list(b, p);
    if parsed.is_none() {
        return None;
    }
    let (vals, q) = parsed.unwrap();
    let ghost xs = vals@.map_values(|x: u64| x as nat);
    if vals.len() != N {
        return None;
    }
    let mut out = Poly::zero();
    let mut i: usize = 0;
    while i < N
        invariant
            0 <= i <= N,
            vals@.len() == N,
            out@.len() == N,
            xs == vals@.map_values(|x: u64| x as nat),
            list_at(b@, p as int, nat_item()) == Some((xs, q as int)),
            forall|j: int| 0 <= j < i ==> #[trigger] xs[j] < Q,
            forall|j: int| 0 <= j < i ==> #[trigger] out@[j] == xs[j] as i64,
            forall|j: int| 0 <= j < N ==> 0 <= #[trigger] out@[j] < Q,
        decreases N - i,
    {
        if vals[i] >= Q as u64 {
            assert(xs[i as int] >= Q);
            assert(!(forall|j: int| 0 <= j < N ==> #[trigger] xs[j] < Q));
            return None;
        }
        out.coeffs[i] = vals[i] as i64;
        i += 1;
    }
    assert(out@ =~= Seq::new(N as nat, |j: int| xs[j] as i64));
    Some((out, q))
}

fn parse_polys(b: &[u8], p: usize) -> (r: Option<(PolyVec, usize)>)
    ensures
        polys_at(b@, p as int) == (match r {
            Some((v, q)) => Some((v@, q as int)),
            None => None::<(Seq<Seq<i64>>, int)>,
        }),
        r matches Some((v, q)) ==> p < q <= b@.len() && vec_canonical(v@),
{
    if p >= b.len() || b[p] != 91 {
        return None;
    }
    if p + 1 < b.len() && b[p + 1] == 93 {
        return None;
    }
    let mut acc: Vec<Poly> = Vec::new();
    let mut i: usize = p + 1;
    let mut fuel: usize = b.len();
    assert(prepend(acc@.map_values(|x: Poly| x@), list_items(b@, i as int, coeffs_item(), fuel as nat))
        == list_items(b@, i as int, coeffs_item(), fuel as nat)) by {
        assert(acc@.map_values(|x: Poly| x@) =~= Seq::<Seq<i64>>::empty());
        match list_items(b@, i as int, coeffs_item(), fuel as nat) {
            Some((xs, e)) => {
                assert(Seq::<Seq<i64>>::empty() + xs =~= xs);
            },
            None => {},
        }
    }
    loop
        invariant
            p < i <= b@.len(),
            list_at(b@, p as int, coeffs_item()) == prepend(
                acc@.map_values(|x: Poly| x@),
                list_items(b@, i as int, coeffs_item(), fuel as nat),
            ),
            forall|j: int| 0 <= j < acc@.len() ==> #[trigger] is_canonical_seq(acc@[j]@),
        decreases fuel,
    {
        if fuel == 0 {
            return None;
        }
        let item = parse_coeffs(b, i);
        match item {
            None => {
                return None;
            },
            Some((x, j)) => {
                if j < b.len() && b[j] == 44 {
                    let ghost old_view = acc@.map_values(|x: Poly| x@);
                    proof {
                        lemma_prepend_push(old_view, x@, list_items(b@, j + 1, coeffs_item(), (fuel - 1) as nat));
                    }
                    acc.push(x);
                    assert(acc@.map_values(|x: Poly| x@) =~= old_view.push(x@));
                    i = j + 1;
                    fuel -= 1;
                } else if j < b.len() && b[j] == 93 {
                    let ghost old_view = acc@.map_values(|x: Poly| x@);
                    acc.push(x);
                    assert(acc@.map_values(|x: Poly| x@) =~= old_view + seq![x@]);
                    if acc.len() != K {
                        return None;
                    }
                    let v = PolyVec { polys: acc };
                    assert(v@ == acc@.map_values(|x: Poly| x@));
                    assert forall|k: int| 0 <= k < K implies #[trigger] is_canonical_seq(v@[k]) by {
                        assert(v@[k] == acc@[k]@);
                    }
                    return Some((v, j + 1));
                } else {
                    return None;
                }
            },
        }
    }
}

fn parse_digests(b: &[u8], p: usize) -> (r: Option<(Vec<[u8; 32]>, usize)>)
    ensures
        list_at(b@, p as int, bytes_item()) == (match r {
            Some((v, q)) => Some((sib_views(v@), q as int)),
            None => None::<(Seq<Seq<u8>>, int)>,
        }),
        r matches Some((v, q)) ==> p < q <= b@.len(),
{
    if p >= b.len() || b[p] != 91 {
        return None;
    }
    if p + 1 < b.len() && b[p + 1] == 93 {
        let v: Vec<[u8; 32]> = Vec::new();
        assert(sib_views(v@) =~= Seq::<Seq<u8>>::empty());
        return Some((v, p + 2));
    }
    let mut acc: Vec<[u8; 32]> = Vec::new();
    let mut i: usize = p + 1;
    let mut fuel: usize = b.len();
    assert(prepend(sib_views(acc@), list_items(b@, i as int, bytes_item(), fuel as nat))
        == list_items(b@, i as int, bytes_item(), fuel as nat)) by {
        assert(sib_views(acc@) =~= Seq::<Seq<u8>>::empty());
        match list_items(b@, i as int, bytes_item(), fuel as nat) {
            Some((xs, e)) => {
                assert(Seq::<Seq<u8>>::empty() + xs =~= xs);
            },
            None => {},
        }
    }
    loop
        invariant
            p < i <= b@.len(),
            list_at(b@, p as int, bytes_item()) == prepend(
                sib_views(acc@),
                list_items(b@, i as int, bytes_item(), fuel as nat),
            ),
        decreases fuel,
    {
        if fuel == 0 {
            return None;
        }
        let item = parse_bytes32(b, i);
        match item {
            None => {
                return None;
            },
            Some((x, j)) => {
                if j < b.len() && b[j] == 44 {
                    let ghost old_view = sib_views(acc@);
                    proof {
                        lemma_prepend_push(old_view, x@, list_items(b@, j + 1, bytes_item(), (fuel - 1) as nat));
                    }
                    acc.push(x);
                    assert(sib_views(acc@) =~= old_view.push(x@));
                    i = j + 1;
                    fuel -= 1;
                } else if j < b.len() && b[j] == 93 {
                    let ghost old_view = sib_views(acc@);
                    acc.push(x);
                    assert(sib_views(acc@) =~= old_view + seq![x@]);
                    return Some((acc, j + 1));
                } else {
                    return None;
                }
            },
        }
    }
}

fn parse_bools(b: &[u8], p: usize) -> (r: Option<(Vec<bool>, usize)>)
    ensures
        list_at(b@, p as int, bool_item()) == (match r {
            Some((v, q)) => Some((v@, q as int)),
            None => None::<(Seq<bool>, int)>,
        }),
        r matches Some((v, q)) ==> p < q <= b@.len(),
{
    if p >= b.len() || b[p] != 91 {
        return None;
    }
    if p + 1 < b.len() && b[p + 1] == 93 {
        let v: Vec<bool> = Vec::new();
        assert(v@ =~= Seq::<bool>::empty());
        return Some((v, p + 2));
    }
    let mut acc: Vec<bool> = Vec::new();
    let mut i: usize = p + 1;
    let mut fuel: usize = b.len();
    assert(prepend(acc@, list_items(b@, i as int, bool_item(), fuel as nat))
        == list_items(b@, i as int, bool_item(), fuel as nat)) by {
        assert(acc@ =~= Seq::<bool>::empty());
        match list_items(b@, i as int, bool_item(), fuel as nat) {
            Some((xs, e)) => {
                assert(Seq::<bool>::empty() + xs =~= xs);
            },
            None => {},
        }
    }
    loop
        invariant
            p < i <= b@.len(),
            list_at(b@, p as int, bool_item()) == prepend(acc@, list_items(b@, i as int, bool_item(), fuel as nat)),
        decreases fuel,
    {
        if fuel == 0 {
            return None;
        }
        let item = parse_bool(b, i);
        match item {
            None => {
                return None;
            },
            Some((x, j)) => {
                if j < b.len() && b[j] == 44 {
                    let ghost old_view = acc@;
                    proof {
                        lemma_prepend_push(old_view, x, list_items(b@, j + 1, bool_item(), (fuel - 1) as nat));
                    }
                    acc.push(x);
                    i = j + 1;
                    fuel -= 1;
                } else if j < b.len() && b[j] == 93 {
                    let ghost old_view = acc@;
                    acc.push(x);
                    assert(acc@ =~= old_view + seq![x]);
                    return Some((acc, j + 1));
                } else {
                    return None;
                }
            },
        }
    }
}

fn bytes_eq(a: &[u8], b: &[u8]) -> (r: bool)
    ensures
        r == (a@ == b@),
{
    if a.len() != b.len() {
        return false;
    }
    let mut i: usize = 0;
    while i < a.len()
        invariant
            0 <= i <= a@.len(),
            a@.len() == b@.len(),
            forall|k: int| 0 <= k < i ==> #[trigger] a@[k] == b@[k],
        decreases a@.len() - i,
    {
        if a[i] != b[i] {
            return false;
        }
        i += 1;
    }
    assert(a@ =~= b@);
    true
}

/// Decodes witness text. Exactly the canonical text of a well-formed bundle
/// is accepted; anything else gives `None`.
pub fn decode_witness(b: &[u8]) -> (r: Option<HiddenWitness>)
    ensures
        witness_decode(b@) == (match r {
            Some(w) => Some(w.model()),
            None => None::<WitnessModel>,
        }),
        r matches Some(w) ==> vec_canonical(w.public_key@),
{
    let blen = b.len();
    let lit = lit_head_bytes();
    if !lit_at(b, 0, lit.as_slice()) {
        return None;
    }
    let parsed = parse_polys(b, lit.len());
    if parsed.is_none() {
        return None;
    }
    let (public_key, p2) = parsed.unwrap();
    let lit = lit_leaf_bytes();
    if !lit_at(b, p2, lit.as_slice()) {
        return None;
    }
    let parsed = parse_bytes32(b, p2 + lit.len());
    if parsed.is_none() {
        return None;
    }
    let (leaf, p3) = parsed.unwrap();
    let lit = lit_siblings_bytes();
    if !lit_at(b, p3, lit.as_slice()) {
        return None;
    }
    let parsed = parse_digests(b, p3 + lit.len());
    if parsed.is_none() {
        return None;
    }
    let (siblings, p4) = parsed.unwrap();
    let lit = lit_dirs_bytes();
    if !lit_at(b, p4, lit.as_slice()) {
        return None;
    }
    let parsed = parse_bools(b, p4 + lit.len());
    if parsed.is_none() {
        return None;
    }
    let (path_indices, p5) = parsed.unwrap();
    let lit = lit_root_bytes();
    if !lit_at(b, p5, lit.as_slice()) {
        return None;
    }
    let parsed = parse_bytes32(b, p5 + lit.len());
    if parsed.is_none() {
        return None;
    }
    let (root, p6) = parsed.unwrap();
    let lit = lit_tail_bytes();
    if !lit_at(b, p6, lit.as_slice()) {
        return None;
    }
    let w = HiddenWitness { public_key, merkle_path: MerkleProof { leaf, siblings, path_indices, root } };
    assert(witness_parse(b@) == Some(w.model()));
    let text = encode_witness(&w.public_key, &w.merkle_path);
    if bytes_eq(text.as_slice(), b) {
        Some(w)
    } else {
        None
    }
}

// ---------------------------------------------------------------------------
// Decoding inverts encoding
// ---------------------------------------------------------------------------

/// Offset of item `m` within `json_array(items)`.
pub open spec fn item_start(items: Seq<Seq<u8>>, m: int) -> int {
    if m == 0 {
        1
    } else {
        joined(items, m).len() + 2int
    }
}

proof fn lemma_joined_prefix(items: Seq<Seq<u8>>, k: int, m: int)
    requires
        0 <= k <= m <= items.len(),
    ensures
        joined(items, k).len() <= joined(items, m).len(),
        joined(items, m).subrange(0, joined(items, k).len() as int) == joined(items, k),
    decreases m,
{
    if k == m {
        assert(joined(items, m).subrange(0, joined(items, m).len() as int) =~= joined(items, m));
    } else if m == 1 {
        assert(joined(items, 0) =~= Seq::<u8>::empty());
        assert(joined(items, m).subrange(0, 0) =~= Seq::<u8>::empty());
    } else {
        lemma_joined_prefix(items, k, m - 1);
        let jm = joined(items, m - 1);
        assert(joined(items, m) == jm + seq![44u8] + items[m - 1]);
        assert(joined(items, m).subrange(0, joined(items, k).len() as int) =~= jm.subrange(0, joined(items, k).len() as int));
    }
}

proof fn lemma_joined_len(items: Seq<Seq<u8>>, m: int)
    requires
        0 <= m <= items.len(),
        forall|i: int| 0 <= i < items.len() ==> (#[trigger] items[i]).len() >= 1,
    ensures
        joined(items, m).len() >= m,
    decreases m,
{
    if m > 1 {
        lemma_joined_len(items, m - 1);
    }
}

/// Where item `m` sits in the array text and what follows it.
proof fn lemma_array_item(items: Seq<Seq<u8>>, m: int)
    requires
        0 <= m < items.len(),
    ensures
        item_start(items, m) + items[m].len() < json_array(items).len(),
        json_array(items).subrange(item_start(items, m), item_start(items, m) + items[m].len()) == items[m],
        json_array(items)[item_start(items, m) + items[m].len()] == (if m + 1 < items.len() {
            44u8
        } else {
            93u8
        }),
        m + 1 < items.len() ==> item_start(items, m + 1) == item_start(items, m) + items[m].len() + 1,
        m + 1 == items.len() ==> json_array(items).len() == item_start(items, m) + items[m].len() + 1,
{
    let n = items.len() as int;
    let ja = json_array(items);
    let jn = joined(items, n);
    let j1 = joined(items, m + 1);
    lemma_joined_step(items, m);
    lemma_joined_prefix(items, m + 1, n);
    assert(ja == seq![91u8] + jn + seq![93u8]);
    let start = item_start(items, m);
    assert(start + items[m].len() == 1 + j1.len());
    assert(ja.subrange(start, start + items[m].len()) =~= j1.subrange(j1.len() - items[m].len(), j1.len() as int)) by {
        assert forall|t: int| 0 <= t < items[m].len() implies #[trigger] ja.subrange(start, start + items[m].len())[t]
            == j1.subrange(j1.len() - items[m].len(), j1.len() as int)[t] by {
            assert(ja[start + t] == jn[start + t - 1]);
            assert(jn.subrange(0, j1.len() as int)[start + t - 1] == jn[start + t - 1]);
        }
    }
    assert(j1.subrange(j1.len() - items[m].len(), j1.len() as int) =~= items[m]);
    if m + 1 < n {
        lemma_joined_step(items, m + 1);
        lemma_joined_prefix(items, m + 2, n);
        let j2 = joined(items, m + 2);
        assert(j2 == j1 + seq![44u8] + items[m + 1]);
        assert(j2[j1.len() as int] == 44u8);
        assert(jn.subrange(0, j2.len() as int)[j1.len() as int] == jn[j1.len() as int]);
        assert(ja[1 + j1.len() as int] == jn[j1.len() as int]);
    } else {
        assert(ja[1 + jn.len() as int] == 93u8);
    }
}

proof fn lemma_fits_sub(b: Seq<u8>, p: int, whole: Seq<u8>, off: int, part: Seq<u8>)
    requires
        fits_at(b, p, whole),
        0 <= off,
        off + part.len() <= whole.len(),
        whole.subrange(off, off + part.len()) == part,
    ensures
        fits_at(b, p + off, part),
{
    assert(b.subrange(p + off, p + off + part.len()) =~= part) by {
        assert forall|t: int| 0 <= t < part.len() implies #[trigger] b.subrange(p + off, p + off + part.len())[t] == part[t] by {
            assert(b.subrange(p, p + whole.len())[off + t] == whole[off + t]);
            assert(whole.subrange(off, off + part.len())[t] == whole[off + t]);
        }
    }
}

/// A parser that reads each item back from its encoding, whatever comma or
/// closing bracket follows it.
pub open spec fn item_complete<T>(
    b: Seq<u8>,
    item: spec_fn(Seq<u8>, int) -> Option<(T, int)>,
    enc: spec_fn(T) -> Seq<u8>,
    xs: Seq<T>,
) -> bool {
    forall|i: int, q: int|
        0 <= i < xs.len() && #[trigger] fits_at(b, q, enc(xs[i])) && q + enc(xs[i]).len() < b.len() && (b[q + enc(
            xs[i],
        ).len()] == 44u8 || b[q + enc(xs[i]).len()] == 93u8) ==> #[trigger] item(b, q) == Some(
            (xs[i], q + enc(xs[i]).len()),
        )
}

proof fn lemma_items_complete<T>(
    b: Seq<u8>,
    p: int,
    item: spec_fn(Seq<u8>, int) -> Option<(T, int)>,
    enc: spec_fn(T) -> Seq<u8>,
    xs: Seq<T>,
    m: int,
    fuel: nat,
)
    requires
        fits_at(b, p, json_array(Seq::new(xs.len(), |i: int| enc(xs[i])))),
        item_complete(b, item, enc, xs),
        0 <= m < xs.len(),
        fuel >= xs.len() - m,
    ensures
        list_items(b, p + item_start(Seq::new(xs.len(), |i: int| enc(xs[i])), m), item, fuel) == Some(
            (xs.subrange(m, xs.len() as int), p + json_array(Seq::new(xs.len(), |i: int| enc(xs[i]))).len()),
        ),
    decreases xs.len() - m,
{
    let items = Seq::new(xs.len(), |i: int| enc(xs[i]));
    let ja = json_array(items);
    let n = xs.len() as int;
    lemma_array_item(items, m);
    let q = p + item_start(items, m);
    let len = items[m].len() as int;
    assert(items[m] == enc(xs[m]));
    lemma_fits_sub(b, p, ja, item_start(items, m), items[m]);
    assert(b[q + len] == ja[item_start(items, m) + len]) by {
        assert(b.subrange(p, p + ja.len())[item_start(items, m) + len] == ja[item_start(items, m) + len]);
    }
    assert(fits_at(b, q, enc(xs[m])));
    assert(item(b, q) == Some((xs[m], q + len)));
    if m + 1 < n {
        lemma_items_complete(b, p, item, enc, xs, m + 1, (fuel - 1) as nat);
        assert(seq![xs[m]] + xs.subrange(m + 1, n) =~= xs.subrange(m, n));
    } else {
        assert(seq![xs[m]] =~= xs.subrange(m, n));
    }
}

/// An array whose items the item parser reads back is read back whole.
proof fn lemma_list_complete<T>(
    b: Seq<u8>,
    p: int,
    item: spec_fn(Seq<u8>, int) -> Option<(T, int)>,
    enc: spec_fn(T) -> Seq<u8>,
    xs: Seq<T>,
)
    requires
        fits_at(b, p, json_array(Seq::new(xs.len(), |i: int| enc(xs[i])))),
        item_complete(b, item, enc, xs),
        forall|i: int| 0 <= i < xs.len() ==> (#[trigger] enc(xs[i])).len() >= 1 && enc(xs[i])[0] != 93u8,
    ensures
        list_at(b, p, item) == Some((xs, p + json_array(Seq::new(xs.len(), |i: int| enc(xs[i]))).len())),
{
    let items = Seq::new(xs.len(), |i: int| enc(xs[i]));
    let ja = json_array(items);
    assert(b.subrange(p, p + ja.len())[0] == ja[0]);
    if xs.len() == 0 {
        assert(joined(items, 0) =~= Seq::<u8>::empty());
        assert(ja =~= seq![91u8, 93u8]);
        assert(b.subrange(p, p + ja.len())[1] == ja[1]);
        assert(xs =~= Seq::<T>::empty());
    } else {
        assert forall|i: int| 0 <= i < items.len() implies (#[trigger] items[i]).len() >= 1 by {
            assert(items[i] == enc(xs[i]));
        }
        lemma_joined_len(items, items.len() as int);
        lemma_array_item(items, 0);
        assert(items[0] == enc(xs[0]));
        assert(ja[1] == items[0][0]) by {
            assert(ja.subrange(1, 1 + items[0].len() as int)[0] == ja[1]);
        }
        assert(b.subrange(p, p + ja.len())[1] == ja[1]);
        lemma_items_complete(b, p, item, enc, xs, 0, b.len());
        assert(xs.subrange(0, xs.len() as int) =~= xs);
    }
}

proof fn lemma_digits_props(n: nat)
    ensures
        digits(n).len() >= 1,
        forall|k: int| 0 <= k < digits(n).len() ==> is_digit(#[trigger] digits(n)[k]),
        digits_value(digits(n)) == n,
        digits(n)[0] != 93u8,
    decreases n,
{
    if n >= 10 {
        lemma_digits_props(n / 10);
        let d = digits(n / 10);
        assert(digits(n).drop_last() =~= d);
        let x: int = (48 + n % 10) as int;
        assert(0 <= x < 256);
        assert((x as u8) as int == x);
        assert(digits(n).last() == x as u8);
        assert(n == 10 * (n / 10) + n % 10);
        assert(digits_value(digits(n)) == 10 * digits_value(d) + (digits(n).last() - 48));
    } else {
        let x: int = (48 + n) as int;
        assert((x as u8) as int == x);
        assert(digits(n).drop_last() =~= Seq::<u8>::empty());
        assert(digits_value(digits(n)) == 10 * digits_value(Seq::<u8>::empty()) + (digits(n).last() - 48));
    }
}

proof fn lemma_digits_len(n: nat, k: nat)
    requires
        k >= 1,
        n < pow10(k),
    ensures
        digits(n).len() <= k,
    decreases n,
{
    if n >= 10 {
        assert(k >= 2) by {
            if k == 1 {
                reveal_with_fuel(pow10, 2);
            }
        }
        assert(n / 10 < pow10((k - 1) as nat)) by (nonlinear_arith)
            requires n < pow10(k), pow10(k) == 10 * pow10((k - 1) as nat);
        lemma_digits_len(n / 10, (k - 1) as nat);
    }
}

proof fn lemma_digit_run_exact(b: Seq<u8>, p: int, len: int, k: nat)
    requires
        0 <= p,
        0 <= len <= k,
        p + len <= b.len(),
        forall|t: int| p <= t < p + len ==> is_digit(#[trigger] b[t]),
        p + len == b.len() || !is_digit(b[p + len]),
    ensures
        digit_run(b, p, k) == len,
    decreases len,
{
    if len > 0 {
        lemma_digit_run_exact(b, p + 1, len - 1, (k - 1) as nat);
    }
}

/// A number followed by a comma or a closing bracket reads back.
proof fn lemma_nat_complete(b: Seq<u8>, q: int, n: nat)
    requires
        n < 1_000_000_000,
        fits_at(b, q, digits(n)),
        q + digits(n).len() < b.len(),
        b[q + digits(n).len()] == 44u8 || b[q + digits(n).len()] == 93u8,
    ensures
        nat_at(b, q) == Some((n, q + digits(n).len())),
{
    let d = digits(n);
    lemma_digits_props(n);
    reveal_with_fuel(pow10, 10);
    lemma_digits_len(n, 9);
    assert forall|t: int| q <= t < q + d.len() implies is_digit(#[trigger] b[t]) by {
        assert(b.subrange(q, q + d.len())[t - q] == d[t - q]);
    }
    lemma_digit_run_exact(b, q, d.len() as int, 19);
}

/// Encoder of numbers.
pub open spec fn nat_enc() -> spec_fn(nat) -> Seq<u8> {
    |n: nat| digits(n)
}

proof fn lemma_nats_complete(b: Seq<u8>, p: int, xs: Seq<nat>)
    requires
        fits_at(b, p, json_array(Seq::new(xs.len(), |i: int| digits(xs[i])))),
        forall|i: int| 0 <= i < xs.len() ==> #[trigger] xs[i] < 1_000_000_000,
    ensures
        list_at(b, p, nat_item()) == Some((xs, p + json_array(Seq::new(xs.len(), |i: int| digits(xs[i]))).len())),
{
    let enc = nat_enc();
    assert(Seq::new(xs.len(), |i: int| enc(xs[i])) =~= Seq::new(xs.len(), |i: int| digits(xs[i])));
    assert forall|i: int, q: int|
        0 <= i < xs.len() && #[trigger] fits_at(b, q, enc(xs[i])) && q + enc(xs[i]).len() < b.len() && (b[q
            + enc(xs[i]).len()] == 44u8 || b[q + enc(xs[i]).len()] == 93u8) implies #[trigger] nat_item()(b, q) == Some(
        (xs[i], q + enc(xs[i]).len()),
    ) by {
        lemma_nat_complete(b, q, xs[i]);
    }
    assert forall|i: int| 0 <= i < xs.len() implies (#[trigger] enc(xs[i])).len() >= 1 && enc(xs[i])[0] != 93u8 by {
        lemma_digits_props(xs[i]);
    }
    lemma_list_complete(b, p, nat_item(), enc, xs);
}

proof fn lemma_bytes_complete(b: Seq<u8>, p: int, s: Seq<u8>)
    requires
        s.len() == 32,
        fits_at(b, p, bytes_json(s)),
    ensures
        bytes_at(b, p) == Some((s, p + bytes_json(s).len())),
{
    let xs = Seq::new(32, |i: int| s[i] as nat);
    assert(Seq::new(xs.len(), |i: int| digits(xs[i])) =~= Seq::new(s.len(), |i: int| digits(s[i] as nat)));
    lemma_nats_complete(b, p, xs);
    assert(Seq::new(32, |i: int| xs[i] as u8) =~= s);
}

proof fn lemma_coeffs_complete(b: Seq<u8>, p: int, s: Seq<i64>)
    requires
        is_canonical_seq(s),
        fits_at(b, p, coeffs_json(s)),
    ensures
        coeffs_at(b, p) == Some((s, p + coeffs_json(s).len())),
{
    let xs = Seq::new(N as nat, |i: int| s[i] as nat);
    assert(Seq::new(xs.len(), |i: int| digits(xs[i])) =~= Seq::new(s.len(), |i: int| digits(s[i] as nat)));
    assert forall|i: int| 0 <= i < xs.len() implies #[trigger] xs[i] < 1_000_000_000 by {
        assert(s[i] < Q);
    }
    lemma_nats_complete(b, p, xs);
    assert forall|i: int| 0 <= i < N implies #[trigger] xs[i] < Q by {
        assert(s[i] < Q);
    }
    assert(Seq::new(N as nat, |i: int| xs[i] as i64) =~= s);
}

proof fn lemma_bool_complete(b: Seq<u8>, q: int, x: bool)
    requires
        fits_at(b, q, bool_json(x)),
    ensures
        bool_at(b, q) == Some((x, q + bool_json(x).len())),
{
    if !x {
        assert(b.subrange(q, q + 5)[0] == 102u8);
        if fits_at(b, q, bool_json(true)) {
            assert(b.subrange(q, q + 4)[0] == 116u8);
        }
    }
}

proof fn lemma_prefix_step(b: Seq<u8>, q: Seq<u8>, c: Seq<u8>)
    requires
        b.len() >= q.len() + c.len(),
        b.subrange(0, (q + c).len() as int) == q + c,
    ensures
        b.subrange(0, q.len() as int) == q,
        fits_at(b, q.len() as int, c),
{
    assert(b.subrange(0, q.len() as int) =~= (q + c).subrange(0, q.len() as int));
    assert((q + c).subrange(0, q.len() as int) =~= q);
    assert(b.subrange(q.len() as int, (q.len() + c.len()) as int) =~= (q + c).subrange(q.len() as int, (q.len() + c.len()) as int));
    assert((q + c).subrange(q.len() as int, (q.len() + c.len()) as int) =~= c);
}

proof fn lemma_polys_complete(b: Seq<u8>, p: int, pk: Seq<Seq<i64>>)
    requires
        vec_canonical(pk),
        fits_at(b, p, polys_json(pk)),
    ensures
        polys_at(b, p) == Some((pk, p + polys_json(pk).len())),
{
    let enc = |s: Seq<i64>| coeffs_json(s);
    assert(Seq::new(pk.len(), |i: int| enc(pk[i])) =~= Seq::new(pk.len(), |i: int| coeffs_json(pk[i])));
    assert forall|i: int, q: int|
        0 <= i < pk.len() && #[trigger] fits_at(b, q, enc(pk[i])) && q + enc(pk[i]).len() < b.len() && (b[q
            + enc(pk[i]).len()] == 44u8 || b[q + enc(pk[i]).len()] == 93u8) implies #[trigger] coeffs_item()(b, q)
        == Some((pk[i], q + enc(pk[i]).len())) by {
        lemma_coeffs_complete(b, q, pk[i]);
    }
    assert forall|i: int| 0 <= i < pk.len() implies (#[trigger] enc(pk[i])).len() >= 1 && enc(pk[i])[0] != 93u8 by {
    }
    lemma_list_complete(b, p, coeffs_item(), enc, pk);
}

proof fn lemma_digests_complete(b: Seq<u8>, p: int, v: Seq<Seq<u8>>)
    requires
        forall|i: int| 0 <= i < v.len() ==> (#[trigger] v[i]).len() == 32,
        fits_at(b, p, digests_json(v)),
    ensures
        list_at(b, p, bytes_item()) == Some((v, p + digests_json(v).len())),
{
    let enc = |s: Seq<u8>| bytes_json(s);
    assert(Seq::new(v.len(), |i: int| enc(v[i])) =~= Seq::new(v.len(), |i: int| bytes_json(v[i])));
    assert forall|i: int, q: int|
        0 <= i < v.len() && #[trigger] fits_at(b, q, enc(v[i])) && q + enc(v[i]).len() < b.len() && (b[q + enc(
            v[i],
        ).len()] == 44u8 || b[q + enc(v[i]).len()] == 93u8) implies #[trigger] bytes_item()(b, q) == Some(
        (v[i], q + enc(v[i]).len()),
    ) by {
        lemma_bytes_complete(b, q, v[i]);
    }
    assert forall|i: int| 0 <= i < v.len() implies (#[trigger] enc(v[i])).len() >= 1 && enc(v[i])[0] != 93u8 by {
    }
    lemma_list_complete(b, p, bytes_item(), enc, v);
}

proof fn lemma_bools_complete(b: Seq<u8>, p: int, v: Seq<bool>)
    requires
        fits_at(b, p, bools_json(v)),
    ensures
        list_at(b, p, bool_item()) == Some((v, p + bools_json(v).len())),
{
    let enc = |x: bool| bool_json(x);
    assert(Seq::new(v.len(), |i: int| enc(v[i])) =~= Seq::new(v.len(), |i: int| bool_json(v[i])));
    assert forall|i: int, q: int|
        0 <= i < v.len() && #[trigger] fits_at(b, q, enc(v[i])) && q + enc(v[i]).len() < b.len() && (b[q + enc(
            v[i],
        ).len()] == 44u8 || b[q + enc(v[i]).len()] == 93u8) implies #[trigger] bool_item()(b, q) == Some(
        (v[i], q + enc(v[i]).len()),
    ) by {
        lemma_bool_complete(b, q, v[i]);
    }
    assert forall|i: int| 0 <= i < v.len() implies (#[trigger] enc(v[i])).len() >= 1 && enc(v[i])[0] != 93u8 by {
    }
    lemma_list_complete(b, p, bool_item(), enc, v);
}

/// Decoding the canonical text of a well-formed bundle gives the bundle back.
pub proof fn lemma_witness_roundtrip(m: WitnessModel)
    requires
        model_wf(m),
    ensures
        witness_decode(witness_json(m)) == Some(m),
{
    let b = witness_json(m);
    let q1 = lit_head();
    let q2 = q1 + polys_json(m.0);
    let q3 = q2 + lit_leaf();
    let q4 = q3 + bytes_json(m.1);
    let q5 = q4 + lit_siblings();
    let q6 = q5 + digests_json(m.2);
    let q7 = q6 + lit_dirs();
    let q8 = q7 + bools_json(m.3);
    let q9 = q8 + lit_root();
    let q10 = q9 + bytes_json(m.4);
    assert(b == q10 + lit_tail());
    assert(b.subrange(0, b.len() as int) =~= b);
    lemma_prefix_step(b, q10, lit_tail());
    lemma_prefix_step(b, q9, bytes_json(m.4));
    lemma_prefix_step(b, q8, lit_root());
    lemma_prefix_step(b, q7, bools_json(m.3));
    lemma_prefix_step(b, q6, lit_dirs());
    lemma_prefix_step(b, q5, digests_json(m.2));
    lemma_prefix_step(b, q4, lit_siblings());
    lemma_prefix_step(b, q3, bytes_json(m.1));
    lemma_prefix_step(b, q2, lit_leaf());
    lemma_prefix_step(b, q1, polys_json(m.0));
    assert(b.subrange(0, q1.len() as int) == q1);
    assert(fits_at(b, 0, lit_head()));
    lemma_polys_complete(b, q1.len() as int, m.0);
    lemma_bytes_complete(b, q3.len() as int, m.1);
    lemma_digests_complete(b, q5.len() as int, m.2);
    lemma_bools_complete(b, q7.len() as int, m.3);
    lemma_bytes_complete(b, q9.len() as int, m.4);
    assert(witness_parse(b) == Some(m));
}

} // verus!
