//! Domain separators prefixed to every hashed message.

use vstd::prelude::*;

verus! {

/// Domain separator for credential commitments and Merkle leaves: the ASCII bytes of `COM_DOM`.
pub open spec fn commitment_domain() -> Seq<u8> {
    seq![67, 79, 77, 95, 68, 79, 77]
}

/// The domain separator for credential commitments and Merkle leaves.
pub fn commitment_domain_bytes() -> (r: Vec<u8>)
    ensures
        r@ == commitment_domain(),
{
    let r: Vec<u8> = vec![67, 79, 77, 95, 68, 79, 77];
    assert(r@ =~= commitment_domain());
    r
}

/// Domain separator for internal Merkle nodes: the ASCII bytes of `NODE_DOM`.
pub open spec fn node_domain() -> Seq<u8> {
    seq![78, 79, 68, 69, 95, 68, 79, 77]
}

/// The domain separator for internal Merkle nodes.
pub fn node_domain_bytes() -> (r: Vec<u8>)
    ensures
        r@ == node_domain(),
{
    let r: Vec<u8> = vec![78, 79, 68, 69, 95, 68, 79, 77];
    assert(r@ =~= node_domain());
    r
}

/// Domain separator for nullifiers: the ASCII bytes of `NUL_DOM`.
pub open spec fn nullifier_domain() -> Seq<u8> {
    seq![78, 85, 76, 95, 68, 79, 77]
}

/// The domain separator for nullifiers.
pub fn nullifier_domain_bytes() -> (r: Vec<u8>)
    ensures
        r@ == nullifier_domain(),
{
    let r: Vec<u8> = vec![78, 85, 76, 95, 68, 79, 77];
    assert(r@ =~= nullifier_domain());
    r
}

/// Domain separator for Fiat-Shamir challenge seeds: the ASCII bytes of `ZK_DOM`.
pub open spec fn challenge_domain() -> Seq<u8> {
    seq![90, 75, 95, 68, 79, 77]
}

/// The domain separator for Fiat-Shamir challenge seeds.
pub fn challenge_domain_bytes() -> (r: Vec<u8>)
    ensures
        r@ == challenge_domain(),
{
    let r: Vec<u8> = vec![90, 75, 95, 68, 79, 77];
    assert(r@ =~= challenge_domain());
    r
}

/// Domain separator for the witness keystream seed: the ASCII bytes of `WIT_ENC`.
pub open spec fn witness_domain() -> Seq<u8> {
    seq![87, 73, 84, 95, 69, 78, 67]
}

/// The domain separator for the witness keystream seed.
pub fn witness_domain_bytes() -> (r: Vec<u8>)
    ensures
        r@ == witness_domain(),
{
    let r: Vec<u8> = vec![87, 73, 84, 95, 69, 78, 67];
    assert(r@ =~= witness_domain());
    r
}

/// Domain separator for parameter authentication digests: the ASCII bytes of `PARAM_DOM`.
pub open spec fn params_digest_domain() -> Seq<u8> {
    seq![80, 65, 82, 65, 77, 95, 68, 79, 77]
}

/// The domain separator for parameter authentication digests.
pub fn params_digest_domain_bytes() -> (r: Vec<u8>)
    ensures
        r@ == params_digest_domain(),
{
    let r: Vec<u8> = vec![80, 65, 82, 65, 77, 95, 68, 79, 77];
    assert(r@ =~= params_digest_domain());
    r
}

/// Domain separator for seeded parameter expansion: the ASCII bytes of `obscura-mlwe-params-v1`.
pub open spec fn params_seed_domain() -> Seq<u8> {
    seq![111, 98, 115, 99, 117, 114, 97, 45, 109, 108, 119, 101, 45, 112, 97, 114, 97, 109, 115, 45, 118, 49]
}

/// The domain separator for seeded parameter expansion.
pub fn params_seed_domain_bytes() -> (r: Vec<u8>)
    ensures
        r@ == params_seed_domain(),
{
    let r: Vec<u8> = vec![111, 98, 115, 99, 117, 114, 97, 45, 109, 108, 119, 101, 45, 112, 97, 114, 97, 109, 115, 45, 118, 49];
    assert(r@ =~= params_seed_domain());
    r
}

} // verus!
