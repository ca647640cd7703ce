use obscura::mlwe::{keygen, keygen_from, MlweParams};
use obscura::poly::{Poly, PolyMat, PolyVec, GAMMA1, K, N, Q};
use obscura::protocol::RootRegistry;
use obscura::tree::MerkleTree;
use rand::rngs::StdRng;
use rand::{RngCore, SeedableRng};

fn word_bytes(words: &[[u8; 4]]) -> Vec<u8> {
    let mut out = Vec::new();
    for w in words {
        out.extend_from_slice(w);
    }
    out
}

#[test]
fn masking_from_bytes_maps_each_word_to_the_shifted_18_bit_value() {
    let mut words = vec![[0u8; 4]; N];
    words[1] = [0xFF, 0xFF, 0x03, 0x00];
    words[2] = [0xFF, 0xFF, 0xFF, 0xFF];
    words[3] = [0xFF, 0xFF, 0x01, 0x00];
    words[4] = [0x00, 0x00, 0x02, 0x7C];
    let p = Poly::masking_from_bytes(&word_bytes(&words));
    assert_eq!(p.coeffs[0], Q - GAMMA1 + 1);
    assert_eq!(p.coeffs[1], GAMMA1);
    assert_eq!(p.coeffs[2], GAMMA1);
    assert_eq!(p.coeffs[3], 0);
    assert_eq!(p.coeffs[4], 1);
    assert_eq!(p.coeffs[5], Q - GAMMA1 + 1);
}

#[test]
fn sample_masking_is_the_masking_polynomial_of_the_drawn_bytes() {
    let mut rng = StdRng::seed_from_u64(41);
    let mut mirror = StdRng::seed_from_u64(41);
    let p = Poly::sample_masking(&mut rng);
    let mut bytes = vec![0u8; 4 * N];
    mirror.fill_bytes(&mut bytes);
    assert_eq!(p, Poly::masking_from_bytes(&bytes));
    assert!(p.coeffs.iter().any(|&c| c != 0));
}

#[test]
fn sample_uniform_accepts_candidates_below_q_in_draw_order() {
    let mut rng = StdRng::seed_from_u64(43);
    let mut mirror = StdRng::seed_from_u64(43);
    let p = Poly::sample_uniform(&mut rng);
    let mut expected = Vec::new();
    while expected.len() < N {
        let mut w = [0u8; 4];
        mirror.fill_bytes(&mut w);
        let candidate = (u32::from_le_bytes(w) & 0x7F_FFFF) as i64;
        if candidate < Q {
            expected.push(candidate);
        }
    }
    assert_eq!(p.coeffs.to_vec(), expected);
}

#[test]
fn poly_from_coeffs_accepts_exactly_canonical_lists() {
    let mut coeffs = vec![0i64; N];
    coeffs[9] = Q - 1;
    let p = Poly::from_coeffs(&coeffs).expect("canonical coefficients");
    assert_eq!(p.coeffs.to_vec(), coeffs);
    assert!(Poly::from_coeffs(&coeffs[1..]).is_none());
    coeffs[9] = Q;
    assert!(Poly::from_coeffs(&coeffs).is_none());
    coeffs[9] = -1;
    assert!(Poly::from_coeffs(&coeffs).is_none());
}

#[test]
fn keygen_from_computes_a_times_s_plus_e() {
    let mut rng = StdRng::seed_from_u64(45);
    let params = MlweParams::generate(&mut rng);
    let s = PolyVec::sample_cbd(&mut rng);
    let e = PolyVec::sample_cbd(&mut rng);
    let kp = keygen_from(&params, s.clone(), &e);
    assert_eq!(kp.secret_key(), &s);
    assert_eq!(kp.public_key(), &params.matrix_a.mul_vec(&s).add(&e));
    let zero_secret = keygen_from(&params, PolyVec::zero(), &e);
    assert_eq!(zero_secret.public_key(), &e);
}

#[test]
fn keygen_adds_a_nonzero_error() {
    let mut rng = StdRng::seed_from_u64(47);
    let params = MlweParams::generate(&mut rng);
    let kp = keygen(&params, &mut rng);
    let noiseless = params.matrix_a.mul_vec(kp.secret_key());
    assert_ne!(kp.public_key(), &noiseless);
    assert_eq!(kp.public_key().polys.len(), K);
}

#[test]
fn inclusion_proof_directions_are_the_index_bits() {
    for size in [1usize, 2, 3, 5, 8, 11] {
        let mut tree = MerkleTree::new();
        for i in 0..size {
            tree.insert([i as u8; 32]).unwrap();
        }
        for i in 0..size {
            let proof = tree.generate_inclusion_proof(i).unwrap();
            assert_eq!(proof.path_indices.len(), tree.depth());
            for (j, &right) in proof.path_indices.iter().enumerate() {
                assert_eq!(right, (i >> j) & 1 == 1);
            }
        }
    }
}

#[test]
fn registration_keeps_earlier_answers_and_answers_the_new_pair() {
    let mut rng = StdRng::seed_from_u64(49);
    let params = MlweParams::generate(&mut rng);
    let other = MlweParams::generate(&mut rng);
    let mut registry = RootRegistry::new();
    assert!(registry.authenticate(&[1u8; 32], &params).is_none());
    let first = registry.register_trusted_root([1u8; 32], &params);
    let before = registry.authenticate(&[1u8; 32], &params);
    let second = registry.register_trusted_root([2u8; 32], &other);
    assert_eq!(registry.authenticate(&[1u8; 32], &params), before);
    assert_eq!(before, Some(first));
    assert_eq!(registry.authenticate(&[2u8; 32], &other), Some(second));
    assert!(registry.authenticate(&[2u8; 32], &params).is_none());
}

#[test]
fn cloned_tree_has_the_same_root_and_proofs() {
    let mut tree = MerkleTree::new();
    for i in 0..5u8 {
        tree.insert([i; 32]).unwrap();
    }
    let root = tree.root().unwrap();
    let mut copy = tree.clone();
    assert_eq!(copy.leaves(), tree.leaves());
    assert_eq!(copy.root().unwrap(), root);
    let p = copy.generate_inclusion_proof(3).unwrap();
    assert_eq!(p.root, root);
    copy.insert([9u8; 32]).unwrap();
    assert_eq!(tree.leaf_count(), 5);
    assert_eq!(tree.root().unwrap(), root);
}

#[test]
fn vector_and_matrix_constructors_require_rank_k() {
    let polys = vec![Poly::zero(); K];
    let v = PolyVec::from_polys(polys.clone()).expect("rank K");
    assert_eq!(v.polys, polys);
    assert!(PolyVec::from_polys(vec![Poly::zero(); K + 1]).is_none());
    assert!(PolyVec::from_polys(Vec::new()).is_none());
    let m = PolyMat::from_rows(vec![v.clone(); K]).expect("K rows");
    assert_eq!(m.rows.len(), K);
    assert!(PolyMat::from_rows(vec![v; K - 1]).is_none());
}

#[test]
fn key_pairs_can_be_wiped() {
    let mut rng = StdRng::seed_from_u64(51);
    let params = MlweParams::generate(&mut rng);
    let kp = keygen(&params, &mut rng);
    kp.wipe();
    let pair = obscura::protocol::KeyPair::generate(&params, &mut rng);
    pair.wipe();
}
