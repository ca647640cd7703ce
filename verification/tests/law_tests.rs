use obscura::error::ProtocolError;
use obscura::mlwe::{commitment_hash, keygen, sample_challenge, MlweParams};
use obscura::poly::{Poly, PolyVec, K, N, Q, TAU};
use obscura::protocol::{AuthenticatedRoot, KeyPair, PublicInputs, RootRegistry, Verifier};
use obscura::tree::{MerkleProof, MerkleTree};
use obscura::witness::{decode_witness, encode_witness};
use obscura::zk_auth::{derive_nullifier, prove, prove_attempt, verify};
use rand::rngs::StdRng;
use rand::SeedableRng;
use sha3::digest::{ExtendableOutput, Update, XofReader};
use sha3::Shake256;

fn leaf(seed: u8) -> [u8; 32] {
    let mut l = [0u8; 32];
    for (i, b) in l.iter_mut().enumerate() {
        *b = seed.wrapping_mul(7).wrapping_add(i as u8);
    }
    l
}

fn shake32(parts: &[&[u8]]) -> [u8; 32] {
    let mut h = Shake256::default();
    for p in parts {
        h.update(p);
    }
    let mut out = [0u8; 32];
    h.finalize_xof().read(&mut out);
    out
}

#[test]
fn ring_mul_is_associative() {
    let mut rng = StdRng::seed_from_u64(7);
    let a = Poly::sample_uniform(&mut rng);
    let b = Poly::sample_uniform(&mut rng);
    let c = Poly::sample_uniform(&mut rng);
    assert_eq!(a.mul(&b.mul(&c)), a.mul(&b).mul(&c));
}

#[test]
fn ring_mul_by_monomial_shifts_with_sign() {
    let mut a = Poly::zero();
    a.coeffs[N - 1] = 5;
    let mut x = Poly::zero();
    x.coeffs[1] = 1;
    let r = a.mul(&x);
    let mut expected = Poly::zero();
    expected.coeffs[0] = Q - 5;
    assert_eq!(r, expected);
}

#[test]
fn poly_add_wraps_modulo_q() {
    let mut a = Poly::zero();
    a.coeffs[3] = Q - 1;
    let mut b = Poly::zero();
    b.coeffs[3] = 2;
    let s = a.add(&b);
    assert_eq!(s.coeffs[3], 1);
    let d = b.sub(&a);
    assert_eq!(d.coeffs[3], 3);
}

#[test]
fn poly_reduce_uses_euclidean_remainder() {
    let mut p = Poly::zero();
    p.coeffs[0] = -1;
    p.coeffs[1] = Q + 4;
    p.reduce();
    assert_eq!(p.coeffs[0], Q - 1);
    assert_eq!(p.coeffs[1], 4);
}

#[test]
fn poly_bytes_are_little_endian_24_bit() {
    let mut p = Poly::zero();
    p.coeffs[0] = 0x12_3456;
    let bytes = p.to_bytes();
    assert_eq!(bytes.len(), 3 * N);
    assert_eq!(&bytes[0..3], &[0x56, 0x34, 0x12]);
}

#[test]
fn poly_from_bytes_rejects_out_of_range_and_wrong_length() {
    let mut bytes = Poly::zero().to_bytes();
    let q = Q as u32;
    bytes[0] = q as u8;
    bytes[1] = (q >> 8) as u8;
    bytes[2] = (q >> 16) as u8;
    assert!(Poly::from_bytes(&bytes).is_none());
    assert!(Poly::from_bytes(&bytes[..3 * N - 1]).is_none());
    assert!(PolyVec::from_bytes(&bytes).is_none());
}

#[test]
fn infinity_norm_lt_is_strict() {
    let mut p = Poly::zero();
    p.coeffs[9] = Q - 7;
    assert!(p.infinity_norm_lt(8));
    assert!(!p.infinity_norm_lt(7));
}

#[test]
fn challenges_have_exactly_tau_signed_units() {
    for seed in [b"a".as_slice(), b"bb", b"challenge seed", &[0u8; 64]] {
        let c = sample_challenge(seed);
        let nonzero = c.coeffs.iter().filter(|&&x| x != 0).count();
        assert_eq!(nonzero, TAU);
        assert!(c.coeffs.iter().all(|&x| x == 0 || x == 1 || x == Q - 1));
    }
}

#[test]
fn nullifier_is_shake256_of_domain_key_and_scope() {
    let mut rng = StdRng::seed_from_u64(11);
    let params = MlweParams::generate(&mut rng);
    let kp = keygen(&params, &mut rng);
    let scope = b"scope-x";
    let expected = shake32(&[b"NUL_DOM", &kp.secret_key().to_bytes(), scope]);
    assert_eq!(derive_nullifier(kp.secret_key(), scope), expected);
    assert_eq!(kp.nullifier(scope), expected);
}

#[test]
fn commitment_is_shake256_of_domain_and_key() {
    let mut rng = StdRng::seed_from_u64(12);
    let params = MlweParams::generate(&mut rng);
    let kp = keygen(&params, &mut rng);
    let expected = shake32(&[b"COM_DOM", &kp.public_key().to_bytes()]);
    assert_eq!(commitment_hash(kp.public_key()), expected);
}

#[test]
fn parameter_digest_is_shake256_of_rows() {
    let params = MlweParams::from_seed(&[3u8; 32]);
    let mut rows: Vec<u8> = Vec::new();
    for row in &params.matrix_a.rows {
        rows.extend_from_slice(&row.to_bytes());
    }
    let expected = shake32(&[b"PARAM_DOM", &rows]);
    assert_eq!(params.authentication_digest(), expected);
}

#[test]
fn sampled_values_depend_on_the_generator() {
    let mut rng = StdRng::seed_from_u64(13);
    let a = Poly::sample_uniform(&mut rng);
    let b = Poly::sample_uniform(&mut rng);
    assert_ne!(a, b);
    assert!(a.coeffs.iter().all(|&c| (0..Q).contains(&c)));
}

#[test]
fn merkle_proofs_verify_for_every_leaf_of_odd_sized_trees() {
    for size in [1usize, 2, 3, 5, 7, 9] {
        let mut tree = MerkleTree::new();
        for i in 0..size {
            assert_eq!(tree.insert(leaf(i as u8)).unwrap(), i);
        }
        assert_eq!(tree.leaf_count(), size);
        let root = tree.root().unwrap();
        for i in 0..size {
            let proof = tree.generate_inclusion_proof(i).unwrap();
            assert_eq!(proof.root, root);
            assert_eq!(proof.leaf, leaf(i as u8));
            assert_eq!(proof.siblings.len(), tree.depth());
            assert!(MerkleTree::verify_inclusion_proof(&proof));
        }
    }
}

#[test]
fn merkle_root_of_single_leaf_is_its_leaf_hash() {
    let mut tree = MerkleTree::new();
    tree.insert(leaf(4)).unwrap();
    let expected = shake32(&[b"COM_DOM", &leaf(4)]);
    assert_eq!(tree.root().unwrap(), expected);
    assert_eq!(tree.depth(), 0);
}

#[test]
fn merkle_root_of_two_leaves_hashes_the_pair() {
    let mut tree = MerkleTree::new();
    tree.insert(leaf(1)).unwrap();
    tree.insert(leaf(2)).unwrap();
    let left = shake32(&[b"COM_DOM", &leaf(1)]);
    let right = shake32(&[b"COM_DOM", &leaf(2)]);
    let expected = shake32(&[b"NODE_DOM", &left, &right]);
    assert_eq!(tree.root().unwrap(), expected);
}

#[test]
fn invalid_leaf_index_reports_index_and_size() {
    let mut tree = MerkleTree::default();
    tree.insert(leaf(0)).unwrap();
    tree.insert(leaf(1)).unwrap();
    assert_eq!(
        tree.generate_inclusion_proof(2).unwrap_err(),
        ProtocolError::InvalidLeafIndex { index: 2, total_leaves: 2 }
    );
}

fn scenario(seed: u64) -> (MlweParams, obscura::mlwe::MlweKeyPair, [u8; 32], MerkleProof) {
    let mut rng = StdRng::seed_from_u64(seed);
    let params = MlweParams::generate(&mut rng);
    let mut tree = MerkleTree::new();
    let other = keygen(&params, &mut rng);
    tree.insert(commitment_hash(other.public_key())).unwrap();
    let kp = keygen(&params, &mut rng);
    let idx = tree.insert(commitment_hash(kp.public_key())).unwrap();
    let root = tree.root().unwrap();
    let path = tree.generate_inclusion_proof(idx).unwrap();
    (params, kp, root, path)
}

#[test]
fn witness_text_roundtrips_and_rejects_noncanonical_text() {
    let (_params, kp, _root, path) = scenario(21);
    let text = encode_witness(kp.public_key(), &path);
    let decoded = decode_witness(&text).expect("canonical text decodes");
    assert_eq!(&decoded.public_key, kp.public_key());
    assert_eq!(decoded.merkle_path.leaf, path.leaf);
    assert_eq!(decoded.merkle_path.siblings, path.siblings);
    assert_eq!(decoded.merkle_path.path_indices, path.path_indices);
    assert_eq!(decoded.merkle_path.root, path.root);

    let mut spaced = text.clone();
    spaced.insert(1, b' ');
    assert!(decode_witness(&spaced).is_none());
    assert!(decode_witness(&text[..text.len() - 1]).is_none());
    assert!(decode_witness(b"{}").is_none());
}

#[test]
fn witness_text_is_compact_json() {
    let (_params, kp, _root, path) = scenario(22);
    let text = String::from_utf8(encode_witness(kp.public_key(), &path)).unwrap();
    let polys: Vec<String> = kp
        .public_key()
        .polys
        .iter()
        .map(|p| format!("[{}]", p.coeffs.iter().map(|c| c.to_string()).collect::<Vec<_>>().join(",")))
        .collect();
    let bytes = |b: &[u8; 32]| format!("[{}]", b.iter().map(|x| x.to_string()).collect::<Vec<_>>().join(","));
    let siblings: Vec<String> = path.siblings.iter().map(bytes).collect();
    let dirs: Vec<String> = path.path_indices.iter().map(|d| d.to_string()).collect();
    let expected = format!(
        "{{\"public_key\":{{\"polys\":[{}]}},\"merkle_path\":{{\"leaf\":{},\"siblings\":[{}],\"path_indices\":[{}],\"root\":{}}}}}",
        polys.join(","),
        bytes(&path.leaf),
        siblings.join(","),
        dirs.join(","),
        bytes(&path.root)
    );
    assert_eq!(text, expected);
}

#[test]
fn prove_rejects_only_a_foreign_nullifier() {
    let (params, kp, root, path) = scenario(23);
    let mut rng = StdRng::seed_from_u64(24);
    let scope = b"s";
    let wrong = [9u8; 32];
    assert_eq!(
        prove(&params, &kp, &path, &root, &wrong, scope, &mut rng).unwrap_err(),
        ProtocolError::ChallengeFailure
    );
    let nullifier = derive_nullifier(kp.secret_key(), scope);
    let other_root = [1u8; 32];
    let proof = prove(&params, &kp, &path, &other_root, &nullifier, scope, &mut rng)
        .expect("the Merkle path is not checked while proving");
    assert!(!verify(&params, &proof, &other_root, &nullifier, scope).unwrap());
    assert!(!verify(&params, &proof, &root, &nullifier, scope).unwrap());
}

#[test]
fn prove_attempt_is_deterministic_in_the_masking_vector() {
    let (params, kp, root, path) = scenario(25);
    let scope = b"attempt";
    let nullifier = derive_nullifier(kp.secret_key(), scope);
    let mut rng = StdRng::seed_from_u64(26);
    let mut found = None;
    for _ in 0..50 {
        let y = PolyVec::sample_masking(&mut rng);
        let first = prove_attempt(&params, &kp, &path, &root, &nullifier, scope, &y);
        let second = prove_attempt(&params, &kp, &path, &root, &nullifier, scope, &y);
        assert_eq!(first.is_some(), second.is_some());
        if let (Some(p1), Some(p2)) = (first, second) {
            assert_eq!(p1.z, p2.z);
            assert_eq!(p1.c, p2.c);
            assert_eq!(p1.witness_ciphertext, p2.witness_ciphertext);
            found = Some(p1);
            break;
        }
    }
    let proof = found.expect("an attempt is accepted");
    assert!(verify(&params, &proof, &root, &nullifier, scope).unwrap());
    assert_eq!(proof.z.polys.len(), K);
}

#[test]
fn verify_rejects_undecodable_transcript_and_wrong_nullifier() {
    let (params, kp, root, path) = scenario(27);
    let scope = b"v";
    let nullifier = derive_nullifier(kp.secret_key(), scope);
    let mut rng = StdRng::seed_from_u64(28);
    let proof = prove(&params, &kp, &path, &root, &nullifier, scope, &mut rng).unwrap();
    assert!(verify(&params, &proof, &root, &nullifier, scope).unwrap());
    assert!(!verify(&params, &proof, &root, &[0u8; 32], scope).unwrap());
    let mut short = proof.clone();
    short.w_bytes.pop();
    assert!(!verify(&params, &short, &root, &nullifier, scope).unwrap());
    let mut other_c = proof.clone();
    other_c.c.coeffs[0] = (other_c.c.coeffs[0] + 1) % Q;
    assert!(!verify(&params, &other_c, &root, &nullifier, scope).unwrap());
}

#[test]
fn verify_answers_extreme_response_coefficients_with_false() {
    let (params, kp, root, path) = scenario(31);
    let scope = b"extreme";
    let nullifier = derive_nullifier(kp.secret_key(), scope);
    let mut rng = StdRng::seed_from_u64(32);
    let proof = prove(&params, &kp, &path, &root, &nullifier, scope, &mut rng).unwrap();
    for extreme in [i64::MIN, i64::MAX, -1, Q] {
        let mut forged = proof.clone();
        forged.z.polys[1].coeffs[7] = extreme;
        assert_eq!(verify(&params, &forged, &root, &nullifier, scope), Ok(false));
    }
}

#[test]
fn verify_reads_the_parameter_matrix_modulo_q() {
    let (params, kp, root, path) = scenario(33);
    let scope = b"modq";
    let nullifier = derive_nullifier(kp.secret_key(), scope);
    let mut rng = StdRng::seed_from_u64(34);
    let proof = prove(&params, &kp, &path, &root, &nullifier, scope, &mut rng).unwrap();
    let mut shifted = params.clone();
    shifted.matrix_a.rows[0].polys[1].coeffs[5] += Q;
    shifted.matrix_a.rows[1].polys[0].coeffs[0] -= 2 * Q;
    assert_eq!(verify(&shifted, &proof, &root, &nullifier, scope), Ok(true));
    let mut other = params.clone();
    other.matrix_a.rows[0].polys[0].coeffs[0] = (other.matrix_a.rows[0].polys[0].coeffs[0] + 1) % Q;
    assert_eq!(verify(&other, &proof, &root, &nullifier, scope), Ok(false));
}

#[test]
fn registry_authenticates_only_registered_pairs() {
    let mut rng = StdRng::seed_from_u64(29);
    let params = MlweParams::generate(&mut rng);
    let other = MlweParams::generate(&mut rng);
    let mut registry = RootRegistry::default();
    let root = [5u8; 32];
    assert!(registry.authenticate(&root, &params).is_none());
    let registered = registry.register_trusted_root(root, &params);
    assert_eq!(registered, AuthenticatedRoot::from_trusted_source(root, &params));
    assert_eq!(registry.authenticate(&root, &params), Some(registered.clone()));
    assert!(registry.authenticate(&root, &other).is_none());
    assert!(registry.authenticate(&[6u8; 32], &params).is_none());
    assert_eq!(registered.root(), &root);
    assert_eq!(registered.params_digest(), &params.authentication_digest());
}

#[test]
fn public_inputs_expose_the_authenticated_root() {
    let mut rng = StdRng::seed_from_u64(30);
    let params = MlweParams::generate(&mut rng);
    let root = [8u8; 32];
    let inputs = PublicInputs::new_authenticated(
        AuthenticatedRoot::from_trusted_source(root, &params),
        b"scope".to_vec(),
        [1u8; 32],
    );
    assert_eq!(inputs.merkle_root(), &root);
    assert_eq!(inputs.scope, b"scope".to_vec());
    assert_eq!(inputs.nullifier, [1u8; 32]);
}

#[test]
fn protocol_verifier_rejects_roots_bound_to_other_parameters() {
    let mut rng = StdRng::seed_from_u64(31);
    let params = MlweParams::generate(&mut rng);
    let other = MlweParams::from_seed(&[1u8; 32]);
    let user = KeyPair::generate(&params, &mut rng);
    let mut tree = MerkleTree::new();
    let idx = tree.insert(user.commitment()).unwrap();
    let root = tree.root().unwrap();
    let path = tree.generate_inclusion_proof(idx).unwrap();
    let scope = b"p".to_vec();
    let inputs = PublicInputs::new_authenticated(
        AuthenticatedRoot::from_trusted_source(root, &params),
        scope.clone(),
        user.nullifier(&scope),
    );
    let proof = obscura::protocol::Prover::generate_proof(&params, &user, &path, &inputs, &mut rng).unwrap();
    assert!(Verifier::verify_proof(&params, &proof, &inputs).unwrap());
    assert!(!Verifier::verify_proof(&other, &proof, &inputs).unwrap());
    assert_eq!(user.public_key().polys.len(), K);
}

#[test]
fn zeroize_clears_secret_vectors() {
    let mut rng = StdRng::seed_from_u64(32);
    let mut p = Poly::sample_uniform(&mut rng);
    p.zeroize();
    assert_eq!(p, Poly::default());
    let mut v = PolyVec::sample_cbd(&mut rng);
    v.zeroize();
    assert!(v.polys.is_empty());
}
