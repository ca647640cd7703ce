use obscura::mlwe::{commitment_hash, keygen, MlweKeyPair, MlweParams};
use obscura::poly::Q;
use obscura::tree::{MerkleProof, MerkleTree};
use obscura::zk_auth::{derive_nullifier, prove, verify};
use rand::rngs::StdRng;
use rand::SeedableRng;

fn setup_test_scenario(seed: u64) -> (MlweParams, MlweKeyPair, MerkleTree, [u8; 32], MerkleProof) {
    let mut rng = StdRng::seed_from_u64(seed);
    let params = MlweParams::generate(&mut rng);

    let mut tree = MerkleTree::new();
    for _ in 0..3 {
        let dummy_kp = keygen(&params, &mut rng);
        let comm = commitment_hash(dummy_kp.public_key());
        tree.insert(comm).unwrap();
    }

    let user_kp = keygen(&params, &mut rng);
    let user_comm = commitment_hash(user_kp.public_key());
    let user_idx = tree.insert(user_comm).unwrap();
    let root = tree.root().unwrap();
    let merkle_proof = tree.generate_inclusion_proof(user_idx).unwrap();

    (params, user_kp, tree, root, merkle_proof)
}

#[test]
fn test_prove_and_verify_roundtrip() {
    let (params, user_kp, _tree, root, merkle_proof) = setup_test_scenario(100);
    let mut rng = StdRng::seed_from_u64(200);
    let scope = b"session_challenge_42";

    let nullifier = derive_nullifier(user_kp.secret_key(), scope);
    let proof = prove(&params, &user_kp, &merkle_proof, &root, &nullifier, scope, &mut rng)
        .expect("Proof generation should succeed");

    let valid = verify(&params, &proof, &root, &nullifier, scope).expect("Verification must run");
    assert!(valid, "Valid proof must pass verification");
}

#[test]
fn zk_auth_test_wrong_scope_rejected() {
    let (params, user_kp, _tree, root, merkle_proof) = setup_test_scenario(101);
    let mut rng = StdRng::seed_from_u64(201);
    let scope = b"correct_scope";

    let nullifier = derive_nullifier(user_kp.secret_key(), scope);
    let proof = prove(&params, &user_kp, &merkle_proof, &root, &nullifier, scope, &mut rng)
        .expect("Proof generation should succeed");

    let valid = verify(&params, &proof, &root, &nullifier, b"wrong_scope").expect("Verification must run");
    assert!(!valid, "Wrong scope must fail verification");
}

#[test]
fn test_wrong_root_rejected() {
    let (params, user_kp, _tree, root, merkle_proof) = setup_test_scenario(102);
    let mut rng = StdRng::seed_from_u64(202);
    let scope = b"test_scope";

    let nullifier = derive_nullifier(user_kp.secret_key(), scope);
    let proof = prove(&params, &user_kp, &merkle_proof, &root, &nullifier, scope, &mut rng)
        .expect("Proof generation should succeed");

    let wrong_root = [0xFFu8; 32];
    let valid = verify(&params, &proof, &wrong_root, &nullifier, scope).expect("Verification must run");
    assert!(!valid, "Wrong root must fail verification");
}

#[test]
fn test_tampered_commitment_rejected() {
    let (params, user_kp, _tree, root, merkle_proof) = setup_test_scenario(103);
    let mut rng = StdRng::seed_from_u64(203);
    let scope = b"test_scope";

    let nullifier = derive_nullifier(user_kp.secret_key(), scope);
    let proof = prove(&params, &user_kp, &merkle_proof, &root, &nullifier, scope, &mut rng)
        .expect("Proof generation should succeed");

    let mut proof = proof;
    proof.commitment_hash[0] ^= 0x01;
    let valid = verify(&params, &proof, &root, &nullifier, scope).expect("Verification must run");
    assert!(!valid, "Tampered commitment must fail verification");
}

#[test]
fn test_nullifier_determinism() {
    let mut rng = StdRng::seed_from_u64(104);
    let params = MlweParams::generate(&mut rng);
    let kp = keygen(&params, &mut rng);
    let scope = b"determinism_test";

    let n1 = derive_nullifier(kp.secret_key(), scope);
    let n2 = derive_nullifier(kp.secret_key(), scope);
    assert_eq!(n1, n2, "Same key + scope must produce same nullifier");
}

#[test]
fn test_nullifier_uniqueness() {
    let mut rng = StdRng::seed_from_u64(105);
    let params = MlweParams::generate(&mut rng);
    let kp = keygen(&params, &mut rng);

    let n1 = derive_nullifier(kp.secret_key(), b"scope_A");
    let n2 = derive_nullifier(kp.secret_key(), b"scope_B");
    assert_ne!(n1, n2, "Different scopes must produce different nullifiers");
}

#[test]
fn test_tampered_z_rejected() {
    let (params, user_kp, _tree, root, merkle_proof) = setup_test_scenario(106);
    let mut rng = StdRng::seed_from_u64(206);
    let scope = b"tamper_test";

    let nullifier = derive_nullifier(user_kp.secret_key(), scope);
    let mut proof = prove(&params, &user_kp, &merkle_proof, &root, &nullifier, scope, &mut rng)
        .expect("Proof generation should succeed");

    proof.z.polys[0].coeffs[0] = (proof.z.polys[0].coeffs[0] + 1) % Q;

    let valid = verify(&params, &proof, &root, &nullifier, scope).expect("Verification must run");
    assert!(!valid, "Tampered z must fail verification");
}

#[test]
fn test_verify_rejects_tampered_witness_ciphertext() {
    let (params, user_kp, _tree, root, merkle_proof) = setup_test_scenario(107);
    let mut rng = StdRng::seed_from_u64(207);
    let scope = b"tampered_witness";

    let nullifier = derive_nullifier(user_kp.secret_key(), scope);
    let mut proof = prove(&params, &user_kp, &merkle_proof, &root, &nullifier, scope, &mut rng)
        .expect("Proof generation should succeed");

    proof.witness_ciphertext[0] ^= 0x01;

    let valid = verify(&params, &proof, &root, &nullifier, scope).expect("Verification must run");
    assert!(!valid, "Tampered encrypted witness must be rejected");
}

#[test]
fn test_verify_rejects_wrong_z_len() {
    let (params, user_kp, _tree, root, merkle_proof) = setup_test_scenario(108);
    let mut rng = StdRng::seed_from_u64(208);
    let scope = b"wrong_z_len";

    let nullifier = derive_nullifier(user_kp.secret_key(), scope);
    let mut proof = prove(&params, &user_kp, &merkle_proof, &root, &nullifier, scope, &mut rng)
        .expect("Proof generation should succeed");

    proof.z.polys.truncate(0);

    let valid = verify(&params, &proof, &root, &nullifier, scope).expect("Verification must run");
    assert!(!valid, "Malformed response length must be rejected");
}
