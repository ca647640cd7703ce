use obscura::mlwe::MlweParams;
use obscura::protocol::{AuthenticatedRoot, KeyPair, Prover, PublicInputs, Verifier};
use obscura::tree::MerkleTree;
use rand::rngs::StdRng;
use rand::SeedableRng;

#[test]
fn test_full_lattice_zk_flow() {
    let mut rng = StdRng::seed_from_u64(42);

    let params = MlweParams::generate(&mut rng);

    let mut tree = MerkleTree::new();
    for _ in 0..3 {
        let dummy = KeyPair::generate(&params, &mut rng);
        tree.insert(dummy.commitment()).unwrap();
    }

    let user = KeyPair::generate(&params, &mut rng);
    let user_idx = tree.insert(user.commitment()).unwrap();
    let root = tree.root().unwrap();
    let merkle_proof = tree.generate_inclusion_proof(user_idx).unwrap();

    let scope = b"session_challenge_xyz".to_vec();
    let nullifier = user.nullifier(&scope);
    let authenticated_root = AuthenticatedRoot::from_trusted_source(root, &params);
    let public_inputs = PublicInputs::new_authenticated(authenticated_root, scope.clone(), nullifier);

    let proof = Prover::generate_proof(&params, &user, &merkle_proof, &public_inputs, &mut rng).unwrap();

    let valid = Verifier::verify_proof(&params, &proof, &public_inputs).unwrap();
    assert!(valid, "Valid proof must pass verification");
}

#[test]
fn protocol_test_wrong_scope_rejected() {
    let mut rng = StdRng::seed_from_u64(44);
    let params = MlweParams::generate(&mut rng);

    let mut tree = MerkleTree::new();
    let user = KeyPair::generate(&params, &mut rng);
    tree.insert(user.commitment()).unwrap();
    let root = tree.root().unwrap();
    let merkle_proof = tree.generate_inclusion_proof(0).unwrap();

    let scope = b"correct_scope".to_vec();
    let nullifier = user.nullifier(&scope);
    let authenticated_root = AuthenticatedRoot::from_trusted_source(root, &params);
    let public_inputs = PublicInputs::new_authenticated(authenticated_root, scope, nullifier);

    let proof = Prover::generate_proof(&params, &user, &merkle_proof, &public_inputs, &mut rng).unwrap();

    let authenticated_root = AuthenticatedRoot::from_trusted_source(root, &params);
    let wrong_inputs = PublicInputs::new_authenticated(authenticated_root, b"wrong_scope".to_vec(), nullifier);

    let valid = Verifier::verify_proof(&params, &proof, &wrong_inputs).unwrap();
    assert!(!valid, "Wrong scope must fail verification");
}

#[test]
fn test_unregistered_parameter_root_pair_rejected() {
    let mut rng = StdRng::seed_from_u64(45);
    let params = MlweParams::generate(&mut rng);
    let other_params = MlweParams::generate(&mut rng);

    let mut tree = MerkleTree::new();
    let user = KeyPair::generate(&params, &mut rng);
    let user_idx = tree.insert(user.commitment()).unwrap();
    let root = tree.root().unwrap();
    let merkle_proof = tree.generate_inclusion_proof(user_idx).unwrap();

    let scope = b"parameter_mismatch".to_vec();
    let nullifier = user.nullifier(&scope);
    let public_inputs = PublicInputs::new_authenticated(
        AuthenticatedRoot::from_trusted_source(root, &params),
        scope.clone(),
        nullifier,
    );
    let proof = Prover::generate_proof(&params, &user, &merkle_proof, &public_inputs, &mut rng).unwrap();

    let wrong_inputs = PublicInputs::new_authenticated(
        AuthenticatedRoot::from_trusted_source(root, &other_params),
        scope,
        nullifier,
    );
    let valid = Verifier::verify_proof(&params, &proof, &wrong_inputs).unwrap();
    assert!(!valid, "Parameter/root mismatch must fail verification");
}
