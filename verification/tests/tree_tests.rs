use obscura::error::ProtocolError;
use obscura::tree::{hash_leaf, hash_node, MerkleTree};

fn random_leaf(seed: u8) -> [u8; 32] {
    let mut leaf = [0u8; 32];
    for (i, byte) in leaf.iter_mut().enumerate() {
        *byte = seed.wrapping_add(i as u8);
    }
    leaf
}

#[test]
fn test_single_leaf_tree() {
    let mut tree = MerkleTree::new();
    let leaf = random_leaf(1);
    tree.insert(leaf).unwrap();

    let root = tree.root().unwrap();
    assert_ne!(root, [0u8; 32]);

    let proof = tree.generate_inclusion_proof(0).unwrap();
    assert!(MerkleTree::verify_inclusion_proof(&proof));
}

#[test]
fn test_multiple_leaves() {
    let mut tree = MerkleTree::new();
    for i in 0..8 {
        tree.insert(random_leaf(i)).unwrap();
    }

    for i in 0..8 {
        let proof = tree.generate_inclusion_proof(i).unwrap();
        assert!(
            MerkleTree::verify_inclusion_proof(&proof),
            "Proof for leaf {} failed",
            i
        );
    }
}

#[test]
fn test_non_power_of_two_padding() {
    let mut tree = MerkleTree::new();
    for i in 0..5 {
        tree.insert(random_leaf(i + 10)).unwrap();
    }

    let proof = tree.generate_inclusion_proof(4).unwrap();
    assert!(MerkleTree::verify_inclusion_proof(&proof));
}

#[test]
fn test_invalid_proof_detection() {
    let mut tree = MerkleTree::new();
    for i in 0..4 {
        tree.insert(random_leaf(i + 20)).unwrap();
    }

    let mut proof = tree.generate_inclusion_proof(0).unwrap();
    proof.leaf = random_leaf(99);
    assert!(!MerkleTree::verify_inclusion_proof(&proof));
}

#[test]
fn test_malformed_proof_lengths_rejected() {
    let mut tree = MerkleTree::new();
    for i in 0..4 {
        tree.insert(random_leaf(i + 30)).unwrap();
    }

    let mut proof = tree.generate_inclusion_proof(0).unwrap();
    proof.path_indices.pop();

    assert!(!MerkleTree::verify_inclusion_proof(&proof));
}

#[test]
fn test_empty_tree_error() {
    let mut tree = MerkleTree::new();
    assert!(matches!(tree.root(), Err(ProtocolError::EmptyTree)));
}

#[test]
fn test_out_of_bounds_index() {
    let mut tree = MerkleTree::new();
    tree.insert(random_leaf(0)).unwrap();
    assert!(matches!(
        tree.generate_inclusion_proof(5),
        Err(ProtocolError::InvalidLeafIndex { .. })
    ));
}

#[test]
fn test_domain_separation() {
    let data = [42u8; 32];
    let leaf_h = hash_leaf(&data);
    let node_h = hash_node(&data, &data);
    assert_ne!(
        leaf_h, node_h,
        "Leaf and node hashes of same data must differ (domain separation)"
    );
}
