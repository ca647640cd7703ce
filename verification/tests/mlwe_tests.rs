use obscura::mlwe::{commitment_hash, keygen, sample_challenge, MlweParams};
use obscura::poly::{K, Q, TAU};
use rand::rngs::StdRng;
use rand::SeedableRng;

#[test]
fn test_keygen_public_key_structure() {
    let mut rng = StdRng::seed_from_u64(42);
    let params = MlweParams::generate(&mut rng);
    let keypair = keygen(&params, &mut rng);

    assert_eq!(keypair.public_key().polys.len(), K);
    assert_eq!(keypair.secret_key().polys.len(), K);

    for poly in &keypair.secret_key().polys {
        assert!(poly.infinity_norm() <= 2, "Secret key norm too large");
    }
}

#[test]
fn test_commitment_hash_deterministic() {
    let mut rng = StdRng::seed_from_u64(43);
    let params = MlweParams::generate(&mut rng);
    let keypair = keygen(&params, &mut rng);

    let h1 = commitment_hash(keypair.public_key());
    let h2 = commitment_hash(keypair.public_key());
    assert_eq!(h1, h2, "Commitment hash must be deterministic");
}

#[test]
fn test_commitment_hash_different_keys() {
    let mut rng = StdRng::seed_from_u64(44);
    let params = MlweParams::generate(&mut rng);
    let kp1 = keygen(&params, &mut rng);
    let kp2 = keygen(&params, &mut rng);

    let h1 = commitment_hash(kp1.public_key());
    let h2 = commitment_hash(kp2.public_key());
    assert_ne!(h1, h2, "Different keys must produce different hashes");
}

#[test]
fn test_challenge_polynomial_weight() {
    let seed = b"test_challenge_seed_12345";
    let c = sample_challenge(seed);

    let nonzero_count = c.coeffs.iter().filter(|&&x| x != 0).count();
    assert_eq!(
        nonzero_count, TAU,
        "Challenge must have exactly tau = {} non-zero coefficients, got {}",
        TAU, nonzero_count
    );

    for &coeff in &c.coeffs {
        if coeff != 0 {
            assert!(
                coeff == 1 || coeff == Q - 1,
                "Non-zero challenge coefficient must be +-1, got {}",
                coeff
            );
        }
    }
}

#[test]
fn test_challenge_deterministic() {
    let seed = b"deterministic_test_seed";
    let c1 = sample_challenge(seed);
    let c2 = sample_challenge(seed);
    assert_eq!(c1, c2, "Same seed must produce same challenge");
}

#[test]
fn test_challenge_different_seeds() {
    let c1 = sample_challenge(b"seed_A");
    let c2 = sample_challenge(b"seed_B");
    assert_ne!(c1, c2, "Different seeds must produce different challenges");
}

#[test]
fn test_from_seed_is_deterministic() {
    let seed = [7u8; 32];
    let params_a = MlweParams::from_seed(&seed);
    let params_b = MlweParams::from_seed(&seed);

    for (row_a, row_b) in params_a.matrix_a.rows.iter().zip(&params_b.matrix_a.rows) {
        for (poly_a, poly_b) in row_a.polys.iter().zip(&row_b.polys) {
            assert_eq!(poly_a.coeffs, poly_b.coeffs);
        }
    }
}

#[test]
fn test_from_seed_differs_by_seed() {
    let params_a = MlweParams::from_seed(&[1u8; 32]);
    let params_b = MlweParams::from_seed(&[2u8; 32]);

    let differs = params_a
        .matrix_a
        .rows
        .iter()
        .zip(&params_b.matrix_a.rows)
        .any(|(row_a, row_b)| {
            row_a
                .polys
                .iter()
                .zip(&row_b.polys)
                .any(|(poly_a, poly_b)| poly_a.coeffs != poly_b.coeffs)
        });

    assert!(differs, "Different seeds must produce different parameters");
}
