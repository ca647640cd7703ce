use obscura::poly::{Poly, PolyMat, PolyVec, ETA, K, Q, Q_HALF};
use rand::rngs::StdRng;
use rand::SeedableRng;

#[test]
fn test_poly_add_sub_identity() {
    let mut rng = StdRng::seed_from_u64(42);
    let a = Poly::sample_uniform(&mut rng);
    let b = Poly::sample_uniform(&mut rng);
    let sum = a.add(&b);
    let recovered = sum.sub(&b);
    assert_eq!(a, recovered);
}

#[test]
fn test_poly_mul_commutativity() {
    let mut rng = StdRng::seed_from_u64(43);
    let a = Poly::sample_uniform(&mut rng);
    let b = Poly::sample_uniform(&mut rng);
    assert_eq!(a.mul(&b), b.mul(&a));
}

#[test]
fn test_poly_mul_by_zero() {
    let mut rng = StdRng::seed_from_u64(44);
    let a = Poly::sample_uniform(&mut rng);
    let zero = Poly::zero();
    assert_eq!(a.mul(&zero), zero);
}

#[test]
fn test_poly_mul_by_one() {
    let mut rng = StdRng::seed_from_u64(45);
    let a = Poly::sample_uniform(&mut rng);
    let mut one = Poly::zero();
    one.coeffs[0] = 1;
    assert_eq!(a.mul(&one), a);
}

#[test]
fn test_cbd_range() {
    let mut rng = StdRng::seed_from_u64(46);
    let p = Poly::sample_cbd(&mut rng);
    for &c in &p.coeffs {
        let centered = if c > Q_HALF { c - Q } else { c };
        assert!(
            centered.abs() <= ETA,
            "CBD coefficient {} out of range [-{}, {}]",
            centered,
            ETA,
            ETA
        );
    }
}

#[test]
fn test_poly_serialization_roundtrip() {
    let mut rng = StdRng::seed_from_u64(47);
    let p = Poly::sample_uniform(&mut rng);
    let bytes = p.to_bytes();
    let recovered = Poly::from_bytes(&bytes).unwrap();
    assert_eq!(p, recovered);
}

#[test]
fn test_polyvec_serialization_roundtrip() {
    let mut rng = StdRng::seed_from_u64(48);
    let v = PolyVec::sample_uniform(&mut rng);
    let bytes = v.to_bytes();
    let recovered = PolyVec::from_bytes(&bytes).unwrap();
    assert_eq!(v, recovered);
}

#[test]
fn test_matrix_vec_mul_dimensions() {
    let mut rng = StdRng::seed_from_u64(49);
    let a = PolyMat::sample_uniform(&mut rng);
    let v = PolyVec::sample_uniform(&mut rng);
    let result = a.mul_vec(&v);
    assert_eq!(result.polys.len(), K);
}

#[test]
fn test_infinity_norm() {
    let mut p = Poly::zero();
    p.coeffs[0] = 100;
    p.coeffs[1] = Q - 50;
    assert_eq!(p.infinity_norm(), 100);

    let mut p2 = Poly::zero();
    p2.coeffs[0] = Q - 200;
    assert_eq!(p2.infinity_norm(), 200);
}

#[test]
fn test_negacyclic_reduction() {
    let mut a = Poly::zero();
    a.coeffs[128] = 1;
    let result = a.mul(&a);
    let mut expected = Poly::zero();
    expected.coeffs[0] = Q - 1;
    assert_eq!(result, expected);
}
