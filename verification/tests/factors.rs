use modpoly::poly::{FactorError, Polynomial};
use num_bigint::BigInt;

fn poly(coeffs: &[i64]) -> Polynomial {
    Polynomial::new(coeffs.iter().map(|&c| BigInt::from(c)).collect())
}

fn bigs(coeffs: &[i64]) -> Vec<BigInt> {
    coeffs.iter().map(|&c| BigInt::from(c)).collect()
}

#[test]
fn evaluate_sample_cubic() {
    // P = x^3 + 8x + 8, p = 17: P(2) = 32 mod 17 = 15.
    let p = poly(&[8, 8, 0, 1]);
    let v = p.evaluate(&BigInt::from(2), &BigInt::from(17)).unwrap();
    assert_eq!(v, BigInt::from(15));
}

#[test]
fn evaluate_result_in_range() {
    let p = poly(&[-7, 3, -2, 11]);
    let m = BigInt::from(13);
    for x in -30i64..30 {
        let v = p.evaluate(&BigInt::from(x), &m).unwrap();
        assert!(v >= BigInt::from(0) && v < m);
    }
}

#[test]
fn evaluate_normalizes_negative_values() {
    // A truncating remainder would give -1 here; floor modulo gives 4.
    let p = poly(&[-1]);
    let v = p.evaluate(&BigInt::from(0), &BigInt::from(5)).unwrap();
    assert_eq!(v, BigInt::from(4));
}

#[test]
fn evaluate_rejects_zero_modulus() {
    let p = poly(&[1, 2, 3]);
    let r = p.evaluate(&BigInt::from(2), &BigInt::from(0));
    assert!(matches!(r, Err(FactorError::DomainError)));
}

#[test]
fn evaluate_rejects_negative_modulus() {
    let p = poly(&[1, 2, 3]);
    let r = p.evaluate(&BigInt::from(2), &BigInt::from(-5));
    assert!(matches!(r, Err(FactorError::DomainError)));
}

#[test]
fn find_factors_sample_cubic() {
    // P = x^3 + 8x + 8 mod 17 has roots 1, 6, 10, in that order.
    let p = poly(&[8, 8, 0, 1]);
    let m = BigInt::from(17);
    let factors = p.find_linear_factors(&m).unwrap();
    assert_eq!(factors.len(), 3);
    assert_eq!(factors[0].coeffs, bigs(&[16, 1]));
    assert_eq!(factors[1].coeffs, bigs(&[11, 1]));
    assert_eq!(factors[2].coeffs, bigs(&[7, 1]));
    // Each returned root re-evaluates to zero.
    for (factor, root) in factors.iter().zip([1i64, 6, 10]) {
        assert_eq!(factor.coeffs[1], BigInt::from(1));
        let v = p.evaluate(&BigInt::from(root), &m).unwrap();
        assert_eq!(v, BigInt::from(0));
    }
}

#[test]
fn find_factors_is_exhaustive() {
    // Every r in [0, 17) with P(r) = 0 mod 17 appears, and no other.
    let p = poly(&[8, 8, 0, 1]);
    let m = BigInt::from(17);
    let factors = p.find_linear_factors(&m).unwrap();
    let roots: Vec<BigInt> = factors
        .iter()
        .map(|f| (BigInt::from(17) - &f.coeffs[0]) % &m)
        .collect();
    for r in 0i64..17 {
        let is_root = p.evaluate(&BigInt::from(r), &m).unwrap() == BigInt::from(0);
        let listed = roots.iter().filter(|&x| *x == BigInt::from(r)).count();
        assert_eq!(listed, if is_root { 1 } else { 0 });
    }
}

#[test]
fn find_factor_of_x() {
    // P = x mod 5: only root 0, factor [0, 1]; P / (x - 0) = [1].
    let p = poly(&[0, 1]);
    let m = BigInt::from(5);
    let factors = p.find_linear_factors(&m).unwrap();
    assert_eq!(factors.len(), 1);
    assert_eq!(factors[0].coeffs, bigs(&[0, 1]));
    let q = p.divide_by_linear_factor(&factors[0], &m).unwrap();
    assert_eq!(q.coeffs, bigs(&[1]));
}

#[test]
fn constant_has_no_factors() {
    let p = poly(&[1]);
    let factors = p.find_linear_factors(&BigInt::from(7)).unwrap();
    assert!(factors.is_empty());
}

#[test]
fn modulus_one_boundary() {
    // Modulo 1 every value is 0, so r = 0 is reported as a root.
    let p = poly(&[8, 8, 0, 1]);
    let m = BigInt::from(1);
    assert_eq!(p.evaluate(&BigInt::from(3), &m).unwrap(), BigInt::from(0));
    let factors = p.find_linear_factors(&m).unwrap();
    assert_eq!(factors.len(), 1);
    assert_eq!(factors[0].coeffs, bigs(&[0, 1]));
}

#[test]
fn find_factors_rejects_zero_modulus() {
    let p = poly(&[0, 1]);
    let r = p.find_linear_factors(&BigInt::from(0));
    assert!(matches!(r, Err(FactorError::DomainError)));
}

#[test]
fn find_factors_rejects_huge_modulus() {
    let p = poly(&[0, 1]);
    let m = BigInt::from(1u64 << 40);
    let r = p.find_linear_factors(&m);
    assert!(matches!(r, Err(FactorError::RangeError)));
}

#[test]
fn find_factors_accepts_negative_coefficients() {
    // P = x - 1 mod 5: root 1, stored factor constant is (-1) mod 5 = 4.
    let p = poly(&[-1, 1]);
    let factors = p.find_linear_factors(&BigInt::from(5)).unwrap();
    assert_eq!(factors.len(), 1);
    assert_eq!(factors[0].coeffs, bigs(&[4, 1]));
}

#[test]
fn divide_sample_cubic() {
    // (x^3 + 8x + 8) / (x - 1) mod 17 = x^2 + x + 9: one coefficient fewer.
    let p = poly(&[8, 8, 0, 1]);
    let f = poly(&[16, 1]);
    let q = p.divide_by_linear_factor(&f, &BigInt::from(17)).unwrap();
    assert_eq!(q.coeffs, bigs(&[9, 1, 1]));
}

#[test]
fn divide_reconstructs_product() {
    // For the genuine root 1: Q(x) * (x - 1) = P(x) mod 17 at every x.
    let p = poly(&[8, 8, 0, 1]);
    let f = poly(&[16, 1]);
    let m = BigInt::from(17);
    let q = p.divide_by_linear_factor(&f, &m).unwrap();
    for x in 0i64..17 {
        let qv = q.evaluate(&BigInt::from(x), &m).unwrap();
        let pv = p.evaluate(&BigInt::from(x), &m).unwrap();
        let product = (qv * (BigInt::from(x) - BigInt::from(1))) % &m;
        let product = (product + &m) % &m;
        assert_eq!(product, pv);
    }
}

#[test]
fn divide_unreduced_factor_constant() {
    // The root is recovered by negation, whatever range c0 was stored in:
    // [-1, 1] stands for root 1, like [16, 1] does mod 17.
    let p = poly(&[8, 8, 0, 1]);
    let f = poly(&[-1, 1]);
    let q = p.divide_by_linear_factor(&f, &BigInt::from(17)).unwrap();
    assert_eq!(q.coeffs, bigs(&[9, 1, 1]));
}

#[test]
fn divide_strips_leading_zeros() {
    // P = 17x^2 mod 17 is the zero polynomial: dividing by (x - 0)
    // leaves a quotient whose coefficients all vanish, stripped to [0].
    let p = poly(&[0, 0, 17]);
    let f = poly(&[0, 1]);
    let q = p.divide_by_linear_factor(&f, &BigInt::from(17)).unwrap();
    assert_eq!(q.coeffs, bigs(&[0]));
}

#[test]
fn divide_constant_polynomial() {
    let p = poly(&[3]);
    let f = poly(&[0, 1]);
    let q = p.divide_by_linear_factor(&f, &BigInt::from(5)).unwrap();
    assert_eq!(q.coeffs, bigs(&[0]));
}

#[test]
fn divide_rejects_nonmonic_factor() {
    let p = poly(&[8, 8, 0, 1]);
    let f = poly(&[1, 2]);
    let r = p.divide_by_linear_factor(&f, &BigInt::from(17));
    assert!(matches!(r, Err(FactorError::PreconditionViolation)));
}

#[test]
fn divide_rejects_wrong_degree_factor() {
    let p = poly(&[8, 8, 0, 1]);
    let m = BigInt::from(17);
    let r = p.divide_by_linear_factor(&poly(&[5]), &m);
    assert!(matches!(r, Err(FactorError::PreconditionViolation)));
    let r = p.divide_by_linear_factor(&poly(&[0, 1, 1]), &m);
    assert!(matches!(r, Err(FactorError::PreconditionViolation)));
}

#[test]
fn divide_rejects_zero_modulus() {
    let p = poly(&[8, 8, 0, 1]);
    let f = poly(&[16, 1]);
    let r = p.divide_by_linear_factor(&f, &BigInt::from(0));
    assert!(matches!(r, Err(FactorError::DomainError)));
}
