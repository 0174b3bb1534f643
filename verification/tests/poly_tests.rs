use num_bigint::BigUint;
use r1cs_qap::bignat::BigNat;
use r1cs_qap::poly::Poly;

fn to_big(x: &BigNat) -> BigUint {
    BigUint::from_slice(x.digits())
}

fn modulus() -> BigUint {
    BigUint::parse_bytes(
        b"21888242871839275222246405745257275088548364400416034343698204186575808495617",
        10,
    )
    .unwrap()
}

fn poly(v: &[u64]) -> Poly {
    Poly { data: v.iter().map(|x| BigNat::from_u64(*x)).collect() }
}

fn coeffs(p: &Poly) -> Vec<BigUint> {
    p.data.iter().map(to_big).collect()
}

fn small(v: &[u64]) -> Vec<BigUint> {
    v.iter().map(|x| BigUint::from(*x)).collect()
}

#[test]
fn zero_and_one() {
    assert_eq!(Poly::zero().data.len(), 0);
    assert_eq!(coeffs(&Poly::one()), small(&[1]));
}

#[test]
fn get_inside_and_beyond() {
    let p = poly(&[4, 5, 6]);
    assert_eq!(to_big(&p.get(1)), BigUint::from(5u64));
    assert!(p.get(3).is_zero());
    assert!(p.get(100).is_zero());
}

#[test]
fn set_extends_with_zeros() {
    let mut p = poly(&[1]);
    p.set(3, BigNat::from_u64(7));
    assert_eq!(coeffs(&p), small(&[1, 0, 0, 7]));
    p.set(0, BigNat::from_u64(9));
    assert_eq!(coeffs(&p), small(&[9, 0, 0, 7]));
}

#[test]
fn get_after_set() {
    let mut p = poly(&[1, 2, 3]);
    p.set(5, BigNat::from_u64(11));
    assert_eq!(to_big(&p.get(5)), BigUint::from(11u64));
    assert_eq!(to_big(&p.get(2)), BigUint::from(3u64));
    assert!(p.get(4).is_zero());
}

#[test]
fn sub_of_longer_and_shorter() {
    let a = poly(&[10, 20, 30]);
    let b = poly(&[3, 25]);
    assert_eq!(coeffs(&a.sub(&b)), vec![BigUint::from(7u64), modulus() - 5u64, BigUint::from(30u64)]);
    let c = poly(&[1]);
    let d = poly(&[0, 2]);
    assert_eq!(coeffs(&c.sub(&d)), vec![BigUint::from(1u64), modulus() - 2u64]);
}

#[test]
fn mul_schoolbook() {
    // (1 + 2x)(3 + x) = 3 + 7x + 2x^2
    let p = poly(&[1, 2]).mul(&poly(&[3, 1]));
    assert_eq!(coeffs(&p), small(&[3, 7, 2]));
}

#[test]
fn mul_by_empty_is_empty() {
    assert_eq!(poly(&[1, 2]).mul(&Poly::zero()).data.len(), 0);
}

#[test]
fn mul_reduces() {
    let qm1 = BigNat::from_bytes_le(&(modulus() - 1u64).to_bytes_le());
    let a = Poly { data: vec![qm1] };
    let p = a.mul(&poly(&[2, 3]));
    assert_eq!(coeffs(&p), vec![modulus() - 2u64, modulus() - 3u64]);
}

#[test]
fn mul_fast_pads_the_product() {
    // lengths 2 + 2: transform length 4, product of length 3 padded to 4
    let p = poly(&[1, 2]).mul_fast(poly(&[3, 1]));
    assert_eq!(coeffs(&p), small(&[3, 7, 2, 0]));
}

#[test]
fn mul_fast_agrees_with_mul() {
    let a = [5u64, 0, 7, 1, 9];
    let b = [2u64, 8, 3];
    let slow = poly(&a).mul(&poly(&b));
    let fast = poly(&a).mul_fast(poly(&b));
    assert_eq!(fast.data.len(), 8);
    let mut expected = coeffs(&slow);
    expected.resize(8, BigUint::from(0u64));
    assert_eq!(coeffs(&fast), expected);
}

/// The polynomial's value at `x`, modulo the field's modulus.
fn eval(p: &Poly, x: &BigUint) -> BigUint {
    let q = modulus();
    let mut acc = BigUint::from(0u64);
    for c in p.data.iter().rev() {
        acc = (acc * x + to_big(c)) % &q;
    }
    acc
}

#[test]
fn mul_evaluates_to_the_product() {
    let a = poly(&[3, 0, 8, 1]);
    let b = poly(&[6, 2]);
    let x = BigUint::from(12345u64);
    assert_eq!(eval(&a.mul(&b), &x), eval(&a, &x) * eval(&b, &x) % modulus());
}

#[test]
fn sub_evaluates_to_the_difference() {
    let a = poly(&[3, 9]);
    let b = poly(&[5, 4, 7]);
    let x = BigUint::from(777u64);
    let q = modulus();
    let expected = (eval(&a, &x) + &q - eval(&b, &x)) % &q;
    assert_eq!(eval(&a.sub(&b), &x), expected);
}

#[test]
fn mul_is_commutative() {
    let a = poly(&[4, 0, 9]);
    let b = poly(&[1, 2, 3, 5]);
    assert_eq!(coeffs(&a.mul(&b)), coeffs(&b.mul(&a)));
}

#[test]
fn one_is_the_unit_and_zero_gives_zero() {
    let a = poly(&[7, 0, 3]);
    assert_eq!(coeffs(&a.mul(&Poly::one())), small(&[7, 0, 3]));
    assert_eq!(coeffs(&Poly::one().mul(&a)), small(&[7, 0, 3]));
    assert_eq!(a.mul(&Poly::zero()).data.len(), 0);
    assert_eq!(Poly::zero().mul(&a).data.len(), 0);
}

#[test]
fn mul_fast_agrees_with_mul_on_unreduced_coefficients() {
    // coefficients at and above the modulus
    let q = modulus();
    let big = |x: BigUint| BigNat::from_bytes_le(&x.to_bytes_le());
    let a = Poly { data: vec![big(&q + 3u64), big(BigUint::from(2u64)), big(&q * 2u64 + 1u64)] };
    let b = Poly { data: vec![big(&q + 1u64), big(q.clone())] };
    let slow = a.mul(&b);
    let fast = a.clone().mul_fast(b.clone());
    let mut expected = coeffs(&slow);
    expected.resize(8, BigUint::from(0u64));
    assert_eq!(coeffs(&fast), expected);
}
