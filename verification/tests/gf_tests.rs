use num_bigint::BigUint;
use r1cs_qap::bignat::BigNat;
use r1cs_qap::gf;

fn to_big(x: &BigNat) -> BigUint {
    BigUint::from_slice(x.digits())
}

fn from_big(x: &BigUint) -> BigNat {
    BigNat::from_bytes_le(&x.to_bytes_le())
}

fn modulus() -> BigUint {
    BigUint::parse_bytes(
        b"21888242871839275222246405745257275088548364400416034343698204186575808495617",
        10,
    )
    .unwrap()
}

fn n(x: u64) -> BigNat {
    BigNat::from_u64(x)
}

#[test]
fn q_is_the_bn254_scalar_modulus() {
    assert_eq!(to_big(&gf::q()), modulus());
}

#[test]
fn add_reduces_the_sum() {
    assert_eq!(to_big(&gf::add(&n(2), &n(3))), BigUint::from(5u64));
    let qm1 = from_big(&(modulus() - 1u64));
    assert_eq!(to_big(&gf::add(&qm1, &n(3))), BigUint::from(2u64));
}

#[test]
fn sub_without_and_with_wrap() {
    assert_eq!(to_big(&gf::sub(&n(10), &n(3))), BigUint::from(7u64));
    assert_eq!(to_big(&gf::sub(&n(3), &n(10))), modulus() - 7u64);
}

#[test]
fn opo_is_modulus_minus_value() {
    assert_eq!(to_big(&gf::opo(&n(6))), modulus() - 6u64);
    assert_eq!(to_big(&gf::opo(&n(0))), modulus());
}

#[test]
fn opo_negates() {
    let a = n(123456789);
    assert!(gf::add(&a, &gf::opo(&a)).is_zero());
}

#[test]
fn mul_reduces_the_product() {
    assert_eq!(to_big(&gf::mul(&n(6), &n(7))), BigUint::from(42u64));
    let qm1 = from_big(&(modulus() - 1u64));
    // (-1) * (-1) == 1
    assert_eq!(to_big(&gf::mul(&qm1, &qm1)), BigUint::from(1u64));
}

#[test]
fn inv_of_two() {
    let i = gf::inv(&n(2));
    assert_eq!(to_big(&i), (modulus() + 1u64) / 2u64);
    assert_eq!(to_big(&gf::mul(&i, &n(2))), BigUint::from(1u64));
}

#[test]
fn div_exact_and_inexact() {
    assert_eq!(to_big(&gf::div(&n(42), &n(6))), BigUint::from(7u64));
    // 1 / 3 times 3 is 1
    let third = gf::div(&n(1), &n(3));
    assert_eq!(to_big(&gf::mul(&third, &n(3))), BigUint::from(1u64));
}

#[test]
fn div_undoes_mul() {
    let a = n(987654321);
    let b = n(1234567);
    let prod = gf::mul(&a, &b);
    assert_eq!(to_big(&gf::div(&prod, &b)), to_big(&a));
}

#[test]
fn sub_undoes_add_and_back() {
    let a = from_big(&(modulus() - 5u64));
    let b = n(11);
    let s = gf::add(&a, &b);
    assert_eq!(to_big(&s), BigUint::from(6u64));
    assert_eq!(to_big(&gf::sub(&s, &b)), to_big(&a));
    let d = gf::sub(&n(4), &b);
    assert_eq!(to_big(&gf::add(&d, &b)), BigUint::from(4u64));
}

#[test]
fn pow_small_and_reduced() {
    assert_eq!(to_big(&gf::pow(&n(3), &n(4))), BigUint::from(81u64));
    assert_eq!(to_big(&gf::pow(&n(7), &n(0))), BigUint::from(1u64));
    // Fermat: a^(q-1) == 1
    let e = from_big(&(modulus() - 1u64));
    assert_eq!(to_big(&gf::pow(&n(5), &e)), BigUint::from(1u64));
}

#[test]
fn w_roots_of_unity() {
    assert_eq!(to_big(&gf::w(1)), BigUint::from(1u64));
    assert_eq!(to_big(&gf::w(2)), modulus() - 1u64);
    let w4 = gf::w(4);
    let sq = gf::mul(&w4, &w4);
    assert_eq!(to_big(&sq), modulus() - 1u64);
    let w8 = gf::w(8);
    assert_eq!(to_big(&gf::pow(&w8, &n(8))), BigUint::from(1u64));
    assert_eq!(to_big(&gf::pow(&w8, &n(4))), modulus() - 1u64);
}

#[test]
fn bignat_basics() {
    assert!(BigNat::zero().is_zero());
    assert!(!BigNat::one().is_zero());
    assert!(BigNat::one().equals(&n(1)));
    assert!(!n(5).equals(&n(6)));
    let big = n(u64::MAX);
    assert_eq!(to_big(&big), BigUint::from(u64::MAX));
    assert!(big.dup().equals(&big));
    let le = BigNat::from_bytes_le(&[1, 2, 3]);
    assert_eq!(to_big(&le), BigUint::from(0x030201u64));
}
