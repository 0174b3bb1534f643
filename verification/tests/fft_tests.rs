use num_bigint::BigUint;
use r1cs_qap::bignat::BigNat;
use r1cs_qap::fft::{bit_inv, fft, ifft};
use r1cs_qap::gf;

fn to_big(x: &BigNat) -> BigUint {
    BigUint::from_slice(x.digits())
}

fn modulus() -> BigUint {
    BigUint::parse_bytes(
        b"21888242871839275222246405745257275088548364400416034343698204186575808495617",
        10,
    )
    .unwrap()
}

fn nats(v: &[u64]) -> Vec<BigNat> {
    v.iter().map(|x| BigNat::from_u64(*x)).collect()
}

fn bigs(v: &Vec<BigNat>) -> Vec<BigUint> {
    v.iter().map(to_big).collect()
}

/// The polynomial with coefficients `c` at `x`, modulo the field's modulus.
fn eval(c: &[u64], x: &BigUint) -> BigUint {
    let q = modulus();
    let mut acc = BigUint::from(0u64);
    for coef in c.iter().rev() {
        acc = (acc * x + BigUint::from(*coef)) % &q;
    }
    acc
}

#[test]
fn bit_inv_examples() {
    assert_eq!(bit_inv(1, 3), 4);
    assert_eq!(bit_inv(6, 3), 3);
    assert_eq!(bit_inv(0, 5), 0);
    assert_eq!(bit_inv(1, 1), 1);
    assert_eq!(bit_inv(0b1011, 4), 0b1101);
    // only the low bits count
    assert_eq!(bit_inv(0b10110, 2), 0b01);
}

#[test]
fn bit_inv_is_an_involution() {
    for k in 1..8usize {
        for x in 0..(1usize << k) {
            assert_eq!(bit_inv(bit_inv(x, k), k), x);
        }
    }
}

#[test]
fn fft_of_length_one_is_identity() {
    let r = fft(&nats(&[42]));
    assert_eq!(bigs(&r), vec![BigUint::from(42u64)]);
}

#[test]
fn fft_of_length_two() {
    // values at 1 and -1
    let r = fft(&nats(&[3, 5]));
    assert_eq!(bigs(&r), vec![BigUint::from(8u64), modulus() - 2u64]);
}

#[test]
fn fft_evaluates_at_powers_of_the_root() {
    let c = [1u64, 2, 3, 4, 5, 6, 7, 8];
    let r = fft(&nats(&c));
    let w = to_big(&gf::w(8));
    let q = modulus();
    for j in 0..8u32 {
        let x = w.modpow(&BigUint::from(j), &q);
        assert_eq!(to_big(&r[j as usize]), eval(&c, &x));
    }
}

#[test]
fn ifft_undoes_fft() {
    let c = nats(&[9, 0, 17, 4]);
    let back = ifft(&fft(&c));
    assert_eq!(bigs(&back), bigs(&c));
}

#[test]
fn fft_undoes_ifft() {
    let v = nats(&[5, 6, 7, 8, 1, 2, 3, 4]);
    let there = fft(&ifft(&v));
    assert_eq!(bigs(&there), bigs(&v));
}

#[test]
fn ifft_interpolates() {
    // the polynomial through 3 at 1 and 15 at -1 is 9 - 6x
    let r = ifft(&nats(&[3, 15]));
    assert_eq!(bigs(&r), vec![BigUint::from(9u64), modulus() - 6u64]);
}
