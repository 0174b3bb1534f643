use num_bigint::BigUint;
use r1cs_qap::bignat::BigNat;
use r1cs_qap::file_helpers::ReadError;
use r1cs_qap::poly::QuotientError;
use r1cs_qap::r1cs::{VerifyError, R1CS};
use r1cs_qap::witness::Witness;

fn to_big(x: &BigNat) -> BigUint {
    BigUint::from_slice(x.digits())
}

fn modulus() -> BigUint {
    BigUint::parse_bytes(
        b"21888242871839275222246405745257275088548364400416034343698204186575808495617",
        10,
    )
    .unwrap()
}

fn field_bytes(x: &BigUint) -> Vec<u8> {
    let mut b = x.to_bytes_le();
    b.resize(32, 0);
    b
}

fn sectioned(magic: &[u8], version: u32, sections: &[(u32, Vec<u8>)]) -> Vec<u8> {
    let mut out = magic.to_vec();
    out.extend_from_slice(&version.to_le_bytes());
    out.extend_from_slice(&(sections.len() as u32).to_le_bytes());
    for (t, body) in sections {
        out.extend_from_slice(&t.to_le_bytes());
        out.extend_from_slice(&(body.len() as u64).to_le_bytes());
        out.extend_from_slice(body);
    }
    out
}

fn header_section(prime: &BigUint, n_wires: u32, pub_out: u32, pub_in: u32, prv_in: u32, n_constraints: u32) -> Vec<u8> {
    let mut h = 32u32.to_le_bytes().to_vec();
    h.extend_from_slice(&field_bytes(prime));
    for x in [n_wires, pub_out, pub_in, prv_in] {
        h.extend_from_slice(&x.to_le_bytes());
    }
    h.extend_from_slice(&7u64.to_le_bytes());
    h.extend_from_slice(&n_constraints.to_le_bytes());
    h
}

/// A linear combination: (wire, coefficient) pairs.
type Lc = Vec<(u32, u64)>;

fn constraints_section(cs: &[(Lc, Lc, Lc)]) -> Vec<u8> {
    let mut out = Vec::new();
    for (a, b, c) in cs {
        for lc in [a, b, c] {
            out.extend_from_slice(&(lc.len() as u32).to_le_bytes());
            for (w, v) in lc {
                out.extend_from_slice(&w.to_le_bytes());
                out.extend_from_slice(&field_bytes(&BigUint::from(*v)));
            }
        }
    }
    out
}

/// w1 * w2 = w3 and w3 * w1 = w4, over five wires (w0 is the constant 1).
fn two_constraints() -> Vec<u8> {
    let cs = vec![
        (vec![(1, 1)], vec![(2, 1)], vec![(3, 1)]),
        (vec![(3, 1)], vec![(1, 1)], vec![(4, 1)]),
    ];
    sectioned(b"r1cs", 1, &[(1, header_section(&modulus(), 5, 1, 1, 2, 2)), (2, constraints_section(&cs))])
}

fn witness_file(values: &[u64]) -> Vec<u8> {
    let mut h = 32u32.to_le_bytes().to_vec();
    h.extend_from_slice(&field_bytes(&modulus()));
    h.extend_from_slice(&(values.len() as u32).to_le_bytes());
    let mut body = Vec::new();
    for v in values {
        body.extend_from_slice(&field_bytes(&BigUint::from(*v)));
    }
    sectioned(b"wtns", 2, &[(1, h), (2, body)])
}

#[test]
fn read_header_fields() {
    let r = R1CS::read(two_constraints()).unwrap();
    let h = r.header();
    assert_eq!(h.field_size, 32);
    assert_eq!(h.n_wires, 5);
    assert_eq!(h.n_pub_out, 1);
    assert_eq!(h.n_pub_in, 1);
    assert_eq!(h.n_prv_in, 2);
    assert_eq!(h.n_labels, 7);
    assert_eq!(h.n_contraints, 2);
}

#[test]
fn read_refuses_wrong_magic() {
    let mut bytes = two_constraints();
    bytes[0] = b'x';
    assert_eq!(R1CS::read(bytes).err(), Some(ReadError::WrongMagic));
}

#[test]
fn read_refuses_other_versions() {
    let mut bytes = two_constraints();
    bytes[4] = 2;
    assert_eq!(R1CS::read(bytes).err(), Some(ReadError::UnsupportedVersion));
}

#[test]
fn read_refuses_another_field() {
    let other = modulus() - 2u64;
    let bytes = sectioned(b"r1cs", 1, &[(1, header_section(&other, 5, 1, 1, 2, 0)), (2, vec![])]);
    assert_eq!(R1CS::read(bytes).err(), Some(ReadError::UnsupportedCurve));
}

#[test]
fn read_refuses_too_few_wires() {
    let bytes = sectioned(b"r1cs", 1, &[(1, header_section(&modulus(), 3, 1, 1, 2, 0)), (2, vec![])]);
    assert_eq!(R1CS::read(bytes).err(), Some(ReadError::TooFewWires));
}

#[test]
fn read_refuses_a_wire_out_of_range() {
    let cs = vec![(vec![(5, 1)], vec![(2, 1)], vec![(3, 1)])];
    let bytes = sectioned(b"r1cs", 1, &[(1, header_section(&modulus(), 5, 1, 1, 2, 1)), (2, constraints_section(&cs))]);
    assert_eq!(R1CS::read(bytes).err(), Some(ReadError::IndexOutOfRange));
}

#[test]
fn read_refuses_a_truncated_file() {
    let mut bytes = two_constraints();
    bytes.truncate(bytes.len() - 3);
    assert_eq!(R1CS::read(bytes).err(), Some(ReadError::UnexpectedEnd));
}

#[test]
fn witness_read() {
    let w = Witness::read(witness_file(&[1, 3, 5, 15, 45])).unwrap();
    assert_eq!(w.num_values(), 5);
    assert_eq!(w.field_size(), 32);
    let vals: Vec<BigUint> = w.values().iter().map(to_big).collect();
    assert_eq!(vals, [1u64, 3, 5, 15, 45].iter().map(|x| BigUint::from(*x)).collect::<Vec<_>>());
}

#[test]
fn witness_read_errors() {
    let mut bad = witness_file(&[1]);
    bad[1] = b'x';
    assert_eq!(Witness::read(bad).err(), Some(ReadError::WrongMagic));
    let mut v1 = witness_file(&[1]);
    v1[4] = 1;
    assert_eq!(Witness::read(v1).err(), Some(ReadError::UnsupportedVersion));
    let mut short = witness_file(&[1, 2]);
    short.truncate(short.len() - 1);
    assert_eq!(Witness::read(short).err(), Some(ReadError::UnexpectedEnd));
}

#[test]
fn pub_verify_accepts_a_satisfying_witness() {
    let r = R1CS::read(two_constraints()).unwrap();
    let w = Witness::read(witness_file(&[1, 3, 5, 15, 45])).unwrap();
    assert_eq!(r.pub_verify(&w), Ok(()));
}

#[test]
fn pub_verify_reports_the_first_unsatisfied_constraint() {
    let r = R1CS::read(two_constraints()).unwrap();
    let w = Witness::read(witness_file(&[1, 3, 5, 15, 46])).unwrap();
    assert_eq!(r.pub_verify(&w), Err(VerifyError::ConstraintNotFulfilled(1)));
    let w0 = Witness::read(witness_file(&[1, 3, 5, 16, 48])).unwrap();
    assert_eq!(r.pub_verify(&w0), Err(VerifyError::ConstraintNotFulfilled(0)));
}

#[test]
fn pub_verify_reports_a_size_mismatch() {
    let r = R1CS::read(two_constraints()).unwrap();
    let w = Witness::read(witness_file(&[1, 3, 5, 15])).unwrap();
    assert_eq!(r.pub_verify(&w), Err(VerifyError::SizeMismatch));
}

#[test]
fn comp_h_finds_the_quotient() {
    // u = 9 - 6x, v = 4 + x, t = 30 - 15x: u v - t = -6 (x^2 - 1)
    let r = R1CS::read(two_constraints()).unwrap();
    let w = Witness::read(witness_file(&[1, 3, 5, 15, 45])).unwrap();
    let h = r.comp_h(&w).unwrap();
    let coeffs: Vec<BigUint> = h.data.iter().map(to_big).collect();
    assert_eq!(coeffs, vec![modulus() - 6u64]);
}

#[test]
fn comp_h_of_a_single_constraint_is_zero() {
    let cs = vec![(vec![(1, 1)], vec![(2, 1)], vec![(3, 1)])];
    let bytes = sectioned(b"r1cs", 1, &[(1, header_section(&modulus(), 4, 1, 1, 1, 1)), (2, constraints_section(&cs))]);
    let r = R1CS::read(bytes).unwrap();
    let w = Witness::read(witness_file(&[1, 3, 5, 15])).unwrap();
    assert_eq!(r.comp_h(&w).unwrap().data.len(), 0);
}

#[test]
fn comp_h_finds_none_for_an_unsatisfied_constraint() {
    // a quotient would mean every constraint holds
    let r = R1CS::read(two_constraints()).unwrap();
    let w = Witness::read(witness_file(&[1, 3, 5, 15, 46])).unwrap();
    assert!(r.pub_verify(&w).is_err());
    assert_eq!(r.comp_h(&w).err(), Some(QuotientError::NotDivisible));
}

#[test]
fn comp_h_refuses_a_nonzero_constant() {
    // one constraint, 3 * 5 != 16: u v - t is the constant -1
    let cs = vec![(vec![(1, 1)], vec![(2, 1)], vec![(3, 1)])];
    let bytes = sectioned(b"r1cs", 1, &[(1, header_section(&modulus(), 4, 1, 1, 1, 1)), (2, constraints_section(&cs))]);
    let r = R1CS::read(bytes).unwrap();
    let w = Witness::read(witness_file(&[1, 3, 5, 16])).unwrap();
    assert_eq!(r.comp_h(&w).err(), Some(QuotientError::DegreeTooLow));
}
