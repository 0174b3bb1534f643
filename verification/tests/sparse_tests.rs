use num_bigint::BigUint;
use r1cs_qap::bignat::BigNat;
use r1cs_qap::file_helpers::{ByteReader, ReadError};
use r1cs_qap::vec_sparse::{MatrixSparce, VecSparse};

fn to_big(x: &BigNat) -> BigUint {
    BigUint::from_slice(x.digits())
}

fn nats(v: &[u64]) -> Vec<BigNat> {
    v.iter().map(|x| BigNat::from_u64(*x)).collect()
}

fn bigs(v: &Vec<BigNat>) -> Vec<BigUint> {
    v.iter().map(to_big).collect()
}

fn small(v: &[u64]) -> Vec<BigUint> {
    v.iter().map(|x| BigUint::from(*x)).collect()
}

fn modulus() -> BigUint {
    BigUint::parse_bytes(
        b"21888242871839275222246405745257275088548364400416034343698204186575808495617",
        10,
    )
    .unwrap()
}

/// A sparse vector in the file layout: the count, then each 4-byte
/// position followed by a value of `fs` bytes.
fn sparse_bytes(entries: &[(u32, u64)], fs: usize) -> Vec<u8> {
    let mut out = (entries.len() as u32).to_le_bytes().to_vec();
    for (i, v) in entries {
        out.extend_from_slice(&i.to_le_bytes());
        let mut b = v.to_le_bytes().to_vec();
        b.resize(fs, 0);
        out.extend_from_slice(&b);
    }
    out
}

#[test]
fn from_keeps_the_nonzero_entries() {
    let v = VecSparse::from(nats(&[0, 4, 0, 7]));
    // the inner product with unit vectors reads the entries back
    for (k, want) in [0u64, 4, 0, 7].iter().enumerate() {
        let mut unit = nats(&[0, 0, 0, 0]);
        unit[k] = BigNat::from_u64(1);
        assert_eq!(to_big(&v.inner(&unit)), BigUint::from(*want));
    }
}

#[test]
fn inner_product_is_reduced() {
    let v = VecSparse::from(nats(&[2, 3, 5]));
    assert_eq!(to_big(&v.inner(&nats(&[7, 11, 13]))), BigUint::from(14u64 + 33 + 65));
    let qm1 = BigNat::from_bytes_le(&(modulus() - 1u64).to_bytes_le());
    let w = VecSparse::from(vec![qm1]);
    assert_eq!(to_big(&w.inner(&nats(&[2]))), modulus() - 2u64);
}

#[test]
fn new_matrix_is_empty() {
    assert_eq!(MatrixSparce::new().data.len(), 0);
    assert_eq!(MatrixSparce::new().mul_vec(&nats(&[1, 2])).len(), 0);
}

#[test]
fn mul_vec_row_by_row() {
    let m = MatrixSparce { data: vec![VecSparse::from(nats(&[1, 0, 2])), VecSparse::from(nats(&[0, 3, 0]))] };
    assert_eq!(bigs(&m.mul_vec(&nats(&[5, 6, 7]))), small(&[19, 18]));
}

#[test]
fn transpose_swaps_rows_and_columns() {
    let m = MatrixSparce { data: vec![VecSparse::from(nats(&[1, 0, 2])), VecSparse::from(nats(&[0, 3, 0]))] };
    let t = m.matrix_transpose();
    assert_eq!(t.data.len(), 3);
    assert_eq!(bigs(&t.mul_vec(&nats(&[10, 100]))), small(&[10, 300, 20]));
}

#[test]
fn transpose_twice_gives_back_the_matrix() {
    let m = MatrixSparce { data: vec![VecSparse::from(nats(&[1, 0, 2])), VecSparse::from(nats(&[4, 3, 0]))] };
    let tt = m.matrix_transpose().matrix_transpose();
    assert_eq!(tt.data.len(), 2);
    let v = nats(&[5, 6, 7]);
    assert_eq!(bigs(&tt.mul_vec(&v)), bigs(&m.mul_vec(&v)));
}

#[test]
fn read_a_sparse_vector() {
    let mut f = ByteReader::new(sparse_bytes(&[(1, 9), (3, 2)], 32));
    let v = VecSparse::read(&mut f, 32, 4).unwrap();
    assert_eq!(to_big(&v.inner(&nats(&[1, 10, 100, 1000]))), BigUint::from(2090u64));
}

#[test]
fn read_refuses_a_position_out_of_range() {
    let mut f = ByteReader::new(sparse_bytes(&[(4, 9)], 8));
    assert_eq!(VecSparse::read(&mut f, 8, 4).err(), Some(ReadError::IndexOutOfRange));
}

#[test]
fn read_stops_at_the_end() {
    let mut bytes = sparse_bytes(&[(0, 9), (1, 1)], 8);
    bytes.truncate(bytes.len() - 1);
    let mut f = ByteReader::new(bytes);
    assert_eq!(VecSparse::read(&mut f, 8, 4).err(), Some(ReadError::UnexpectedEnd));
}
