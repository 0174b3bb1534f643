use num_bigint::BigUint;
use r1cs_qap::bignat::BigNat;
use r1cs_qap::file_helpers::{
    read_big_uint, read_bytes, read_u64, seek_section, validate_biguint, validate_magic_value, validate_uint,
    ByteReader, ReadError,
};

fn to_big(x: &BigNat) -> BigUint {
    BigUint::from_slice(x.digits())
}

/// A file with the given magic, version and sections (type, contents).
fn sectioned(magic: &[u8], version: u32, sections: &[(u32, Vec<u8>)]) -> Vec<u8> {
    let mut out = magic.to_vec();
    out.extend_from_slice(&version.to_le_bytes());
    out.extend_from_slice(&(sections.len() as u32).to_le_bytes());
    for (t, body) in sections {
        out.extend_from_slice(&t.to_le_bytes());
        out.extend_from_slice(&(body.len() as u64).to_le_bytes());
        out.extend_from_slice(body);
    }
    out
}

#[test]
fn read_bytes_in_order_then_past_the_end() {
    let mut f = ByteReader::new(vec![1, 2, 3, 4, 5]);
    assert_eq!(read_bytes(&mut f, 2).unwrap(), vec![1, 2]);
    assert_eq!(read_bytes(&mut f, 3).unwrap(), vec![3, 4, 5]);
    assert_eq!(read_bytes(&mut f, 0).unwrap(), Vec::<u8>::new());
    assert_eq!(read_bytes(&mut f, 1), Err(ReadError::UnexpectedEnd));
}

#[test]
fn read_u64_little_endian() {
    let mut f = ByteReader::new(vec![0x01, 0x02, 0x03, 0x04, 0xff]);
    assert_eq!(read_u64(&mut f, 4), Ok(0x04030201));
    assert_eq!(read_u64(&mut f, 1), Ok(0xff));
    assert_eq!(read_u64(&mut f, 1), Err(ReadError::UnexpectedEnd));
}

#[test]
fn read_u64_keeps_the_first_eight_bytes() {
    let mut bytes = vec![0u8; 10];
    bytes[0] = 7;
    bytes[9] = 0xaa;
    let mut f = ByteReader::new(bytes);
    assert_eq!(read_u64(&mut f, 10), Ok(7));
}

#[test]
fn read_big_uint_any_size() {
    let mut bytes = vec![0u8; 32];
    bytes[0] = 1;
    bytes[31] = 0x80;
    let mut f = ByteReader::new(bytes);
    let v = read_big_uint(&mut f, 32).unwrap();
    let want = (BigUint::from(1u64) << 255u32) + 1u64;
    assert_eq!(to_big(&v), want);
    assert_eq!(read_big_uint(&mut f, 1).err(), Some(ReadError::UnexpectedEnd));
}

#[test]
fn seek_by_forward_back_and_out() {
    let mut f = ByteReader::new(vec![10, 11, 12, 13]);
    assert_eq!(f.seek_by(2), Ok(()));
    assert_eq!(read_bytes(&mut f, 1).unwrap(), vec![12]);
    // -2 as a signed offset
    assert_eq!(f.seek_by(u64::MAX - 1), Ok(()));
    assert_eq!(read_bytes(&mut f, 1).unwrap(), vec![11]);
    assert_eq!(f.seek_by(u64::MAX - 5), Err(ReadError::SeekFailed));
    f.seek_to(3);
    assert_eq!(read_bytes(&mut f, 1).unwrap(), vec![13]);
    // past the end is allowed, a read there is not
    assert_eq!(f.seek_by(100), Ok(()));
    assert_eq!(read_bytes(&mut f, 1), Err(ReadError::UnexpectedEnd));
}

#[test]
fn seek_section_finds_the_section() {
    let bytes = sectioned(b"test", 1, &[(1, vec![1, 2, 3]), (2, vec![9, 8])]);
    let mut f = ByteReader::new(bytes.clone());
    assert_eq!(seek_section(&mut f, 2), Ok(()));
    assert_eq!(read_bytes(&mut f, 2).unwrap(), vec![9, 8]);
    let mut g = ByteReader::new(bytes);
    assert_eq!(seek_section(&mut g, 1), Ok(()));
    assert_eq!(read_bytes(&mut g, 3).unwrap(), vec![1, 2, 3]);
}

#[test]
fn seek_section_missing_ends_after_the_sections() {
    let bytes = sectioned(b"test", 1, &[(1, vec![1, 2, 3])]);
    let mut f = ByteReader::new(bytes);
    assert_eq!(seek_section(&mut f, 5), Ok(()));
    assert_eq!(read_bytes(&mut f, 1), Err(ReadError::UnexpectedEnd));
}

#[test]
fn seek_section_truncated_header() {
    let mut bytes = sectioned(b"test", 1, &[(1, vec![1, 2, 3])]);
    bytes.truncate(14);
    let mut f = ByteReader::new(bytes);
    assert_eq!(seek_section(&mut f, 2), Err(ReadError::UnexpectedEnd));
}

#[test]
fn validate_magic_value_match_and_mismatch() {
    let mut f = ByteReader::new(b"r1csrest".to_vec());
    assert_eq!(validate_magic_value(&mut f, "r1cs"), Ok(()));
    assert_eq!(read_bytes(&mut f, 4).unwrap(), b"rest".to_vec());
    let mut g = ByteReader::new(b"wtns".to_vec());
    assert_eq!(validate_magic_value(&mut g, "r1cs"), Err(ReadError::WrongMagic));
    let mut h = ByteReader::new(b"r1".to_vec());
    assert_eq!(validate_magic_value(&mut h, "r1cs"), Err(ReadError::UnexpectedEnd));
}

#[test]
fn validate_uint_and_biguint() {
    let mut f = ByteReader::new(vec![1, 0, 0, 0, 2, 0, 0, 0]);
    assert_eq!(validate_uint(&mut f, 1), Ok(()));
    assert_eq!(validate_uint(&mut f, 1), Err(ReadError::UnsupportedVersion));
    let mut g = ByteReader::new(vec![2, 0, 0, 0, 3, 0, 0, 0]);
    assert_eq!(validate_biguint(&mut g, BigNat::from_u64(2)), Ok(()));
    assert_eq!(validate_biguint(&mut g, BigNat::from_u64(2)), Err(ReadError::UnsupportedVersion));
    assert_eq!(validate_uint(&mut g, 0), Err(ReadError::UnexpectedEnd));
}

#[test]
fn reading_nothing_past_the_end_succeeds() {
    let mut f = ByteReader::new(vec![1, 2]);
    assert_eq!(f.seek_by(10), Ok(()));
    assert_eq!(read_bytes(&mut f, 0).unwrap(), Vec::<u8>::new());
    assert_eq!(read_u64(&mut f, 0), Ok(0));
    assert!(read_big_uint(&mut f, 0).unwrap().is_zero());
    // the position did not move: going back 9 reaches the second byte
    assert_eq!(f.seek_by(u64::MAX - 8), Ok(()));
    assert_eq!(read_bytes(&mut f, 1).unwrap(), vec![2]);
}
