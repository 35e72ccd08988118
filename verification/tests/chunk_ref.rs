use hat::blob::{ChunkRef, Kind};
use hat::errors::HatError;
use hat::util::hex::{digit_of, from_hex, to_hex, value_of};

fn sample() -> ChunkRef {
    ChunkRef { blob_name: vec![1, 2, 3], offset: 7, length: 9, kind: Kind::TreeBranch }
}

#[test]
fn chunk_ref_round_trips_through_bytes() {
    let r = sample();
    let bytes = r.to_bytes();
    assert_eq!(bytes.len(), 28);
    assert_eq!(ChunkRef::from_bytes(&bytes), Ok(r));
}

#[test]
fn chunk_ref_byte_form_is_length_name_offset_length_kind() {
    let bytes = sample().to_bytes();
    let expected: Vec<u8> = vec![
        3, 0, 0, 0, 0, 0, 0, 0, // length of the name
        1, 2, 3, // name
        7, 0, 0, 0, 0, 0, 0, 0, // offset
        9, 0, 0, 0, 0, 0, 0, 0, // length
        1, // branch
    ];
    assert_eq!(bytes, expected);
}

#[test]
fn chunk_ref_with_empty_name_and_large_numbers_round_trips() {
    let r = ChunkRef { blob_name: vec![], offset: u64::MAX, length: 1 << 40, kind: Kind::TreeLeaf };
    let bytes = r.to_bytes();
    assert_eq!(bytes.len(), 25);
    assert_eq!(bytes[24], 0);
    assert_eq!(ChunkRef::from_bytes(&bytes), Ok(r));
}

#[test]
fn chunk_ref_rejects_truncated_bytes() {
    let bytes = sample().to_bytes();
    assert_eq!(ChunkRef::from_bytes(&bytes[..27]), Err(HatError::Serialization));
    assert_eq!(ChunkRef::from_bytes(&[]), Err(HatError::Serialization));
}

#[test]
fn chunk_ref_rejects_trailing_bytes() {
    let mut bytes = sample().to_bytes();
    bytes.push(0);
    assert_eq!(ChunkRef::from_bytes(&bytes), Err(HatError::Serialization));
}

#[test]
fn chunk_ref_rejects_unknown_kind() {
    let mut bytes = sample().to_bytes();
    bytes[27] = 2;
    assert_eq!(ChunkRef::from_bytes(&bytes), Err(HatError::Serialization));
}

#[test]
fn chunk_ref_rejects_wrong_name_length() {
    let mut bytes = sample().to_bytes();
    bytes[0] = 4;
    assert_eq!(ChunkRef::from_bytes(&bytes), Err(HatError::Serialization));
}

#[test]
fn written_bytes_are_canonical() {
    let bytes = sample().to_bytes();
    let parsed = ChunkRef::from_bytes(&bytes).unwrap();
    assert_eq!(parsed.to_bytes(), bytes);
}

#[test]
fn chunk_refs_compare_by_value() {
    let a = sample();
    let b = a.clone();
    assert!(a.equals(&b));
    let c = ChunkRef { offset: 8, ..a.clone() };
    assert!(!a.equals(&c));
}

#[test]
fn kind_follows_the_level() {
    assert_eq!(Kind::of_level(0), Kind::TreeLeaf);
    assert_eq!(Kind::of_level(1), Kind::TreeBranch);
    assert_eq!(Kind::of_level(-1), Kind::TreeBranch);
    assert_eq!(Kind::TreeLeaf.to_byte(), 0);
    assert_eq!(Kind::TreeBranch.to_byte(), 1);
    assert_eq!(Kind::from_byte(0), Some(Kind::TreeLeaf));
    assert_eq!(Kind::from_byte(1), Some(Kind::TreeBranch));
    assert_eq!(Kind::from_byte(2), None);
}

#[test]
fn hash_is_sha512() {
    let h = hat::hash::Hash::new(b"abc");
    assert_eq!(h.bytes.len(), 64);
    let expected: [u8; 8] = [0xdd, 0xaf, 0x35, 0xa1, 0x93, 0x61, 0x7a, 0xba];
    assert_eq!(&h.bytes[..8], &expected);
    assert_eq!(h.bytes[63], 0x9f);
    assert!(h.check_valid());
}

#[test]
fn hash_of_nothing_is_the_digest_of_the_empty_string() {
    let h = hat::hash::Hash::new(b"");
    let expected: [u8; 4] = [0xcf, 0x83, 0xe1, 0x35];
    assert_eq!(&h.bytes[..4], &expected);
    assert_eq!(h.bytes.len(), hat::hash::HASH_BYTES);
}

#[test]
fn hashes_compare_by_bytes() {
    let a = hat::hash::Hash::new(b"one");
    let b = hat::hash::Hash::new(b"one");
    let c = hat::hash::Hash::new(b"two");
    assert!(a.equals(&b));
    assert!(!a.equals(&c));
    assert_eq!(a.clone(), a);
    let empty = hat::hash::Hash { bytes: vec![] };
    assert!(!empty.check_valid());
}

#[test]
fn bytes_helpers_copy_and_compare() {
    assert!(hat::util::bytes::same_bytes(b"abc", b"abc"));
    assert!(!hat::util::bytes::same_bytes(b"abc", b"abd"));
    assert!(!hat::util::bytes::same_bytes(b"abc", b"ab"));
    assert_eq!(hat::util::bytes::copy_bytes(b"xyz"), b"xyz".to_vec());
}

#[test]
fn names_are_written_as_hexadecimal_digits() {
    assert_eq!(to_hex(&[0x00, 0x1f, 0xa0, 0xff]), b"001fa0ff".to_vec());
    assert_eq!(to_hex(&[]), Vec::<u8>::new());
    assert_eq!(from_hex(b"001fa0ff"), Some(vec![0x00, 0x1f, 0xa0, 0xff]));
    assert_eq!(from_hex(b""), Some(vec![]));
    // An odd number of digits, capitals and other signs are no digits of a name.
    assert_eq!(from_hex(b"001"), None);
    assert_eq!(from_hex(b"001F"), None);
    assert_eq!(from_hex(b"0g"), None);
    assert_eq!(from_hex(b"00.partial"), None);
    assert_eq!(digit_of(9), b'9');
    assert_eq!(digit_of(10), b'a');
    assert_eq!(value_of(b'f'), Some(15));
    assert_eq!(value_of(b'/'), None);
    let name: Vec<u8> = 258u64.to_le_bytes().to_vec();
    assert_eq!(to_hex(&name), b"0201000000000000".to_vec());
    assert_eq!(from_hex(&to_hex(&name)), Some(name));
}
