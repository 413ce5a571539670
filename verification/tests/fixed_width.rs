use circuit_records::error::ConversionError;
use circuit_records::fixedstr::{fixedascii_from_str, fixedascii_null};

fn enc(s: &str, n: usize) -> Vec<u8> {
    fixedascii_from_str(&s.as_bytes().to_vec(), n)
        .unwrap()
        .raw_bytes()
}

#[test]
fn round_trip_short_string() {
    let f = fixedascii_from_str(&b"example.com".to_vec(), 44).unwrap();
    assert_eq!(f.raw_bytes().len(), 44);
    assert_eq!(f.decode(), b"example.com".to_vec());
}

#[test]
fn round_trip_exact_capacity() {
    let f = fixedascii_from_str(&b"abcd".to_vec(), 4).unwrap();
    assert_eq!(f.raw_bytes(), b"abcd".to_vec());
    assert_eq!(f.decode(), b"abcd".to_vec());
}

#[test]
fn round_trip_interior_null() {
    let f = fixedascii_from_str(&b"a\0b".to_vec(), 8).unwrap();
    assert_eq!(f.decode(), b"a\0b".to_vec());
}

#[test]
fn truncation_keeps_first_n_bytes() {
    assert_eq!(enc("abcdefgh", 3), b"abc".to_vec());
    assert_eq!(enc("example.org", 7), b"example".to_vec());
}

#[test]
fn padding_fills_with_nulls() {
    assert_eq!(enc("ab", 4), b"ab\0\0".to_vec());
}

#[test]
fn null_sentinel_is_encoding_of_empty() {
    let sentinel = fixedascii_null(44);
    let empty = fixedascii_from_str(&Vec::new(), 44).unwrap();
    assert_eq!(sentinel.raw_bytes(), empty.raw_bytes());
    assert!(sentinel.is_empty());
    assert!(empty.is_empty());
    assert_eq!(sentinel.decode(), Vec::<u8>::new());
}

#[test]
fn non_ascii_is_rejected() {
    let r = fixedascii_from_str(&vec![0x61, 0xC3, 0xA9], 8);
    assert!(matches!(r, Err(ConversionError::EncodingError)));
}

#[test]
fn non_empty_buffer_is_not_sentinel() {
    let f = fixedascii_from_str(&b"x".to_vec(), 4).unwrap();
    assert!(!f.is_empty());
}
