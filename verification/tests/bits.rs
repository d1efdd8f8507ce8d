use tyrosine::{add, bytes_to_unicode_bits, unicode_bits_to_bytes};

#[test]
fn it_works() {
    let result = add(2, 2);
    assert_eq!(result, 4);
}

#[test]
fn bits_bytes() {
    let bytes: Vec<u8> = vec![2, 1, 4, 2, 255, 3, 124];
    let bits = bytes_to_unicode_bits(&bytes);
    let new_bytes = unicode_bits_to_bytes(&bits);
    match new_bytes {
        Some(x) => assert_eq!(bytes, x),
        None => assert!(false),
    }
}

#[test]
fn bits_bytes1() {
    let bytes: Vec<u8> = (3.42 as f32).to_le_bytes().into();
    let bits = bytes_to_unicode_bits(&bytes);
    let new_bytes = unicode_bits_to_bytes(&bits);
    match new_bytes {
        Some(x) => assert_eq!(bytes, x),
        None => assert!(false),
    }
}

#[test]
fn bits_are_least_significant_first() {
    let bits = bytes_to_unicode_bits(&[1u8, 128u8]);
    assert_eq!(bits, b"1000000000000001".to_vec());
}

#[test]
fn bits_reject_other_characters() {
    assert_eq!(unicode_bits_to_bytes(b"0000000x"), None);
    assert_eq!(unicode_bits_to_bytes(b"00000002"), None);
}

#[test]
fn bits_ignore_trailing_characters() {
    assert_eq!(unicode_bits_to_bytes(b"11000000xyz"), Some(vec![3u8]));
    assert_eq!(unicode_bits_to_bytes(b"1100"), Some(vec![]));
}
