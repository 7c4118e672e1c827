use duprestore::stripbom::{starts_with_bom_bytes, strip_bom_from_bufread, StripBom, StripBomBytes};

#[test]
fn strip_bom_removes_leading_mark() {
    let data: Vec<u8> = vec![0xEF, 0xBB, 0xBF, b'h', b'i'];
    assert_eq!(data.strip_bom(), b"hi".to_vec());
}

#[test]
fn strip_bom_is_noop_without_mark() {
    // Stripping from a sequence that does not begin with a mark changes
    // nothing.
    let data: Vec<u8> = b"hello".to_vec();
    assert_eq!(data.strip_bom(), data);
    let short: Vec<u8> = vec![0xEF, 0xBB];
    assert_eq!(short.strip_bom(), short);
}

#[test]
fn strip_bom_string_removes_feff() {
    let s = String::from("\u{feff}hello");
    assert_eq!(s.strip_bom(), "hello");
    let plain = String::from("hello");
    assert_eq!(plain.strip_bom(), "hello");
}

#[test]
fn strip_bom_twice_equals_once_without_second_mark() {
    let data: Vec<u8> = vec![0xEF, 0xBB, 0xBF, b'a'];
    let once = data.strip_bom();
    let twice = once.strip_bom();
    assert_eq!(once, twice);
}

#[test]
fn starts_with_bom_bytes_checks_prefix() {
    assert!(starts_with_bom_bytes(&[0xEF, 0xBB, 0xBF]));
    assert!(!starts_with_bom_bytes(&[0xEF, 0xBB]));
    assert!(!starts_with_bom_bytes(b"abc"));
}

#[test]
fn strip_bom_from_bufread_consumes_mark() {
    let mut data: Vec<u8> = vec![0xEF, 0xBB, 0xBF, b'{', b'}'];
    strip_bom_from_bufread(&mut data);
    assert_eq!(data, b"{}".to_vec());
    let mut plain: Vec<u8> = b"{}".to_vec();
    strip_bom_from_bufread(&mut plain);
    assert_eq!(plain, b"{}".to_vec());
}
