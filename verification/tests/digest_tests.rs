use base64::Engine;
use duprestore::blockhash::{Base64Alphabet, BlockIdHash};
use duprestore::hexdisplay::{
    byte2hex, escape_byte_maybe, EscapeRawString, EscapeWholeString, HexDisplayBytes,
    HEX_CHARS_LOWER,
};

fn sample_digest() -> Vec<u8> {
    // 32 fixed pseudo-random bytes.
    let mut b = Vec::new();
    let mut x: u32 = 0x12345678;
    for _ in 0..32 {
        x = x.wrapping_mul(1664525).wrapping_add(1013904223);
        b.push((x >> 24) as u8);
    }
    b
}

#[test]
fn digest_roundtrip_standard() {
    let bytes = sample_digest();
    let h = BlockIdHash::from_bytes(&bytes).unwrap();
    let mut buf = Vec::new();
    h.as_base64(&mut buf);
    let encoded = String::from_utf8(buf).unwrap();
    let back = BlockIdHash::from_base64(&encoded).unwrap();
    assert_eq!(back.hash, bytes);
}

#[test]
fn digest_roundtrip_urlsafe() {
    let bytes = sample_digest();
    let h = BlockIdHash::from_bytes(&bytes).unwrap();
    let mut buf = Vec::new();
    h.as_base64_urlsafe(&mut buf);
    let encoded = String::from_utf8(buf).unwrap();
    let back = BlockIdHash::from_base64_urlsafe(&encoded).unwrap();
    assert_eq!(back.hash, bytes);
}

#[test]
fn digest_matches_base64_crate() {
    let bytes = sample_digest();
    let h = BlockIdHash::from_bytes(&bytes).unwrap();
    let mut buf = Vec::new();
    h.as_base64(&mut buf);
    assert_eq!(buf, base64::engine::general_purpose::STANDARD.encode(&bytes).into_bytes());
    h.as_base64_urlsafe(&mut buf);
    assert_eq!(buf, base64::engine::general_purpose::URL_SAFE.encode(&bytes).into_bytes());
}

#[test]
fn cross_codec_roundtrip_fails_when_alphabets_disagree() {
    // 0xFB >> 2 == 62, where the alphabets disagree ('+' vs '-').
    let mut bytes = vec![0xFBu8; 32];
    bytes[31] = 0x01;
    let h = BlockIdHash::from_bytes(&bytes).unwrap();
    let mut std_buf = Vec::new();
    h.as_base64(&mut std_buf);
    let mut url_buf = Vec::new();
    h.as_base64_urlsafe(&mut url_buf);
    assert_ne!(std_buf, url_buf);
    let encoded = String::from_utf8(std_buf).unwrap();
    assert!(BlockIdHash::from_base64_urlsafe(&encoded).is_none());
}

#[test]
fn cross_codec_roundtrip_succeeds_when_alphabets_agree() {
    // All-zero bytes use only the shared part of the alphabets.
    let bytes = vec![0u8; 32];
    let h = BlockIdHash::from_bytes(&bytes).unwrap();
    let mut std_buf = Vec::new();
    h.as_base64(&mut std_buf);
    let mut url_buf = Vec::new();
    h.as_base64_urlsafe(&mut url_buf);
    assert_eq!(std_buf, url_buf);
    let encoded = String::from_utf8(std_buf).unwrap();
    let back = BlockIdHash::from_base64_urlsafe(&encoded).unwrap();
    assert_eq!(back.hash, bytes);
}

#[test]
fn from_bytes_rejects_wrong_length() {
    assert!(BlockIdHash::from_bytes(&[0u8; 31]).is_none());
    assert!(BlockIdHash::from_bytes(&[0u8; 33]).is_none());
    assert!(BlockIdHash::from_bytes(&[]).is_none());
    assert!(BlockIdHash::from_bytes(&[7u8; 32]).is_some());
}

#[test]
fn from_base64_rejects_wrong_length_and_garbage() {
    // Valid base64 of 3 bytes, not a digest.
    assert!(BlockIdHash::from_base64("AAAA").is_none());
    // Not base64 at all.
    assert!(BlockIdHash::from_base64("!!!!").is_none());
    // Non-canonical padding.
    assert!(BlockIdHash::from_base64("AAA").is_none());
}

#[test]
fn from_base64_config_selects_alphabet() {
    let bytes = vec![0xFBu8; 32];
    let h = BlockIdHash::from_bytes(&bytes).unwrap();
    let mut url_buf = Vec::new();
    h.as_base64_config(Base64Alphabet::UrlSafe, &mut url_buf);
    let encoded = String::from_utf8(url_buf).unwrap();
    assert!(BlockIdHash::from_base64_config(&encoded, Base64Alphabet::UrlSafe).is_some());
    assert!(BlockIdHash::from_base64_config(&encoded, Base64Alphabet::Standard).is_none());
}

#[test]
fn hex_display_formats_lower_case() {
    let data = [0x00u8, 0xde, 0xad, 0xbe, 0xef, 0x0f];
    assert_eq!(HexDisplayBytes(&data).to_string(), "00deadbeef0f");
}

#[test]
fn escape_whole_string_formats_every_byte() {
    let data = [0x41u8, 0x00];
    assert_eq!(EscapeWholeString(&data).to_string(), "\\x41\\x00");
}

#[test]
fn escape_raw_string_quotes_and_escapes() {
    let data = [b'A', b' ', b'"', 0x7f];
    assert_eq!(EscapeRawString(&data).to_string(), "\"A\\x20\\x22\\x7f\"");
}

#[test]
fn byte2hex_reads_the_table() {
    assert_eq!(byte2hex(0xde, &HEX_CHARS_LOWER), (b'd', b'e'));
    assert_eq!(byte2hex(0x05, &HEX_CHARS_LOWER), (b'0', b'5'));
}

#[test]
fn escape_byte_maybe_appends() {
    let mut out = Vec::new();
    escape_byte_maybe(&mut out, b'x');
    escape_byte_maybe(&mut out, 0x00);
    assert_eq!(out, b"x\\x00".to_vec());
}
