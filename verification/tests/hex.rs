use plog::error::Error;
use plog::hex::{decode, decode_bytes};
use plog::render::hex_text;

fn hex_message(e: Error) -> String {
    match e {
        Error::HexDecode(m) => m,
        other => panic!("not a hex error: {other:?}"),
    }
}

#[test]
fn basic() {
    assert_eq!(decode("deadbeef").unwrap(), &[0xde, 0xad, 0xbe, 0xef]);
}

#[test]
fn with_spaces() {
    assert_eq!(decode("de ad be ef").unwrap(), &[0xde, 0xad, 0xbe, 0xef]);
}

#[test]
fn uppercase() {
    assert_eq!(decode("DEADBEEF").unwrap(), &[0xde, 0xad, 0xbe, 0xef]);
}

#[test]
fn empty() {
    assert_eq!(decode("").unwrap(), &[] as &[u8]);
}

#[test]
fn odd_digits_error() {
    assert!(decode("abc").is_err());
}

#[test]
fn invalid_char_error() {
    assert!(decode("zz").is_err());
}

#[test]
fn hex_error_messages() {
    assert_eq!(hex_message(decode("abc").unwrap_err()), "odd number of hex digits");
    assert_eq!(hex_message(decode("a g1").unwrap_err()), "invalid hex character: 'g'");
    assert_eq!(hex_message(decode("12\u{e9}").unwrap_err()), "invalid hex character: '\u{c3}'");
}

#[test]
fn hex_white_space_anywhere() {
    assert_eq!(decode(" 1\t2\r\n3 4 ").unwrap(), vec![0x12, 0x34]);
    assert_eq!(decode_bytes(b"1 2 3 4").unwrap(), decode_bytes(b"1234").unwrap());
}

#[test]
fn hex_case_is_ignored() {
    assert_eq!(decode("aB Cd").unwrap(), decode("AbcD").unwrap());
}

#[test]
fn hex_shown_bytes_decode_back() {
    let bytes: Vec<u8> = (0..=255).collect();
    assert_eq!(hex_text(&[0x00, 0x0f, 0xa5]), "00 0f a5");
    assert_eq!(decode(&hex_text(&bytes)).unwrap(), bytes);
    assert_eq!(decode(&hex_text(&[])).unwrap(), Vec::<u8>::new());
}
