use dope::escape::{escape, escape_bytes};
use dope::value::ReprError;

#[test]
fn plain_string_is_quoted() {
    assert_eq!(escape(b"hello", false, false), Ok("\"hello\"".to_string()));
}

#[test]
fn empty_string_is_two_quotes() {
    assert_eq!(escape(b"", false, false), Ok("\"\"".to_string()));
    assert_eq!(escape(b"", false, true), Ok("\"\"".to_string()));
}

#[test]
fn control_byte_becomes_its_picture() {
    let text = escape(&[0x61, 0x01, 0x62], false, false).unwrap();
    assert_eq!(text, "\"a\u{2401}b\"");
    assert_eq!(text.as_bytes(), &[0x22, 0x61, 0xe2, 0x90, 0x81, 0x62, 0x22]);
    assert!(!text.as_bytes().contains(&0x01));
}

#[test]
fn every_low_control_byte_but_tab_is_replaced() {
    for byte in 0u8..0x20 {
        if byte == 0x09 {
            continue;
        }
        let bytes = escape_bytes(&[byte], false, false);
        assert_eq!(bytes, vec![0x22, 0xe2, 0x90, 0x80 + byte, 0x22]);
    }
}

#[test]
fn tab_is_kept() {
    assert_eq!(escape(b"a\tb", false, false), Ok("\"a\tb\"".to_string()));
    assert_eq!(escape(b"a\tb", false, true), Ok("\"a\tb\"".to_string()));
}

#[test]
fn newline_without_multiline_becomes_its_picture() {
    let text = escape(b"a\nb", false, false).unwrap();
    assert_eq!(text, "\"a\u{240a}b\"");
    assert!(!text.contains('\n'));
}

#[test]
fn newline_with_multiline_is_kept_behind_a_backslash() {
    let text = escape(b"a\nb", false, true).unwrap();
    assert_eq!(text, "\"a\\\nb\"");
    assert!(text.contains("\\\n"));
}

#[test]
fn other_control_bytes_are_replaced_with_multiline_too() {
    assert_eq!(escape(&[0x0d], false, true), Ok("\"\u{240d}\"".to_string()));
}

#[test]
fn colour_surrounds_the_quotes() {
    assert_eq!(escape(b"x", true, false), Ok("\x1b[33m\"x\"\x1b[39m".to_string()));
}

#[test]
fn valid_utf8_is_passed_through() {
    assert_eq!(escape("h\u{e9}llo".as_bytes(), false, false), Ok("\"h\u{e9}llo\"".to_string()));
}

#[test]
fn invalid_utf8_is_an_encoding_failure() {
    assert_eq!(escape(&[0xff], false, false), Err(ReprError::Encoding));
    assert_eq!(escape(&[0xc3], false, false), Err(ReprError::Encoding));
    assert_eq!(escape(&[0xe2, 0x90], true, true), Err(ReprError::Encoding));
}

#[test]
fn delete_has_no_valid_picture() {
    assert_eq!(escape_bytes(&[0x7f], false, false), vec![0x22, 0xe2, 0x90, 0xff, 0x22]);
    assert_eq!(escape(&[0x7f], false, false), Err(ReprError::Encoding));
}
