use b2::ascii::{escape, escape_byte, unescape, unescape_bytes, UnescapeError};

#[test]
fn escapes_whitespace_characters() {
    assert_eq!(escape(b"space separated"), "space\\ separated");
    assert_eq!(escape(b"newline\nseparated"), "newline\\nseparated");
    assert_eq!(escape(b"carriage-return\rseparated"), "carriage-return\\rseparated");
    assert_eq!(escape(b"tab\tseparated"), "tab\\tseparated");
}

#[test]
fn escapes_quotes() {
    assert_eq!(escape(b"'single'"), "\\'single\\'");
    assert_eq!(escape(b"\"double\""), "\\\"double\\\"");
}

#[test]
fn escapes_backslashes() {
    assert_eq!(escape(b"backslash\\"), "backslash\\\\");
}

#[test]
fn escapes_non_printable_characters() {
    assert_eq!(escape(b"\x01\x02\x03"), "\\x01\\x02\\x03");
}

#[test]
fn ascii_escapes_whitespace_characters() {
    assert_eq!(unescape(b"space\\ separated"), Ok("space separated".to_string()));
    assert_eq!(unescape(b"newline\\nseparated"), Ok("newline\nseparated".to_string()));
    assert_eq!(
        unescape(b"carriage-return\\rseparated"),
        Ok("carriage-return\rseparated".to_string())
    );
    assert_eq!(unescape(b"tab\\tseparated"), Ok("tab\tseparated".to_string()));
}

#[test]
fn ascii_escapes_quotes() {
    assert_eq!(unescape(b"\\'single\\'"), Ok("'single'".to_string()));
    assert_eq!(unescape(b"\\\"double\\\""), Ok("\"double\"".to_string()));
}

#[test]
fn ascii_escapes_backslashes() {
    assert_eq!(unescape(b"backslash\\\\"), Ok("backslash\\".to_string()));
}

#[test]
fn ascii_escapes_non_printable_characters() {
    assert_eq!(unescape(b"\\x01\\x02\\x03"), Ok("\x01\x02\x03".to_string()));
}

fn invalid(msg: &str) -> Result<String, UnescapeError> {
    Err(UnescapeError::InvalidEscapeSequence(msg.to_string()))
}

#[test]
fn escape_byte_cases() {
    assert_eq!(escape_byte(b'a'), None);
    assert_eq!(escape_byte(b'~'), None);
    assert_eq!(escape_byte(b' '), Some(b"\\ ".to_vec()));
    assert_eq!(escape_byte(0x7f), Some(b"\\x7f".to_vec()));
    assert_eq!(escape_byte(0xff), Some(b"\\xff".to_vec()));
    assert_eq!(escape_byte(0x00), Some(b"\\x00".to_vec()));
    assert_eq!(escape_byte(0x0b), Some(b"\\x0b".to_vec()));
}

#[test]
fn escapes_non_ascii_bytes_in_lowercase_hex() {
    assert_eq!(escape("é".as_bytes()), "\\xc3\\xa9");
    assert_eq!(escape(b""), "");
}

#[test]
fn unescape_reports_trailing_backslash() {
    assert_eq!(unescape(b"abc\\"), invalid("trailing backslash"));
}

#[test]
fn unescape_reports_incomplete_hex_escape() {
    assert_eq!(unescape(b"\\x"), invalid("incomplete hex escape: \\x"));
    assert_eq!(unescape(b"\\x4"), invalid("incomplete hex escape: \\x4"));
    assert_eq!(unescape(&[b'\\', b'x', 0xff]), invalid("incomplete hex escape: \\x\u{FFFD}"));
}

#[test]
fn unescape_reports_invalid_utf8_in_hex_digits() {
    assert_eq!(unescape(&[b'\\', b'x', 0xff, b'1']), invalid("invalid UTF-8 in hex digits"));
}

#[test]
fn unescape_reports_invalid_hex_byte() {
    assert_eq!(unescape(b"\\xzz"), invalid("invalid hex byte: \\xzz"));
    assert_eq!(unescape(b"\\x-1"), invalid("invalid hex byte: \\x-1"));
    assert_eq!(unescape("\\xé".as_bytes()), invalid("invalid hex byte: \\xé"));
}

#[test]
fn unescape_reports_unrecognized_escape_sequence() {
    assert_eq!(unescape(b"\\q"), invalid("unrecognized escape sequence: \\q"));
}

#[test]
fn unescape_accepts_plus_sign_and_upper_case_hex() {
    assert_eq!(unescape(b"\\x+f"), Ok("\x0f".to_string()));
    assert_eq!(unescape(b"\\x4A"), Ok("J".to_string()));
}

#[test]
fn unescape_bytes_keeps_non_utf8_bytes() {
    assert_eq!(unescape_bytes(b"\\xff\\x00"), Ok(vec![0xff, 0x00]));
}

#[test]
fn unescape_inverts_escape_on_examples() {
    let samples: Vec<Vec<u8>> = vec![
        b"plain".to_vec(),
        b"with space and\ttab\n".to_vec(),
        vec![0, 1, 2, 0x7f, 0x80, 0xfe, 0xff, b'\\', b'"', b'\''],
        "ünïcödé/path".as_bytes().to_vec(),
        Vec::new(),
    ];
    for s in samples {
        let e = escape(&s);
        assert!(e.bytes().all(|b| (0x20..=0x7e).contains(&b)));
        assert_eq!(unescape_bytes(e.as_bytes()), Ok(s));
    }
}

#[test]
fn unescape_error_display() {
    let e = UnescapeError::InvalidEscapeSequence("trailing backslash".to_string());
    assert_eq!(e.to_display_string(), "invalid escape sequence: trailing backslash");
}
