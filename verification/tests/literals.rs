use fdbdir::byte_literal::try_utf8_or_bytes;
use fdbdir::{format_bytes, hex_val, parse_bytes_literal, MalformedEscape};

#[test]
fn hex_val_digits() {
    assert_eq!(hex_val('0'), Ok(0));
    assert_eq!(hex_val('9'), Ok(9));
    assert_eq!(hex_val('a'), Ok(10));
    assert_eq!(hex_val('f'), Ok(15));
    assert_eq!(hex_val('A'), Ok(10));
    assert_eq!(hex_val('F'), Ok(15));
    assert_eq!(hex_val('g'), Err(MalformedEscape));
    assert_eq!(hex_val(' '), Err(MalformedEscape));
}

#[test]
fn decode_hex_escapes() {
    assert_eq!(parse_bytes_literal("\\x41").unwrap(), vec![0x41]);
    assert_eq!(parse_bytes_literal("\\X00\\xff").unwrap(), vec![0x00, 0xFF]);
}

#[test]
fn decode_named_escapes() {
    assert_eq!(
        parse_bytes_literal("\\n\\r\\t\\\\\\\"").unwrap(),
        vec![10, 13, 9, 92, 34]
    );
}

#[test]
fn decode_unknown_escape_passes_through() {
    assert_eq!(parse_bytes_literal("\\q").unwrap(), vec![b'q']);
}

#[test]
fn decode_plain_text_is_its_bytes() {
    assert_eq!(parse_bytes_literal("abc-_").unwrap(), b"abc-_".to_vec());
}

#[test]
fn decode_trailing_backslash_is_verbatim() {
    assert_eq!(parse_bytes_literal("a\\").unwrap(), vec![b'a', b'\\']);
}

#[test]
fn decode_rejects_short_hex_escape() {
    assert_eq!(parse_bytes_literal("\\x4"), Err(MalformedEscape));
    assert_eq!(parse_bytes_literal("\\x"), Err(MalformedEscape));
}

#[test]
fn decode_rejects_bad_hex_digit() {
    assert_eq!(parse_bytes_literal("\\xg1"), Err(MalformedEscape));
    assert_eq!(parse_bytes_literal("\\x1z"), Err(MalformedEscape));
}

#[test]
fn encode_wraps_and_escapes() {
    assert_eq!(format_bytes(b"Az0-_"), "b\"Az0-_\"");
    assert_eq!(format_bytes(&[0x00, 0xFF]), "b\"\\x00\\xff\"");
    assert_eq!(format_bytes(b"\\"), "b\"\\\\\"");
    assert_eq!(format_bytes(b""), "b\"\"");
}

#[test]
fn encode_truncates_after_64_bytes() {
    let data = vec![b'a'; 65];
    let shown = format_bytes(&data);
    let expected: String = format!("b\"{}\u{2026}\"", "a".repeat(64));
    assert_eq!(shown, expected);
}

#[test]
fn encode_then_decode_recovers_bytes() {
    let data: Vec<u8> = vec![0x00, b'A', b'\\', b'-', 0x7F, 0xFE];
    let shown = format_bytes(&data);
    let inner = &shown[2..shown.len() - 1];
    assert_eq!(parse_bytes_literal(inner).unwrap(), data);
}

#[test]
fn text_or_bytes_quotes_clean_text() {
    assert_eq!(try_utf8_or_bytes(b"hello"), "\"hello\"");
    assert_eq!(try_utf8_or_bytes(b"line\nbreak\ttab\r"), "\"line\nbreak\ttab\r\"");
}

#[test]
fn text_or_bytes_falls_back_on_control_bytes() {
    assert_eq!(try_utf8_or_bytes(&[0x01]), "b\"\\x01\"");
}

#[test]
fn text_or_bytes_falls_back_on_invalid_utf8() {
    assert_eq!(try_utf8_or_bytes(&[0xFF, 0xFE]), "b\"\\xff\\xfe\"");
}
