use fdbdir::{decode_element, format_element, DecodeError, Element};

fn rendered(bytes: &[u8]) -> String {
    format_element(&decode_element(bytes).unwrap())
}

#[test]
fn decode_integers() {
    assert_eq!(decode_element(&[0x14]).unwrap(), Element::Int(0));
    assert_eq!(decode_element(&[0x15, 1]).unwrap(), Element::Int(1));
    assert_eq!(decode_element(&[0x15, 255]).unwrap(), Element::Int(255));
    assert_eq!(decode_element(&[0x16, 1, 0]).unwrap(), Element::Int(256));
    assert_eq!(decode_element(&[0x13, 254]).unwrap(), Element::Int(-1));
    assert_eq!(decode_element(&[0x13, 0]).unwrap(), Element::Int(-255));
    assert_eq!(decode_element(&[0x12, 254, 255]).unwrap(), Element::Int(-256));
    assert_eq!(
        decode_element(&[0x11, 0xAB, 0x4B, 0x93]).unwrap(),
        Element::Int(-5551212)
    );
}

#[test]
fn decode_extreme_integers() {
    assert_eq!(
        decode_element(b"\x1c\x7f\xff\xff\xff\xff\xff\xff\xff").unwrap(),
        Element::Int(i64::MAX)
    );
    assert_eq!(
        decode_element(b"\x0c\x7f\xff\xff\xff\xff\xff\xff\xff").unwrap(),
        Element::Int(i64::MIN)
    );
}

#[test]
fn decode_rejects_over_wide_integers() {
    assert_eq!(
        decode_element(b"\x1c\xff\xff\xff\xff\xff\xff\xff\xff"),
        Err(DecodeError)
    );
    assert_eq!(
        decode_element(b"\x0c\x00\x00\x00\x00\x00\x00\x00\x00"),
        Err(DecodeError)
    );
    assert_eq!(
        decode_element(b"\x1d\x09\x01\x00\x00\x00\x00\x00\x00\x00\x00"),
        Err(DecodeError)
    );
}

#[test]
fn decode_bytes_with_embedded_zero() {
    assert_eq!(
        decode_element(b"\x01foo\x00\xffbar\x00").unwrap(),
        Element::Bytes(b"foo\x00bar".to_vec())
    );
}

#[test]
fn decode_text() {
    assert_eq!(
        decode_element(b"\x02F\xc3\x94O\x00\xffbar\x00").unwrap(),
        Element::Text("F\u{d4}O\u{0}bar".to_string())
    );
}

#[test]
fn decode_rejects_invalid_text() {
    assert_eq!(decode_element(&[0x02, 0xFF, 0x00]), Err(DecodeError));
}

#[test]
fn decode_bools() {
    assert_eq!(decode_element(&[0x26]).unwrap(), Element::Bool(false));
    assert_eq!(decode_element(&[0x27]).unwrap(), Element::Bool(true));
}

#[test]
fn decode_root_runs() {
    assert_eq!(decode_element(&[]).unwrap(), Element::Tuple(vec![]));
    assert_eq!(
        decode_element(&[0x00, 0x00]).unwrap(),
        Element::Tuple(vec![Element::Nil, Element::Nil])
    );
    assert_eq!(
        decode_element(&[0x27, 0x26]).unwrap(),
        Element::Tuple(vec![Element::Bool(true), Element::Bool(false)])
    );
}

#[test]
fn decode_single_nested_tuple_stays_wrapped() {
    assert_eq!(
        decode_element(&[0x05, 0x00, 0xFF, 0x00]).unwrap(),
        Element::Tuple(vec![Element::Tuple(vec![Element::Nil])])
    );
}

#[test]
fn decode_rejects_truncation_and_unknown_tags() {
    assert_eq!(decode_element(&[0x15]), Err(DecodeError));
    assert_eq!(decode_element(&[0x01, b'x']), Err(DecodeError));
    assert_eq!(decode_element(&[0x05, 0x27]), Err(DecodeError));
    assert_eq!(decode_element(&[0x99]), Err(DecodeError));
    assert_eq!(decode_element(&[0x20, 0, 0]), Err(DecodeError));
    assert_eq!(decode_element(&[0x30, 1, 2, 3]), Err(DecodeError));
}

#[test]
fn decode_float_bits() {
    // -42f32 in wire form: every bit of the IEEE pattern flipped
    assert_eq!(
        decode_element(b"\x20\x3d\xd7\xff\xff").unwrap(),
        Element::Float32(0xC228_0000)
    );
}

#[test]
fn render_floats() {
    assert_eq!(rendered(b"\x20\x3d\xd7\xff\xff"), "-42f32");
    // 1.5f64: bits 0x3FF8000000000000, wire sets the sign bit
    assert_eq!(
        rendered(b"\x21\xbf\xf8\x00\x00\x00\x00\x00\x00"),
        "1.5f64"
    );
}

#[test]
fn render_scalars() {
    assert_eq!(rendered(&[0x00]), "nil");
    assert_eq!(rendered(&[0x26]), "false");
    assert_eq!(rendered(&[0x27]), "true");
    assert_eq!(rendered(&[0x13, 254]), "-1");
    assert_eq!(rendered(&[0x16, 1, 0]), "256");
}

#[test]
fn render_text_and_bytes() {
    assert_eq!(rendered(b"\x02hi\x00"), "\"hi\"");
    assert_eq!(rendered(&[0x01, 0x00, 0xFF, 0x00]), "b\"\\x00\"");
}

#[test]
fn render_tuples() {
    assert_eq!(rendered(&[]), "()");
    assert_eq!(rendered(&[0x00, 0x00]), "(nil, nil)");
    assert_eq!(rendered(&[0x05, 0x00, 0xFF, 0x00]), "((nil))");
    assert_eq!(
        rendered(b"\x02x\x00\x15\x01\x27"),
        "(\"x\", 1, true)"
    );
}

#[test]
fn render_uuid_hyphenated() {
    let mut enc = vec![0x30];
    enc.extend_from_slice(b"\xba\xff\xff\xff\xff\x5e\xba\x11\x00\x00\x00\x00\x5c\xa1\xab\x1e");
    assert_eq!(rendered(&enc), "uuid:baffffff-ff5e-ba11-0000-00005ca1ab1e");
}

#[test]
fn render_versionstamp_transaction_version() {
    let mut enc = vec![0x33];
    enc.extend_from_slice(b"\x01\x02\x03\x04\x05\x06\x07\x08\x09\x0a");
    enc.extend_from_slice(&[0x02, 0x91]);
    assert_eq!(
        decode_element(&enc).unwrap(),
        Element::Versionstamp(b"\x01\x02\x03\x04\x05\x06\x07\x08\x09\x0a".to_vec())
    );
    assert_eq!(rendered(&enc), "versionstamp:0102030405060708090a");
}

#[test]
fn render_is_deterministic() {
    let e = Element::Tuple(vec![
        Element::Text("k".to_string()),
        Element::Int(7),
        Element::Float32(0x3FC0_0000),
    ]);
    let once = format_element(&e);
    let twice = format_element(&e);
    assert_eq!(once, twice);
    assert_eq!(once, "(\"k\", 7, 1.5f32)");
}
