use strata::encode::{encode, encode_value};
use strata::decode::decode;
use strata::error::DecodeErrorKind;
use strata::framing::{decode_framed, encode_framed, write_frame};
use strata::value::{Value, ValueMap};
use strata::varint::{encode_sleb128, encode_uleb128};

#[test]
fn uleb128_basic() {
    let mut out = Vec::new();
    encode_uleb128(0, &mut out);
    assert_eq!(out, vec![0x00]);

    out.clear();
    encode_uleb128(1, &mut out);
    assert_eq!(out, vec![0x01]);

    out.clear();
    encode_uleb128(127, &mut out);
    assert_eq!(out, vec![0x7F]);

    out.clear();
    encode_uleb128(128, &mut out);
    assert_eq!(out, vec![0x80, 0x01]);
}

#[test]
fn sleb128_basic() {
    let mut out = Vec::new();
    encode_sleb128(0, &mut out);
    assert_eq!(out, vec![0x00]);

    out.clear();
    encode_sleb128(1, &mut out);
    assert_eq!(out, vec![0x01]);

    out.clear();
    encode_sleb128(-1, &mut out);
    assert_eq!(out, vec![0x7F]);

    out.clear();
    encode_sleb128(127, &mut out);
    assert_eq!(out, vec![0xFF, 0x00]);

    out.clear();
    encode_sleb128(-128, &mut out);
    assert_eq!(out, vec![0x80, 0x7F]);
}

#[test]
fn uleb128_max() {
    let mut out = Vec::new();
    encode_uleb128(u64::MAX, &mut out);
    assert_eq!(
        out,
        vec![0xFF, 0xFF, 0xFF, 0xFF, 0xFF, 0xFF, 0xFF, 0xFF, 0xFF, 0x01]
    );
}

#[test]
fn sleb128_extremes() {
    let mut out = Vec::new();
    encode_sleb128(i64::MIN, &mut out);
    assert_eq!(
        out,
        vec![0x80, 0x80, 0x80, 0x80, 0x80, 0x80, 0x80, 0x80, 0x80, 0x7F]
    );
    out.clear();
    encode_sleb128(i64::MAX, &mut out);
    assert_eq!(
        out,
        vec![0xFF, 0xFF, 0xFF, 0xFF, 0xFF, 0xFF, 0xFF, 0xFF, 0xFF, 0x00]
    );
}

#[test]
fn encode_null() {
    assert_eq!(encode_value(&Value::Null), vec![0x00]);
}

#[test]
fn encode_bool() {
    assert_eq!(encode_value(&Value::Bool(false)), vec![0x01]);
    assert_eq!(encode_value(&Value::Bool(true)), vec![0x02]);
}

#[test]
fn encode_int() {
    assert_eq!(encode_value(&Value::Int(1)), vec![0x10, 0x01]);
}

#[test]
fn encode_string() {
    let value = Value::String("hi".into());
    assert_eq!(encode_value(&value), vec![0x20, 0x02, b'h', b'i']);
}

#[test]
fn encode_empty_string() {
    assert_eq!(encode_value(&Value::String(String::new())), vec![0x20, 0x00]);
}

#[test]
fn encode_multibyte_string() {
    let value = Value::String("\u{e9}".into());
    assert_eq!(encode_value(&value), vec![0x20, 0x02, 0xC3, 0xA9]);
}

#[test]
fn encode_bytes() {
    let value = Value::Bytes(vec![0xDE, 0xAD]);
    assert_eq!(encode_value(&value), vec![0x21, 0x02, 0xDE, 0xAD]);
}

#[test]
fn encode_list() {
    let value = Value::List(vec![Value::Int(1), Value::Int(2)]);
    assert_eq!(
        encode_value(&value),
        vec![0x30, 0x02, 0x10, 0x01, 0x10, 0x02]
    );
}

#[test]
fn encode_map_sorted() {
    let mut map = ValueMap::new();
    map.insert("b".into(), Value::Int(2));
    map.insert("a".into(), Value::Int(1));

    let value = Value::Mapping(map);

    assert_eq!(
        encode_value(&value),
        vec![
            0x40, 0x02,
            0x20, 0x01, b'a', 0x10, 0x01,
            0x20, 0x01, b'b', 0x10, 0x02,
        ]
    );
}

#[test]
fn encode_empty_map() {
    assert_eq!(encode_value(&Value::Mapping(ValueMap::new())), vec![0x40, 0x00]);
}

#[test]
fn encode_keys_by_byte_order() {
    // "B" (0x42) sorts before "a" (0x61), and a prefix before its extension
    let mut map = ValueMap::new();
    map.insert("ab".into(), Value::Null);
    map.insert("a".into(), Value::Null);
    map.insert("B".into(), Value::Null);
    assert_eq!(
        encode_value(&Value::Mapping(map)),
        vec![
            0x40, 0x03,
            0x20, 0x01, b'B', 0x00,
            0x20, 0x01, b'a', 0x00,
            0x20, 0x02, b'a', b'b', 0x00,
        ]
    );
}

#[test]
fn encode_nested() {
    let value = Value::List(vec![Value::Mapping({
        let mut m = ValueMap::new();
        m.insert("x".into(), Value::Int(1));
        m
    })]);

    assert_eq!(
        encode_value(&value),
        vec![0x30, 0x01, 0x40, 0x01, 0x20, 0x01, b'x', 0x10, 0x01]
    );
}

#[test]
fn encode_result_form_matches() {
    let value = Value::List(vec![Value::Null, Value::Bool(true)]);
    assert_eq!(encode(&value), Ok(encode_value(&value)));
}

#[test]
fn framed_vs_unframed() {
    let value = Value::Int(1);

    let unframed = encode_value(&value);
    let framed = encode_framed(&value);

    assert_eq!(unframed, vec![0x10, 0x01]);

    assert_eq!(
        framed,
        vec![b'S', b'T', b'R', b'A', b'T', b'A', b'1', 0x01, 0x10, 0x01]
    );
}

#[test]
fn stream_frame_has_big_endian_length() {
    let mut buf = Vec::new();
    write_frame(&mut buf, &[0x10, 0x2A]);
    assert_eq!(buf, vec![0x00, 0x00, 0x00, 0x02, 0x10, 0x2A]);
    let payload = vec![0u8; 0x01_0203];
    let mut buf = Vec::new();
    write_frame(&mut buf, &payload);
    assert_eq!(&buf[..4], &[0x00, 0x01, 0x02, 0x03]);
    assert_eq!(buf.len(), 4 + 0x01_0203);
}

#[test]
fn framed_decode_checks_header() {
    let framed = encode_framed(&Value::Int(1));
    assert_eq!(decode_framed(&framed), Ok(Value::Int(1)));

    let mut bad_magic = framed.clone();
    bad_magic[2] = b'X';
    let e = decode_framed(&bad_magic).unwrap_err();
    assert_eq!((e.kind, e.offset), (DecodeErrorKind::InvalidTag(b'X'), 3));

    let mut bad_version = framed.clone();
    bad_version[7] = 0x02;
    let e = decode_framed(&bad_version).unwrap_err();
    assert_eq!((e.kind, e.offset), (DecodeErrorKind::InvalidTag(0x02), 8));

    let e = decode_framed(&framed[..5]).unwrap_err();
    assert_eq!((e.kind, e.offset), (DecodeErrorKind::UnexpectedEOF, 5));

    let mut trailing = framed.clone();
    trailing.push(0x00);
    let e = decode_framed(&trailing).unwrap_err();
    assert_eq!((e.kind, e.offset), (DecodeErrorKind::TrailingBytes, 10));
    assert!(decode(&framed).is_err());
}
