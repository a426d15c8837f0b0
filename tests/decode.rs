use strata::decode::{decode, decode_lenient, Decoder};
use strata::error::DecodeErrorKind;
use strata::value::{Value, ValueMap};

#[test]
fn decode_null() {
    let bytes = vec![0x00];
    assert_eq!(decode(&bytes).unwrap(), Value::Null);
}

#[test]
fn decode_bool() {
    assert_eq!(decode(&[0x01]).unwrap(), Value::Bool(false));
    assert_eq!(decode(&[0x02]).unwrap(), Value::Bool(true));
}

#[test]
fn decode_int() {
    assert_eq!(decode(&[0x10, 0x01]), Ok(Value::Int(1)));
}

#[test]
fn decode_string() {
    let bytes = vec![0x20, 0x02, b'h', b'i'];
    assert_eq!(decode(&bytes), Ok(Value::String("hi".into())));
}

#[test]
fn decode_bytes() {
    let bytes = vec![0x21, 0x02, 0xaa, 0xbb];
    assert_eq!(decode(&bytes), Ok(Value::Bytes(vec![0xaa, 0xbb])));
}

#[test]
fn decode_list() {
    let bytes = vec![0x30, 0x02, 0x10, 0x01, 0x10, 0x02];
    assert_eq!(
        decode(&bytes),
        Ok(Value::List(vec![Value::Int(1), Value::Int(2)]))
    );
}

#[test]
fn decode_map() {
    let bytes = vec![0x40, 0x01, 0x20, 0x01, b'a', 0x10, 0x01];
    let mut map = ValueMap::new();
    map.insert("a".into(), Value::Int(1));
    assert_eq!(decode(&bytes), Ok(Value::Mapping(map)));
}

#[test]
fn decode_nested() {
    let bytes = vec![0x40, 0x01, 0x20, 0x01, b'x', 0x30, 0x02, 0x02, 0x00];
    let mut map = ValueMap::new();
    map.insert(
        "x".into(),
        Value::List(vec![Value::Bool(true), Value::Null]),
    );
    assert_eq!(decode(&bytes), Ok(Value::Mapping(map)));
}

#[test]
fn decode_truncated_string() {
    let bytes = vec![0x20, 0x05, b'h'];
    let err = decode(&bytes).unwrap_err();
    assert_eq!(err.kind, DecodeErrorKind::UnexpectedEOF);
    assert_eq!(err.offset, 2);
}

#[test]
fn decode_invalid_tag() {
    let bytes = vec![0xFF];
    let err = decode(&bytes).unwrap_err();
    assert_eq!(err.kind, DecodeErrorKind::InvalidTag(0xFF));
    assert_eq!(err.offset, 1);
}

#[test]
fn decode_trailing_bytes() {
    let bytes = vec![0x00, 0x00];
    let err = decode(&bytes).unwrap_err();
    assert_eq!(err.kind, DecodeErrorKind::TrailingBytes);
    assert_eq!(err.offset, 1);
}

#[test]
fn decode_empty_input_is_eof() {
    let err = decode(&[]).unwrap_err();
    assert_eq!(err.kind, DecodeErrorKind::UnexpectedEOF);
    assert_eq!(err.offset, 0);
}

#[test]
fn decode_uleb_shift_overflow() {
    // a string length with ten continuation bytes
    let mut bytes = vec![0x20];
    bytes.extend(std::iter::repeat(0xFF).take(10));
    let err = decode(&bytes).unwrap_err();
    assert_eq!(err.kind, DecodeErrorKind::InvalidVarint);
    assert_eq!(err.offset, 11);
}

#[test]
fn decode_sleb_shift_overflow() {
    let mut bytes = vec![0x10];
    bytes.extend(std::iter::repeat(0x80).take(10));
    let err = decode(&bytes).unwrap_err();
    assert_eq!(err.kind, DecodeErrorKind::InvalidVarint);
    assert_eq!(err.offset, 11);
}

#[test]
fn decode_uleb_truncated() {
    let err = decode(&[0x21, 0x80]).unwrap_err();
    assert_eq!(err.kind, DecodeErrorKind::UnexpectedEOF);
    assert_eq!(err.offset, 2);
}

#[test]
fn decode_sleb_truncated() {
    let err = decode(&[0x10, 0xFF, 0xFF]).unwrap_err();
    assert_eq!(err.kind, DecodeErrorKind::UnexpectedEOF);
    assert_eq!(err.offset, 3);
}

#[test]
fn decode_sleb_extremes() {
    let min = vec![0x10, 0x80, 0x80, 0x80, 0x80, 0x80, 0x80, 0x80, 0x80, 0x80, 0x7F];
    assert_eq!(decode(&min), Ok(Value::Int(i64::MIN)));
    let max = vec![0x10, 0xFF, 0xFF, 0xFF, 0xFF, 0xFF, 0xFF, 0xFF, 0xFF, 0xFF, 0x00];
    assert_eq!(decode(&max), Ok(Value::Int(i64::MAX)));
}

#[test]
fn decode_invalid_utf8_string() {
    let err = decode(&[0x20, 0x02, 0xC3, 0x28]).unwrap_err();
    assert_eq!(err.kind, DecodeErrorKind::InvalidUtf8);
    assert_eq!(err.offset, 2);
}

#[test]
fn decode_map_key_must_be_string() {
    let err = decode(&[0x40, 0x01, 0x10, 0x01, 0x10, 0x01]).unwrap_err();
    assert_eq!(err.kind, DecodeErrorKind::InvalidTag(0x10));
    assert_eq!(err.offset, 3);
}

#[test]
fn decode_lenient_sorts_out_of_order_keys() {
    let bytes = vec![
        0x40, 0x02, 0x20, 0x01, b'b', 0x10, 0x02, 0x20, 0x01, b'a', 0x10, 0x01,
    ];
    let mut map = ValueMap::new();
    map.insert("a".into(), Value::Int(1));
    map.insert("b".into(), Value::Int(2));
    assert_eq!(decode_lenient(&bytes), Ok(Value::Mapping(map)));
}

#[test]
fn decode_count_beyond_input() {
    let err = decode(&[0x30, 0x05, 0x00]).unwrap_err();
    assert_eq!(err.kind, DecodeErrorKind::UnexpectedEOF);
    assert_eq!(err.offset, 2);
}

#[test]
fn decode_trailing_after_int() {
    let err = decode(&[0x10, 0x01, 0x00]).unwrap_err();
    assert_eq!(err.kind, DecodeErrorKind::TrailingBytes);
    assert_eq!(err.offset, 2);
}

#[test]
fn decode_accepts_canonical_input() {
    let bytes = vec![
        0x40, 0x02, 0x20, 0x01, b'a', 0x10, 0x01, 0x20, 0x01, b'b', 0x30, 0x01, 0x10, 0x7F,
    ];
    let v = decode(&bytes).unwrap();
    assert_eq!(decode_lenient(&bytes).unwrap(), v);
}

#[test]
fn decode_rejects_long_varints() {
    // 0 as a two-byte unsigned length, and 1 as a two-byte signed integer
    let err = decode(&[0x20, 0x80, 0x00]).unwrap_err();
    assert_eq!((err.kind, err.offset), (DecodeErrorKind::InvalidVarint, 3));
    assert_eq!(decode_lenient(&[0x20, 0x80, 0x00]), Ok(Value::String(String::new())));
    let err = decode(&[0x10, 0x81, 0x00]).unwrap_err();
    assert_eq!((err.kind, err.offset), (DecodeErrorKind::InvalidVarint, 3));
    assert_eq!(decode_lenient(&[0x10, 0x81, 0x00]), Ok(Value::Int(1)));
    let err = decode(&[0x10, 0x80, 0x00]).unwrap_err();
    assert_eq!((err.kind, err.offset), (DecodeErrorKind::InvalidVarint, 3));
    assert_eq!(decode_lenient(&[0x10, 0x80, 0x00]), Ok(Value::Int(0)));
}

#[test]
fn decode_rejects_key_order() {
    let out_of_order = vec![
        0x40, 0x02, 0x20, 0x01, b'b', 0x10, 0x02, 0x20, 0x01, b'a', 0x10, 0x01,
    ];
    let err = decode(&out_of_order).unwrap_err();
    assert_eq!((err.kind, err.offset), (DecodeErrorKind::InvalidTag(0x20), 10));
    let repeated = vec![
        0x40, 0x02, 0x20, 0x01, b'a', 0x10, 0x02, 0x20, 0x01, b'a', 0x10, 0x01,
    ];
    let err = decode(&repeated).unwrap_err();
    assert_eq!((err.kind, err.offset), (DecodeErrorKind::InvalidTag(0x20), 10));
    let mut m = ValueMap::new();
    m.insert("a".into(), Value::Int(1));
    assert_eq!(decode_lenient(&repeated), Ok(Value::Mapping(m)));
}

#[test]
fn decode_invalid_utf8_at_first_bad_byte() {
    let err = decode(&[0x20, 0x03, 0x61, 0x62, 0xFF]).unwrap_err();
    assert_eq!((err.kind, err.offset), (DecodeErrorKind::InvalidUtf8, 4));
    // a truncated two-byte character after "ab"
    let err = decode(&[0x20, 0x03, 0x61, 0x62, 0xC3]).unwrap_err();
    assert_eq!((err.kind, err.offset), (DecodeErrorKind::InvalidUtf8, 4));
    // "é" is valid, the stray continuation byte after it is not
    let err = decode(&[0x20, 0x03, 0xC3, 0xA9, 0xA9]).unwrap_err();
    assert_eq!((err.kind, err.offset), (DecodeErrorKind::InvalidUtf8, 4));
}

#[test]
fn decode_key_order_fault_points_into_key() {
    // "ab" then "aa": the second 'a' of "aa" (index 10) is below 'b'
    let bytes = vec![
        0x40, 0x02, 0x20, 0x02, b'a', b'b', 0x00, 0x20, 0x02, b'a', b'a', 0x00,
    ];
    let err = decode(&bytes).unwrap_err();
    assert_eq!((err.kind, err.offset), (DecodeErrorKind::InvalidTag(0x20), 11));
    // "ab" then "a": a prefix, reported after its last byte
    let bytes = vec![0x40, 0x02, 0x20, 0x02, b'a', b'b', 0x00, 0x20, 0x01, b'a', 0x00];
    let err = decode(&bytes).unwrap_err();
    assert_eq!((err.kind, err.offset), (DecodeErrorKind::InvalidTag(0x20), 10));
    // "a" then "": the empty key, reported just after its length
    let bytes = vec![0x40, 0x02, 0x20, 0x01, b'a', 0x00, 0x20, 0x00, 0x00];
    let err = decode(&bytes).unwrap_err();
    assert_eq!((err.kind, err.offset), (DecodeErrorKind::InvalidTag(0x20), 8));
}

#[test]
fn decoder_new_is_strict() {
    let bytes = [0x10, 0x80, 0x00];
    let mut strict = Decoder::new(&bytes);
    assert_eq!(strict.decode_value().unwrap_err().kind, DecodeErrorKind::InvalidVarint);
    let mut lenient = Decoder::new_lenient(&bytes);
    assert_eq!(lenient.decode_value(), Ok(Value::Int(0)));
}
