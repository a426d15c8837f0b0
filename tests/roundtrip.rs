use strata::decode::decode;
use strata::encode::{encode, encode_value};
use strata::error::DecodeErrorKind;
use strata::framing::encode_framed;
use strata::parser::parse;
use strata::value::{Value, ValueMap};

#[test]
fn roundtrip_structural_simple() {
    let input = r#"
            user {
                id: 42
                active: true
                name: "Gencho"
            }
        "#;

    let v1 = parse(input).expect("Parsing failed");
    let bytes = encode_value(&v1);
    let v2 = decode(&bytes).expect("Decoding failed");

    assert_eq!(v1, v2);
}

#[test]
fn roundtrip_allows_reordering() {
    let input = r#"
            data {
                z: 1
                a: 2
                m: 3
            }
        "#;

    let v1 = parse(input).expect("Parsing failed");
    let bytes = encode_value(&v1);
    let v2 = decode(&bytes).expect("Decoding failed");

    assert_eq!(v1, v2);
}

#[test]
fn roundtrip_nested() {
    let input = r#"
            profile {
                id: 9007199254740993
                tags: ["logistics", "state", "integrity"]
                avatar: 0xdeadbeef
            }
        "#;

    let v1 = parse(input).expect("Parsing failed");
    let bytes = encode_value(&v1);
    let v2 = decode(&bytes).expect("Decoding failed");

    assert_eq!(v1, v2);
}

fn neg_vector(bytes: &[u8], expected: DecodeErrorKind) {
    let err = decode(bytes).expect_err("decode should have failed");
    assert_eq!(err.kind, expected);
}

#[test]
fn neg_01_invalid_tag() {
    neg_vector(&[0x99], DecodeErrorKind::InvalidTag(0x99));
}

#[test]
fn neg_02_truncated_string() {
    neg_vector(&[0x20, 0x05, b'h', b'i'], DecodeErrorKind::UnexpectedEOF);
}

#[test]
fn neg_03_varint_overflow() {
    neg_vector(
        &[0x10, 0xFF, 0xFF, 0xFF, 0xFF, 0xFF, 0xFF, 0xFF, 0xFF, 0xFF, 0xFF, 0x01],
        DecodeErrorKind::InvalidVarint,
    );
}

#[test]
fn neg_04_invalid_utf8() {
    neg_vector(&[0x20, 0x02, 0xFF, 0xFE], DecodeErrorKind::InvalidUtf8);
}

#[test]
fn semantic_vector_config() {
    let input = r#"
            config {
                enabled: true
                retries: 3
                name: "strata"
                empty: null
            }
        "#;

    let value = parse(input);

    let mut config = ValueMap::new();
    config.insert("enabled".into(), Value::Bool(true));
    config.insert("retries".into(), Value::Int(3));
    config.insert("name".into(), Value::String("strata".into()));
    config.insert("empty".into(), Value::Null);

    let mut root = ValueMap::new();
    root.insert("config".into(), Value::Mapping(config));

    assert_eq!(value.unwrap(), Value::Mapping(root));
}

#[test]
fn semantic_vector_key_ordering() {
    let input = r#"
            data {
                z: 1
                a: 2
                m: 3
            }
        "#;

    let value = parse(input);

    let mut data = ValueMap::new();
    data.insert("a".into(), Value::Int(2));
    data.insert("m".into(), Value::Int(3));
    data.insert("z".into(), Value::Int(1));

    let mut root = ValueMap::new();
    root.insert("data".into(), Value::Mapping(data));

    assert_eq!(value.unwrap(), Value::Mapping(root));
}

#[test]
fn semantic_vector_profile() {
    let input = r#"
            profile {
                id: 9007199254740993
                avatar_hash: 0x9f86d081884c7d659a2feaa0c55ad015
                tags: ["logistics", "state", "integrity"]
            }
        "#;

    let value = parse(input);

    let mut profile = ValueMap::new();
    profile.insert("id".into(), Value::Int(9007199254740993));
    profile.insert(
        "avatar_hash".into(),
        Value::Bytes(vec![
            0x9f, 0x86, 0xd0, 0x81, 0x88, 0x4c, 0x7d, 0x65, 0x9a, 0x2f, 0xea, 0xa0, 0xc5, 0x5a,
            0xd0, 0x15,
        ]),
    );
    profile.insert(
        "tags".into(),
        Value::List(vec![
            Value::String("logistics".into()),
            Value::String("state".into()),
            Value::String("integrity".into()),
        ]),
    );

    let mut root = ValueMap::new();
    root.insert("profile".into(), Value::Mapping(profile));

    assert_eq!(value.unwrap(), Value::Mapping(root));
}

#[test]
fn scenario_scalars_encode() {
    assert_eq!(encode_value(&Value::Int(1)), vec![0x10, 0x01]);
    assert_eq!(encode_value(&Value::Null), vec![0x00]);
    assert_eq!(encode_value(&Value::Bool(false)), vec![0x01]);
    assert_eq!(encode_value(&Value::Bool(true)), vec![0x02]);
    assert_eq!(encode_value(&Value::String("hi".into())), vec![0x20, 0x02, 0x68, 0x69]);
    assert_eq!(encode_value(&Value::Bytes(vec![0xDE, 0xAD])), vec![0x21, 0x02, 0xDE, 0xAD]);
}

#[test]
fn scenario_map_input_order_irrelevant() {
    let expected = vec![
        0x40, 0x02, 0x20, 0x01, 0x61, 0x10, 0x01, 0x20, 0x01, 0x62, 0x10, 0x02,
    ];
    let mut m1 = ValueMap::new();
    m1.insert("b".into(), Value::Int(2));
    m1.insert("a".into(), Value::Int(1));
    let mut m2 = ValueMap::new();
    m2.insert("a".into(), Value::Int(1));
    m2.insert("b".into(), Value::Int(2));
    assert_eq!(encode_value(&Value::Mapping(m1)), expected);
    assert_eq!(encode_value(&Value::Mapping(m2)), expected);
}

#[test]
fn scenario_textual_duplicate_key() {
    let v = parse("{ a: 1, a: 2 }").unwrap();
    assert_eq!(encode_value(&v), vec![0x40, 0x01, 0x20, 0x01, 0x61, 0x10, 0x02]);
}

#[test]
fn scenario_framed_int() {
    assert_eq!(
        encode_framed(&Value::Int(1)),
        vec![0x53, 0x54, 0x52, 0x41, 0x54, 0x41, 0x31, 0x01, 0x10, 0x01]
    );
}

#[test]
fn scenario_malformed_inputs() {
    let e = decode(&[0x20, 0x05, 0x68]).unwrap_err();
    assert_eq!((e.kind, e.offset), (DecodeErrorKind::UnexpectedEOF, 2));
    let e = decode(&[0xFF]).unwrap_err();
    assert_eq!((e.kind, e.offset), (DecodeErrorKind::InvalidTag(0xFF), 1));
    let e = decode(&[0x00, 0x00]).unwrap_err();
    assert_eq!((e.kind, e.offset), (DecodeErrorKind::TrailingBytes, 1));
}

#[test]
fn parse_then_encode_ignores_layout() {
    let sources = [
        "{ a: 1, b: [true, null], c { d: \"x\" } }",
        "{c{d:\"x\"} b:[true,null,] a:1}",
        "# comment\n{\n  b: [ true , null ]\n  a: 0\n  c: { d: \"x\" },\n  a: 1,\n}",
    ];
    let first = encode(&parse(sources[0]).unwrap()).unwrap();
    for s in &sources[1..] {
        assert_eq!(encode(&parse(s).unwrap()).unwrap(), first, "{}", s);
    }
}

#[test]
fn canonical_bytes_reencode_identically() {
    let inputs: [&[u8]; 4] = [
        &[0x40, 0x02, 0x20, 0x01, 0x61, 0x10, 0x01, 0x20, 0x01, 0x62, 0x10, 0x02],
        &[0x30, 0x03, 0x00, 0x21, 0x01, 0xAB, 0x10, 0x80, 0x7F],
        &[0x20, 0x03, 0xE4, 0xB8, 0xAD],
        &[0x10, 0xFF, 0x00],
    ];
    for b in inputs {
        let v = decode(b).unwrap();
        assert_eq!(encode_value(&v), b.to_vec());
    }
}

#[test]
fn error_offsets_within_input() {
    let inputs: [&[u8]; 6] = [
        &[],
        &[0x30],
        &[0x30, 0x01],
        &[0x40, 0x01, 0x20],
        &[0x21, 0x03, 0x01],
        &[0x10, 0x80, 0x80],
    ];
    for b in inputs {
        let e = decode(b).unwrap_err();
        assert!(e.offset <= b.len());
    }
}
