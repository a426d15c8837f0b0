use strata::error::ParseErrorKind;
use strata::parser::{parse, Parser};
use strata::value::{Value, ValueMap};

#[test]
fn parse_null() {
    let mut p = Parser::new("null");
    assert_eq!(p.parse_value(), Some(Value::Null));
}

#[test]
fn parse_integer() {
    let mut p = Parser::new("42");
    assert_eq!(p.parse_value(), Some(Value::Int(42)));
}

#[test]
fn parse_string() {
    let mut p = Parser::new(r#""hello""#);
    assert_eq!(p.parse_value(), Some(Value::String("hello".into())));
}

#[test]
fn parse_boundary_integers() {
    let cases: [(&str, i64); 8] = [
        ("0", 0),
        ("1", 1),
        ("-1", -1),
        ("127", 127),
        ("-128", -128),
        ("9007199254740993", 9007199254740993),
        ("9223372036854775807", i64::MAX),
        ("-9223372036854775808", i64::MIN),
    ];
    for (src, n) in cases {
        assert_eq!(parse(src), Ok(Value::Int(n)), "{}", src);
    }
    let err = parse("9223372036854775808").unwrap_err();
    assert_eq!(err.kind, ParseErrorKind::IntegerOutOfRange);
}

#[test]
fn parse_list_forms() {
    assert_eq!(parse("[]"), Ok(Value::List(vec![])));
    assert_eq!(
        parse("[1, 2,]"),
        Ok(Value::List(vec![Value::Int(1), Value::Int(2)]))
    );
    assert!(parse("[1 2]").is_err());
    assert!(parse("[,]").is_err());
}

#[test]
fn parse_map_forms() {
    assert_eq!(parse("{}"), Ok(Value::Mapping(ValueMap::new())));
    let mut m = ValueMap::new();
    m.insert("a".into(), Value::Int(1));
    m.insert("b".into(), Value::Bool(false));
    assert_eq!(parse("{ a: 1, b: false, }"), Ok(Value::Mapping(m)));
    assert!(parse("{ a: 1,, }").is_err());
}

#[test]
fn parse_duplicate_keys_last_wins() {
    let mut m = ValueMap::new();
    m.insert("a".into(), Value::Int(2));
    assert_eq!(parse("{ a: 1, a: 2 }"), Ok(Value::Mapping(m)));
}

#[test]
fn parse_shorthand_nesting() {
    let mut inner = ValueMap::new();
    inner.insert("x".into(), Value::Int(1));
    let mut outer = ValueMap::new();
    outer.insert("a".into(), Value::Mapping(inner));
    assert_eq!(parse("a { x: 1 }"), Ok(Value::Mapping(outer)));
}

#[test]
fn parse_shorthand_entry_in_map() {
    let mut inner = ValueMap::new();
    inner.insert("y".into(), Value::Null);
    let mut outer = ValueMap::new();
    outer.insert("k".into(), Value::Mapping(inner));
    outer.insert("z".into(), Value::Int(3));
    assert_eq!(parse("{ k { y: null } z: 3 }"), Ok(Value::Mapping(outer)));
}

#[test]
fn parse_unexpected_token_spans() {
    let err = parse("{\n  a: }").unwrap_err();
    assert_eq!(
        err.kind,
        ParseErrorKind::UnexpectedToken { expected: "value", found: "}" }
    );
    assert_eq!((err.span.offset, err.span.line, err.span.column), (7, 2, 6));
    let err = parse("1 2").unwrap_err();
    assert_eq!(
        err.kind,
        ParseErrorKind::UnexpectedToken { expected: "end of input", found: "integer" }
    );
    assert_eq!(err.span.offset, 2);
}

#[test]
fn parse_malformed_literal() {
    let err = parse("{ a: 0x1 }").unwrap_err();
    assert_eq!(err.kind, ParseErrorKind::MalformedBytesLiteral);
    assert_eq!(err.span.offset, 5);
}
