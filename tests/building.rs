use strata::encode::encode;
use strata::hash::hash_value;
use strata::value::{Value, ValueMap};

#[test]
fn macro_variants_construct_correctly() {
    let _ = Value::Null;

    let v = Value::Bool(true);
    assert!(matches!(v, Value::Bool(true)));

    let v = Value::Int(42);
    assert!(matches!(v, Value::Int(_)));

    let v = Value::String("hello".to_string());
    assert!(matches!(v, Value::String(_)));

    let v = Value::Bytes(vec![0xde, 0xad, 0xbe, 0xef]);
    assert!(matches!(v, Value::Bytes(_)));

    let v = Value::List(vec![Value::Null, Value::Bool(false)]);
    assert!(matches!(v, Value::List(_)));

    let mut m = ValueMap::new();
    m.insert("a".to_owned(), Value::Null);
    let v = Value::Mapping(m);
    assert!(matches!(v, Value::Mapping(_)));
}

#[test]
fn nesting_works() {
    let mut nested = ValueMap::new();
    nested.insert("x".to_owned(), Value::String("y".to_string()));
    let mut m = ValueMap::new();
    m.insert(
        "list".to_owned(),
        Value::List(vec![Value::Int(1), Value::Int(2), Value::Int(3)]),
    );
    m.insert("nested".to_owned(), Value::Mapping(nested));
    let v = Value::Mapping(m);

    match v {
        Value::Mapping(m) => {
            assert!(m.contains_key("list"));
            assert!(m.contains_key("nested"));
        }
        _ => panic!("Expected a map"),
    }
}

#[test]
fn map_duplicate_keys_are_last_write_wins() {
    let mut m = ValueMap::new();
    m.insert("a".to_owned(), Value::Int(1));
    m.insert("a".to_owned(), Value::Int(2));
    let v = Value::Mapping(m);

    match v {
        Value::Mapping(m) => {
            let got = m.get("a").expect("missing key a");
            assert!(matches!(got, Value::Int(2)));
        }
        _ => panic!("Expected a map"),
    }
}

#[test]
fn macro_built_map_matches_manual_map_structure() {
    let mut built = ValueMap::new();
    built.insert("a".to_owned(), Value::Int(1));
    built.insert("b".to_owned(), Value::String("x".to_owned()));
    built.insert("b".to_owned(), Value::String("y".to_owned()));
    let macro_v = Value::Mapping(built);

    let mut m = ValueMap::new();
    m.insert("a".to_owned(), Value::Int(1));
    m.insert("b".to_owned(), Value::String("y".to_owned()));
    let manual_v = Value::Mapping(m);

    assert_eq!(macro_v, manual_v);
}

#[test]
fn macro_encoding_and_hash_match_manual_equivalent() {
    let mut built = ValueMap::new();
    built.insert("a".to_owned(), Value::Int(1));
    built.insert("a".to_owned(), Value::Int(2));
    let macro_v = Value::Mapping(built);

    let mut m = ValueMap::new();
    m.insert("a".to_owned(), Value::Int(2));
    let manual_v = Value::Mapping(m);

    let macro_bytes = encode(&macro_v).expect("encoding failed");
    let manual_bytes = encode(&manual_v).expect("encoding failed");
    assert_eq!(macro_bytes, manual_bytes);

    assert_eq!(hash_value(&macro_v), hash_value(&manual_v));
}

#[test]
fn map_insert_returns_replaced_value() {
    let mut m = ValueMap::new();
    assert_eq!(m.insert("k".into(), Value::Int(1)), None);
    assert_eq!(m.insert("k".into(), Value::Int(2)), Some(Value::Int(1)));
    assert_eq!(m.len(), 1);
    assert_eq!(m.get("k"), Some(&Value::Int(2)));
    assert_eq!(m.get("missing"), None);
    assert!(!m.contains_key("missing"));
}

#[test]
fn map_entries_in_key_order() {
    let mut m = ValueMap::new();
    for k in ["m", "z", "a", "b"] {
        m.insert(k.into(), Value::Null);
    }
    let keys: Vec<String> = (0..m.len()).map(|i| m.entry(i).0.clone()).collect();
    assert_eq!(keys, vec!["a", "b", "m", "z"]);
}
