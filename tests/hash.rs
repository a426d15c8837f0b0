use strata::encode::encode_value;
use strata::hash::{hash_bytes, hash_value};
use strata::value::{Value, ValueMap};

#[test]
fn hash_is_deterministic() {
    let value = Value::Int(42);
    let hash1 = hash_value(&value);
    let hash2 = hash_value(&value);
    assert_eq!(hash1, hash2);
}

#[test]
fn hash_changes_on_value_change() {
    let value1 = Value::Int(42);
    let value2 = Value::Int(43);
    assert_ne!(hash_value(&value1), hash_value(&value2));
}

#[test]
fn hash_respects_structure() {
    let list_a = Value::List(vec![Value::Int(1), Value::Int(2)]);
    let list_b = Value::List(vec![Value::Int(2), Value::Int(1)]);
    assert_ne!(hash_value(&list_a), hash_value(&list_b));
}

#[test]
fn hash_is_blake3_of_encoding() {
    let value = Value::Int(1);
    let expected: [u8; 32] = blake3::hash(&[0x10, 0x01]).into();
    assert_eq!(hash_value(&value), expected);
    assert_eq!(hash_bytes(&encode_value(&value)), expected);
    assert_ne!(hash_bytes(&[0x10, 0x01]).to_vec(), vec![0x10, 0x01]);
}

#[test]
fn hash_ignores_insertion_order() {
    let mut m1 = ValueMap::new();
    m1.insert("b".into(), Value::Int(2));
    m1.insert("a".into(), Value::Int(1));
    let mut m2 = ValueMap::new();
    m2.insert("a".into(), Value::Int(1));
    m2.insert("b".into(), Value::Int(2));
    assert_eq!(hash_value(&Value::Mapping(m1)), hash_value(&Value::Mapping(m2)));
}
