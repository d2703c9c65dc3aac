use serde_ton::value::map::{key_compare, ObjectMap};
use serde_ton::value::num::{Float, Int, UInt};
use serde_ton::value::value::{KeyValue, Value};

#[test]
fn test_map_insert_get() {
    let mut m = ObjectMap::new();
    assert_eq!(m.len(), 0);
    assert!(m.insert(KeyValue::String("a".to_string()), Value::UInt(UInt::U8(1))).is_none());
    assert!(m.insert(KeyValue::String("b".to_string()), Value::UInt(UInt::U8(2))).is_none());
    assert_eq!(m.len(), 2);
    assert_eq!(
        m.get(&KeyValue::String("a".to_string())),
        Some(&Value::UInt(UInt::U8(1)))
    );
    assert_eq!(m.get(&KeyValue::String("c".to_string())), None);
    assert!(m.contains_key(&KeyValue::String("b".to_string())));
    assert!(!m.contains_key(&KeyValue::String("c".to_string())));
}

#[test]
fn test_map_insert_replaces() {
    let mut m = ObjectMap::new();
    m.insert(KeyValue::Bool(true), Value::UInt(UInt::U8(1)));
    let old = m.insert(KeyValue::Bool(true), Value::UInt(UInt::U8(2)));
    assert_eq!(old, Some(Value::UInt(UInt::U8(1))));
    assert_eq!(m.len(), 1);
    assert_eq!(m.get(&KeyValue::Bool(true)), Some(&Value::UInt(UInt::U8(2))));
}

#[test]
fn test_map_iteration_in_sort_order() {
    let mut m = ObjectMap::new();
    m.insert(KeyValue::String("zz".to_string()), Value::Null);
    m.insert(KeyValue::String("aa".to_string()), Value::Null);
    m.insert(KeyValue::Bool(false), Value::Null);
    m.insert(KeyValue::Int(Int::I8(3)), Value::Null);
    m.insert(KeyValue::Int(Int::I8(-3)), Value::Null);
    let keys: Vec<&KeyValue> = (0..m.len()).map(|i| &m.pair_at(i).0).collect();
    assert_eq!(
        keys,
        vec![
            &KeyValue::Bool(false),
            &KeyValue::Int(Int::I8(-3)),
            &KeyValue::Int(Int::I8(3)),
            &KeyValue::String("aa".to_string()),
            &KeyValue::String("zz".to_string()),
        ]
    );
}

#[test]
fn test_map_remove() {
    let mut m = ObjectMap::new();
    m.insert(KeyValue::Timestamp(1), Value::Bool(true));
    m.insert(KeyValue::Timestamp(2), Value::Bool(false));
    assert_eq!(m.remove(&KeyValue::Timestamp(1)), Some(Value::Bool(true)));
    assert_eq!(m.remove(&KeyValue::Timestamp(1)), None);
    assert_eq!(m.len(), 1);
    let entry = m.remove_entry(&KeyValue::Timestamp(2));
    assert_eq!(entry, Some((KeyValue::Timestamp(2), Value::Bool(false))));
    assert_eq!(m.len(), 0);
}

#[test]
fn test_map_append() {
    let mut a = ObjectMap::new();
    a.insert(KeyValue::UInt(UInt::U8(1)), Value::Bool(true));
    a.insert(KeyValue::UInt(UInt::U8(2)), Value::Bool(true));
    let mut b = ObjectMap::new();
    b.insert(KeyValue::UInt(UInt::U8(2)), Value::Bool(false));
    b.insert(KeyValue::UInt(UInt::U8(3)), Value::Bool(false));
    a.append(&mut b);
    assert_eq!(b.len(), 0);
    assert_eq!(a.len(), 3);
    // The moved map's value wins on the shared key.
    assert_eq!(a.get(&KeyValue::UInt(UInt::U8(2))), Some(&Value::Bool(false)));
}

#[test]
fn test_map_clear_and_capacity() {
    let mut m = ObjectMap::with_capacity(8);
    m.insert(KeyValue::Null, Value::Null);
    m.clear();
    assert_eq!(m.len(), 0);
}

#[test]
fn test_key_order_ranks_shapes() {
    // Shapes rank before payloads: bools before ints before strings.
    assert_eq!(key_compare(&KeyValue::Bool(true), &KeyValue::Int(Int::I8(0))), -1);
    assert_eq!(
        key_compare(&KeyValue::Int(Int::I64(9)), &KeyValue::String("".to_string())),
        -1
    );
    assert_eq!(key_compare(&KeyValue::Undefined, &KeyValue::Null), -1);
    assert_eq!(
        key_compare(&KeyValue::String("ab".to_string()), &KeyValue::String("b".to_string())),
        -1
    );
    assert_eq!(
        key_compare(&KeyValue::Bytes(vec![1, 2]), &KeyValue::Bytes(vec![1, 2, 0])),
        -1
    );
    assert_eq!(key_compare(&KeyValue::Duration(5), &KeyValue::Duration(5)), 0);
}

#[test]
fn test_key_order_floats_by_bits() {
    // Float keys order by width rank, then bit pattern.
    let a = KeyValue::Float(Float::F32(1.0f32.to_bits()));
    let b = KeyValue::Float(Float::F32(2.0f32.to_bits()));
    assert_eq!(key_compare(&a, &b), -1);
    let half = KeyValue::Float(Float::F16(half::f16::from_f32(9.0).to_bits()));
    assert_eq!(key_compare(&half, &a), -1);
}
