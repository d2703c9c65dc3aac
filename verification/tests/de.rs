use serde_ton::de::{classify_prefix, ReverseDeserializer, TonTypes};
use serde_ton::error::Category;
use serde_ton::ser::ReverseSerializer;
use serde_ton::value::map::ObjectMap;
use serde_ton::value::num::{Float, Int, UInt};
use serde_ton::value::value::{KeyValue, Value};

fn encode(v: &Value) -> Vec<u8> {
    let mut ser = ReverseSerializer::new(Vec::new());
    ser.serialize_value(v).unwrap();
    ser.into_inner()
}

fn decode(bytes: &[u8]) -> Value {
    let mut de = ReverseDeserializer::from_slice(bytes).unwrap();
    de.deserialize_value().unwrap()
}

fn sample_object() -> Value {
    let mut m = ObjectMap::new();
    m.insert(
        KeyValue::String("field1".to_string()),
        Value::String("Hello, world!".to_string()),
    );
    m.insert(KeyValue::String("field2".to_string()), Value::UInt(UInt::U8(42)));
    m.insert(KeyValue::Bool(true), Value::Null);
    m.insert(KeyValue::Int(Int::I32(-7)), Value::Timestamp(1_700_000_000));
    m.insert(KeyValue::UUID([9u8; 16]), Value::Duration(42_000_000_000));
    Value::Object(m)
}

fn sample_value() -> Value {
    Value::Array(vec![
        Value::Undefined,
        Value::Null,
        Value::Bool(false),
        Value::Bool(true),
        Value::Int(Int::I8(-42)),
        Value::Int(Int::I16(-4200)),
        Value::Int(Int::I32(-420_000)),
        Value::Int(Int::I64(-42_000_000_000)),
        Value::UInt(UInt::U8(42)),
        Value::UInt(UInt::U16(4200)),
        Value::UInt(UInt::U32(420_000)),
        Value::UInt(UInt::U64(42_000_000_000)),
        Value::Float(Float::F16(half::f16::from_f32(1.5).to_bits())),
        Value::Float(Float::F32(1.5f32.to_bits())),
        Value::Float(Float::F64(1.5f64.to_bits())),
        Value::String("Hello, world!".to_string()),
        Value::Bytes(b"raw bytes".to_vec()),
        Value::UUID(*uuid::Uuid::parse_str("123e4567-e89b-12d3-a456-426614174000")
            .unwrap()
            .as_bytes()),
        Value::DateTime("2014-11-28T12:00:09+00:00".to_string()),
        Value::Timestamp(1_700_000_000),
        Value::Duration(42_000_000_000),
        Value::WrappedJSON("{\"key\":\"value\"}".to_string()),
        Value::Meta(Box::new(Value::String("meta_value".to_string()))),
        sample_object(),
        Value::Array(Vec::new()),
    ])
}

#[test]
fn test_round_trip_scalars() {
    for v in [
        Value::Undefined,
        Value::Null,
        Value::Bool(true),
        Value::Bool(false),
        Value::Int(Int::I8(i8::MIN)),
        Value::Int(Int::I64(i64::MAX)),
        Value::UInt(UInt::U64(u64::MAX)),
        Value::Timestamp(-1),
        Value::Duration(i64::MIN),
        Value::String(String::new()),
        Value::Bytes(Vec::new()),
    ] {
        let bytes = encode(&v);
        assert_eq!(decode(&bytes), v);
    }
}

#[test]
fn test_round_trip_tree() {
    let v = sample_value();
    let bytes = encode(&v);
    assert_eq!(decode(&bytes), v);
}

#[test]
fn test_round_trip_with_self_describe_tag() {
    let v = sample_object();
    let mut ser = ReverseSerializer::new(Vec::new());
    ser.serialize_value(&v).unwrap();
    ser.self_describe().unwrap();
    let bytes = ser.into_inner();
    assert_eq!(decode(&bytes), v);
}

#[test]
fn test_padding_transparency() {
    // Padding appended after a value is invisible to the decoder, for any
    // padding length including zero.
    let v = sample_value();
    for n in [0usize, 1, 5, 255, 256] {
        let mut ser = ReverseSerializer::new(Vec::new());
        ser.serialize_value(&v).unwrap();
        ser.serialize_padding(n).unwrap();
        let bytes = ser.into_inner();
        assert_eq!(decode(&bytes), v);
    }
}

#[test]
fn test_padding_chain_transparency() {
    let v = Value::String("Hello, world!".to_string());
    let mut ser = ReverseSerializer::new(Vec::new());
    ser.serialize_value(&v).unwrap();
    ser.serialize_padding(3).unwrap();
    ser.serialize_padding(1).unwrap();
    ser.serialize_padding(300).unwrap();
    let bytes = ser.into_inner();
    assert_eq!(decode(&bytes), v);
}

#[test]
fn test_canonical_encoding_equal_maps() {
    // Two maps holding equal entries encode byte-identically, whatever
    // order the entries were inserted in.
    let mut m1 = ObjectMap::new();
    m1.insert(KeyValue::String("a".to_string()), Value::UInt(UInt::U8(1)));
    m1.insert(KeyValue::String("b".to_string()), Value::UInt(UInt::U8(2)));
    let mut m2 = ObjectMap::new();
    m2.insert(KeyValue::String("b".to_string()), Value::UInt(UInt::U8(2)));
    m2.insert(KeyValue::String("a".to_string()), Value::UInt(UInt::U8(1)));
    assert_eq!(encode(&Value::Object(m1)), encode(&Value::Object(m2)));
}

#[test]
fn test_reversibility_forward_read_rejected() {
    // Read head-to-tail (bytes reversed), a non-trivial stream must not
    // decode to the same value; this one is rejected outright.
    let v = Value::String("Hello, world!".to_string());
    let mut bytes = encode(&v);
    bytes.reverse();
    let mut de = ReverseDeserializer::from_slice(&bytes).unwrap();
    let r = de.deserialize_value();
    assert!(r.is_err());
}

#[test]
fn test_depth_balanced_after_encode() {
    // The nesting counter returns to zero after each complete top-level
    // value, so the byte counter matches the bytes delivered.
    let v = sample_value();
    let mut ser = ReverseSerializer::new(Vec::new());
    ser.serialize_value(&v).unwrap();
    let size = ser.size();
    let out = ser.into_inner();
    assert_eq!(size, out.len());
}

#[test]
fn test_decode_empty_is_eof() {
    let bytes: Vec<u8> = Vec::new();
    let mut de = ReverseDeserializer::from_slice(&bytes).unwrap();
    let e = de.deserialize_value().unwrap_err();
    assert_eq!(e.classify(), Category::Eof);
}

#[test]
fn test_decode_unknown_family() {
    // 0x52 has family bits no type family uses.
    let bytes = vec![0x52u8];
    let mut de = ReverseDeserializer::from_slice(&bytes).unwrap();
    let e = de.deserialize_value().unwrap_err();
    assert_eq!(e.classify(), Category::UnknownFormat);
    assert_eq!(e.pos(), 1);
}

#[test]
fn test_decode_illegal_bool_class() {
    // BOOL carries its value in the low bits; 2 and 3 are illegal there.
    let bytes = vec![0x06u8];
    let mut de = ReverseDeserializer::from_slice(&bytes).unwrap();
    let e = de.deserialize_value().unwrap_err();
    assert_eq!(e.classify(), Category::UnknownFormat);
}

#[test]
fn test_decode_truncated_value_is_eof() {
    // A u64 frame whose value field is missing.
    let bytes = vec![0x0Fu8];
    let mut de = ReverseDeserializer::from_slice(&bytes).unwrap();
    let e = de.deserialize_value().unwrap_err();
    assert_eq!(e.classify(), Category::Eof);
    assert_eq!(e.pos(), 1);
}

#[test]
fn test_decode_invalid_utf8_is_syntax() {
    // A STRING frame whose payload is not UTF-8.
    let bytes = vec![0xFFu8, 0xFE, 2, 0x14];
    let mut de = ReverseDeserializer::from_slice(&bytes).unwrap();
    let e = de.deserialize_value().unwrap_err();
    assert_eq!(e.classify(), Category::Syntax);
}

#[test]
fn test_decode_composite_key_is_invalid_type() {
    // An OBJECT whose key position holds an ARRAY: the NONE value byte,
    // then an empty-array frame in key position, under a 3-byte header.
    let bytes = vec![0x00u8, 0x00, 0x2C, 0x03, 0x30];
    let mut de = ReverseDeserializer::from_slice(&bytes).unwrap();
    let e = de.deserialize_value().unwrap_err();
    assert_eq!(e.classify(), Category::InvalidType);
}

#[test]
fn test_decode_unsorted_object_is_syntax() {
    // Two entries with the same key cannot be a canonical object.
    let mut ser = ReverseSerializer::new(Vec::new());
    let c = ser.serialize_map(None).unwrap();
    ser.serialize_entry(
        &Value::String("k".to_string()),
        &Value::UInt(UInt::U8(1)),
    )
    .unwrap();
    ser.serialize_entry(
        &Value::String("k".to_string()),
        &Value::UInt(UInt::U8(2)),
    )
    .unwrap();
    ser.end_map(c).unwrap();
    let bytes = ser.into_inner();
    let mut de = ReverseDeserializer::from_slice(&bytes).unwrap();
    let e = de.deserialize_value().unwrap_err();
    assert_eq!(e.classify(), Category::Syntax);
}

#[test]
fn test_decode_from_vec() {
    let v = sample_object();
    let bytes = encode(&v);
    let mut de = ReverseDeserializer::from_vec(&bytes).unwrap();
    assert_eq!(de.deserialize_value().unwrap(), v);
    let back = de.into_inner();
    assert_eq!(back, &bytes);
}

#[test]
fn test_streaming_two_values() {
    // Two complete values written in sequence are read back-to-front.
    let first = Value::UInt(UInt::U8(1));
    let second = Value::String("two".to_string());
    let mut ser = ReverseSerializer::new(Vec::new());
    ser.serialize_value(&first).unwrap();
    ser.serialize_value(&second).unwrap();
    let bytes = ser.into_inner();
    let mut de = ReverseDeserializer::from_slice(&bytes).unwrap();
    assert_eq!(de.deserialize_value().unwrap(), second);
    assert_eq!(de.deserialize_value().unwrap(), first);
}

#[test]
fn test_read_header() {
    let v = Value::String("Hello, world!".to_string());
    let bytes = encode(&v);
    let mut de = ReverseDeserializer::from_slice(&bytes).unwrap();
    // Step onto the prefix byte, then read the header before it.
    de.prev().unwrap();
    let (len, header) = de.read_header().unwrap();
    assert_eq!(len, 13);
    assert_eq!(header, 0x14);
}

#[test]
fn test_size_counts_all_bytes() {
    let mut ser = ReverseSerializer::new(Vec::new());
    assert_eq!(ser.size(), 0);
    ser.serialize_u8(42).unwrap();
    assert_eq!(ser.size(), 2);
    ser.serialize_str("abc").unwrap();
    assert_eq!(ser.size(), 7);
    ser.self_describe().unwrap();
    assert_eq!(ser.size(), 11);
}

#[test]
fn test_classify_prefix() {
    assert_eq!(classify_prefix(0x00u8), Some(TonTypes::Null));
    assert_eq!(classify_prefix(0x05), Some(TonTypes::Bool));
    assert_eq!(classify_prefix(0x0C), Some(TonTypes::UIntU8));
    assert_eq!(classify_prefix(0x14), Some(TonTypes::String));
    assert_eq!(classify_prefix(0x27), Some(TonTypes::Timestamp));
    assert_eq!(classify_prefix(0x2C), Some(TonTypes::Array));
    assert_eq!(classify_prefix(0x31), Some(TonTypes::Object));
    assert_eq!(classify_prefix(0xFC), Some(TonTypes::Undefined));
    // Padding frames carry no value, and 0x52 names no family at all.
    assert_eq!(classify_prefix(0x3C), None);
    assert_eq!(classify_prefix(0x52), None);
}

#[test]
fn test_padding_inside_composite() {
    // Padding between elements sits at a value boundary inside the array
    // payload; the reverse reader skips it there too.
    let mut ser = ReverseSerializer::new(Vec::new());
    let c = ser.serialize_seq(None).unwrap();
    ser.serialize_u8(1).unwrap();
    ser.serialize_padding(2).unwrap();
    ser.serialize_u8(2).unwrap();
    ser.end_seq(c).unwrap();
    let bytes = ser.into_inner();
    let decoded = decode(&bytes);
    assert_eq!(
        decoded,
        Value::Array(vec![Value::UInt(UInt::U8(1)), Value::UInt(UInt::U8(2))])
    );
}
