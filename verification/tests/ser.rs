use serde_ton::ser::{generate_header, ExtendSerialize, ReverseSerializer};
use serde_ton::value::num::UInt;
use serde_ton::value::prefix::{
    ARRAY, BOOL, BYTES, DATETIME, DURATION, FLOAT, INT, META, NULL, OBJECT, PADDING,
    SIZE_PREFIX_1BYTE, SIZE_PREFIX_2BYTE, SIZE_PREFIX_4BYTE, SIZE_PREFIX_8BYTE, STRING, TIMESTAMP,
    UINT, UUID, WRAPPED_JSON,
};
use serde_ton::value::value::Value;

#[test]
fn test_serialize_bool() {
    let mut serializer = ReverseSerializer::new(Vec::new());
    serializer.serialize_bool(true).unwrap();
    let out = serializer.into_inner();
    let expected = vec![1 | BOOL];
    assert_eq!(out, expected);
}

#[test]
fn test_serialize_u8() {
    let mut serializer = ReverseSerializer::new(Vec::new());
    serializer.serialize_u8(42).unwrap();
    let out = serializer.into_inner();
    let expected = vec![42, UINT | SIZE_PREFIX_1BYTE];
    assert_eq!(out, expected);
}

#[test]
fn test_serialize_u16() {
    let mut serializer = ReverseSerializer::new(Vec::new());
    serializer.serialize_u16(42).unwrap();
    let out = serializer.into_inner();
    let expected = vec![42, 0, UINT | SIZE_PREFIX_2BYTE];
    assert_eq!(out, expected);
}

#[test]
fn test_serialize_u32() {
    let mut serializer = ReverseSerializer::new(Vec::new());
    serializer.serialize_u32(42).unwrap();
    let out = serializer.into_inner();
    let expected = vec![42, 0, 0, 0, UINT | SIZE_PREFIX_4BYTE];
    assert_eq!(out, expected);
}

#[test]
fn test_serialize_u64() {
    let mut serializer = ReverseSerializer::new(Vec::new());
    serializer.serialize_u64(42).unwrap();
    let out = serializer.into_inner();
    let expected = vec![42, 0, 0, 0, 0, 0, 0, 0, UINT | SIZE_PREFIX_8BYTE];
    assert_eq!(out, expected);
}

#[test]
fn test_serialize_i8() {
    let mut serializer = ReverseSerializer::new(Vec::new());
    serializer.serialize_i8(-42).unwrap();
    let out = serializer.into_inner();
    let expected = vec![-42i8.to_le() as u8, INT | SIZE_PREFIX_1BYTE];
    assert_eq!(out, expected);
}

#[test]
fn test_serialize_i16() {
    let mut serializer = ReverseSerializer::new(Vec::new());
    serializer.serialize_i16(-42).unwrap();
    let out = serializer.into_inner();
    let i16_bytes = (-42i16).to_le_bytes();
    let expected = vec![i16_bytes[0], i16_bytes[1], INT | SIZE_PREFIX_2BYTE];
    assert_eq!(out, expected);
}

#[test]
fn test_serialize_i32() {
    let mut serializer = ReverseSerializer::new(Vec::new());
    serializer.serialize_i32(-42).unwrap();
    let out = serializer.into_inner();
    let i32_bytes = (-42i32).to_le_bytes();
    let expected = vec![
        i32_bytes[0],
        i32_bytes[1],
        i32_bytes[2],
        i32_bytes[3],
        INT | SIZE_PREFIX_4BYTE,
    ];
    assert_eq!(out, expected);
}

#[test]
fn test_serialize_i64() {
    let mut serializer = ReverseSerializer::new(Vec::new());
    serializer.serialize_i64(-42).unwrap();
    let out = serializer.into_inner();
    let i64_bytes = (-42i64).to_le_bytes();
    let expected = vec![
        i64_bytes[0],
        i64_bytes[1],
        i64_bytes[2],
        i64_bytes[3],
        i64_bytes[4],
        i64_bytes[5],
        i64_bytes[6],
        i64_bytes[7],
        INT | SIZE_PREFIX_8BYTE,
    ];
    assert_eq!(out, expected);
}

#[test]
fn test_serialize_f32() {
    let mut serializer = ReverseSerializer::new(Vec::new());
    serializer.serialize_f32(42.0f32.to_bits()).unwrap();
    let out = serializer.into_inner();
    let f32_bytes = 42.0f32.to_le_bytes();
    let expected = vec![
        f32_bytes[0],
        f32_bytes[1],
        f32_bytes[2],
        f32_bytes[3],
        FLOAT | SIZE_PREFIX_4BYTE,
    ];
    assert_eq!(out, expected);
}

#[test]
fn test_serialize_f64() {
    let mut serializer = ReverseSerializer::new(Vec::new());
    serializer.serialize_f64(42.0f64.to_bits()).unwrap();
    let out = serializer.into_inner();
    let f64_bytes = 42.0f64.to_le_bytes();
    let expected = vec![
        f64_bytes[0],
        f64_bytes[1],
        f64_bytes[2],
        f64_bytes[3],
        f64_bytes[4],
        f64_bytes[5],
        f64_bytes[6],
        f64_bytes[7],
        FLOAT | SIZE_PREFIX_8BYTE,
    ];
    assert_eq!(out, expected);
}

#[test]
fn test_serialize_char() {
    let mut serializer = ReverseSerializer::new(Vec::new());
    serializer.serialize_char('A').unwrap();
    let mut out = serializer.into_inner();
    let expected = vec![STRING | SIZE_PREFIX_1BYTE, 1, b'A'];
    out.reverse();
    assert_eq!(out, expected);
}

#[test]
fn test_serialize_str() {
    let mut serializer = ReverseSerializer::new(Vec::new());
    serializer.serialize_str("Hello, world!").unwrap();
    let out = serializer.into_inner();
    let expected = vec![
        b'H', b'e', b'l', b'l', b'o', b',', b' ', b'w', b'o', b'r', b'l', b'd', b'!', 13,
        STRING | SIZE_PREFIX_1BYTE,
    ];
    assert_eq!(out, expected);
}

#[test]
fn test_serialize_bytes() {
    let mut serializer = ReverseSerializer::new(Vec::new());
    serializer.serialize_bytes(b"Hello, world!").unwrap();
    let out = serializer.into_inner();
    let expected = vec![
        b'H', b'e', b'l', b'l', b'o', b',', b' ', b'w', b'o', b'r', b'l', b'd', b'!', 13,
        BYTES | SIZE_PREFIX_1BYTE,
    ];
    assert_eq!(out, expected);
}

#[test]
fn test_serialize_none() {
    let mut serializer = ReverseSerializer::new(Vec::new());
    serializer.serialize_none().unwrap();
    let out = serializer.into_inner();
    let expected = vec![NULL];
    assert_eq!(out, expected);
}

#[test]
fn test_serialize_some() {
    let mut serializer = ReverseSerializer::new(Vec::new());
    serializer.serialize_some(&Value::UInt(UInt::U8(42))).unwrap();
    let out = serializer.into_inner();
    let expected = vec![42, UINT | SIZE_PREFIX_1BYTE];
    assert_eq!(out, expected);
}

#[test]
fn test_serialize_unit() {
    let mut serializer = ReverseSerializer::new(Vec::new());
    serializer.serialize_unit().unwrap();
    let out = serializer.into_inner();
    let expected = vec![NULL];
    assert_eq!(out, expected);
}

#[test]
fn test_serialize_unit_struct() {
    let mut serializer = ReverseSerializer::new(Vec::new());
    serializer.serialize_unit_struct("Unit").unwrap();
    let out = serializer.into_inner();
    let expected = vec![NULL];
    assert_eq!(out, expected);
}

#[test]
fn test_serialize_unit_variant() {
    let mut serializer = ReverseSerializer::new(Vec::new());
    serializer.serialize_unit_variant("Unit", 0, "Variant").unwrap();
    let out = serializer.into_inner();
    let expected = vec![
        b'V', b'a', b'r', b'i', b'a', b'n', b't', 7, STRING | SIZE_PREFIX_1BYTE,
    ];
    assert_eq!(out, expected);
}

#[test]
fn test_serialize_newtype_struct() {
    let mut serializer = ReverseSerializer::new(Vec::new());
    serializer
        .serialize_newtype_struct("Newtype", &Value::UInt(UInt::U8(42)))
        .unwrap();
    let out = serializer.into_inner();
    let expected = vec![42, UINT | SIZE_PREFIX_1BYTE];
    assert_eq!(out, expected);
}

#[test]
fn test_serialize_newtype_variant() {
    let mut serializer = ReverseSerializer::new(Vec::new());
    serializer
        .serialize_newtype_variant("Newtype", 0, "Variant", &Value::UInt(UInt::U8(42)))
        .unwrap();
    let out = serializer.into_inner();
    let expected = vec![
        42,
        UINT | SIZE_PREFIX_1BYTE,
        b'V',
        b'a',
        b'r',
        b'i',
        b'a',
        b'n',
        b't',
        7,
        STRING | SIZE_PREFIX_1BYTE,
        11,
        OBJECT | SIZE_PREFIX_1BYTE,
    ];
    assert_eq!(out, expected);
}

#[test]
fn test_serialize_seq() {
    let mut serializer = ReverseSerializer::new(Vec::new());
    let seq = serializer.serialize_seq(None).unwrap();
    serializer.serialize_str("Hello, world!").unwrap();
    serializer.serialize_u8(42).unwrap();
    serializer.end_seq(seq).unwrap();
    let out = serializer.into_inner();
    let expected = vec![
        b'H',
        b'e',
        b'l',
        b'l',
        b'o',
        b',',
        b' ',
        b'w',
        b'o',
        b'r',
        b'l',
        b'd',
        b'!',
        13,
        STRING | SIZE_PREFIX_1BYTE,
        42,
        UINT | SIZE_PREFIX_1BYTE,
        17,
        ARRAY | SIZE_PREFIX_1BYTE,
    ];
    assert_eq!(out, expected);
}

#[test]
fn test_serialize_tuple() {
    let mut serializer = ReverseSerializer::new(Vec::new());
    let tuple = serializer.serialize_tuple(2).unwrap();
    serializer.serialize_str("Hello, world!").unwrap();
    serializer.serialize_u8(42).unwrap();
    serializer.end_seq(tuple).unwrap();
    let out = serializer.into_inner();
    let expected = vec![
        b'H',
        b'e',
        b'l',
        b'l',
        b'o',
        b',',
        b' ',
        b'w',
        b'o',
        b'r',
        b'l',
        b'd',
        b'!',
        13,
        STRING | SIZE_PREFIX_1BYTE,
        42,
        UINT | SIZE_PREFIX_1BYTE,
        17,
        ARRAY | SIZE_PREFIX_1BYTE,
    ];
    assert_eq!(out, expected);
}

#[test]
fn test_serialize_tuple_struct() {
    let mut serializer = ReverseSerializer::new(Vec::new());
    let tuple = serializer.serialize_tuple_struct("Tuple", 2).unwrap();
    serializer.serialize_str("Hello, world!").unwrap();
    serializer.serialize_u8(42).unwrap();
    serializer.end_seq(tuple).unwrap();
    let out = serializer.into_inner();
    let expected = vec![
        b'H',
        b'e',
        b'l',
        b'l',
        b'o',
        b',',
        b' ',
        b'w',
        b'o',
        b'r',
        b'l',
        b'd',
        b'!',
        13,
        STRING | SIZE_PREFIX_1BYTE,
        42,
        UINT | SIZE_PREFIX_1BYTE,
        17,
        ARRAY | SIZE_PREFIX_1BYTE,
    ];
    assert_eq!(out, expected);
}

#[test]
fn test_serialize_tuple_variant() {
    let mut serializer = ReverseSerializer::new(Vec::new());
    let tv = serializer
        .serialize_tuple_variant("TestEnum", 0, "TupleVariant", 2)
        .unwrap();
    serializer.serialize_str("Hello, world!").unwrap();
    serializer.serialize_u8(42).unwrap();
    serializer.end_tuple_variant(tv).unwrap();
    let out = serializer.into_inner();
    let expected = vec![
        b'H',
        b'e',
        b'l',
        b'l',
        b'o',
        b',',
        b' ',
        b'w',
        b'o',
        b'r',
        b'l',
        b'd',
        b'!',
        13,
        STRING | SIZE_PREFIX_1BYTE,
        42,
        UINT | SIZE_PREFIX_1BYTE,
        17,
        ARRAY | SIZE_PREFIX_1BYTE,
        b'T',
        b'u',
        b'p',
        b'l',
        b'e',
        b'V',
        b'a',
        b'r',
        b'i',
        b'a',
        b'n',
        b't',
        12,
        STRING | SIZE_PREFIX_1BYTE,
        33,
        OBJECT | SIZE_PREFIX_1BYTE,
    ];
    assert_eq!(out, expected);
}

#[test]
fn test_serialize_map() {
    let mut serializer = ReverseSerializer::new(Vec::new());
    let map = serializer.serialize_map(Some(1)).unwrap();
    serializer
        .serialize_entry(
            &Value::String("Hello, world!".to_string()),
            &Value::UInt(UInt::U8(42)),
        )
        .unwrap();
    serializer.end_map(map).unwrap();
    let out = serializer.into_inner();
    let expected = vec![
        42,
        UINT | SIZE_PREFIX_1BYTE,
        b'H',
        b'e',
        b'l',
        b'l',
        b'o',
        b',',
        b' ',
        b'w',
        b'o',
        b'r',
        b'l',
        b'd',
        b'!',
        13,
        STRING | SIZE_PREFIX_1BYTE,
        17,
        OBJECT | SIZE_PREFIX_1BYTE,
    ];
    assert_eq!(out, expected);
}

#[test]
fn test_serialize_struct() {
    let mut serializer = ReverseSerializer::new(Vec::new());
    let st = serializer.serialize_struct("TestStruct", 2).unwrap();
    serializer
        .serialize_field("field1", &Value::String("Hello, world!".to_string()))
        .unwrap();
    serializer
        .serialize_field("field2", &Value::UInt(UInt::U8(42)))
        .unwrap();
    serializer.end_map(st).unwrap();
    let out = serializer.into_inner();
    let expected = vec![
        b'H',
        b'e',
        b'l',
        b'l',
        b'o',
        b',',
        b' ',
        b'w',
        b'o',
        b'r',
        b'l',
        b'd',
        b'!',
        13,
        STRING | SIZE_PREFIX_1BYTE,
        b'f',
        b'i',
        b'e',
        b'l',
        b'd',
        b'1',
        6,
        STRING | SIZE_PREFIX_1BYTE,
        42,
        UINT | SIZE_PREFIX_1BYTE,
        b'f',
        b'i',
        b'e',
        b'l',
        b'd',
        b'2',
        6,
        STRING | SIZE_PREFIX_1BYTE,
        33,
        OBJECT | SIZE_PREFIX_1BYTE,
    ];
    assert_eq!(out, expected);
}

#[test]
fn test_serialize_struct_variant() {
    let mut serializer = ReverseSerializer::new(Vec::new());
    let sv = serializer
        .serialize_struct_variant("TestEnum", 0, "StructVariant", 2)
        .unwrap();
    serializer
        .serialize_field("field1", &Value::String("Hello, world!".to_string()))
        .unwrap();
    serializer
        .serialize_field("field2", &Value::UInt(UInt::U8(42)))
        .unwrap();
    serializer.end_struct_variant(sv).unwrap();
    let out = serializer.into_inner();
    let expected = vec![
        b'H',
        b'e',
        b'l',
        b'l',
        b'o',
        b',',
        b' ',
        b'w',
        b'o',
        b'r',
        b'l',
        b'd',
        b'!',
        13,
        STRING | SIZE_PREFIX_1BYTE,
        b'f',
        b'i',
        b'e',
        b'l',
        b'd',
        b'1',
        6,
        STRING | SIZE_PREFIX_1BYTE,
        42,
        UINT | SIZE_PREFIX_1BYTE,
        b'f',
        b'i',
        b'e',
        b'l',
        b'd',
        b'2',
        6,
        STRING | SIZE_PREFIX_1BYTE,
        33,
        OBJECT | SIZE_PREFIX_1BYTE,
        b'S',
        b't',
        b'r',
        b'u',
        b'c',
        b't',
        b'V',
        b'a',
        b'r',
        b'i',
        b'a',
        b'n',
        b't',
        13,
        STRING | SIZE_PREFIX_1BYTE,
        50,
        OBJECT | SIZE_PREFIX_1BYTE,
    ];
    assert_eq!(out, expected);
}

#[test]
fn test_serialize_f16() {
    let mut serializer = ReverseSerializer::new(Vec::new());
    serializer
        .serialize_f16(half::f16::from_f32(42.0f32).to_bits())
        .unwrap();
    let out = serializer.into_inner();
    let f16_bytes = half::f16::from_f32(42.0f32).to_le_bytes();
    let expected = vec![f16_bytes[0], f16_bytes[1], FLOAT | SIZE_PREFIX_2BYTE];
    assert_eq!(out, expected);
}

#[test]
fn test_serialize_uuid() {
    let uuid = uuid::Uuid::parse_str("123e4567-e89b-12d3-a456-426614174000").unwrap();
    let mut serializer = ReverseSerializer::new(Vec::new());
    serializer.serialize_uuid(uuid.as_bytes()).unwrap();
    let out = serializer.into_inner();
    let uuid_bytes = uuid.as_bytes();
    let mut expected = Vec::with_capacity(17);
    expected.extend_from_slice(uuid_bytes);
    expected.push(UUID | SIZE_PREFIX_1BYTE);
    assert_eq!(out, expected);
}

#[test]
fn test_serialize_datetime() {
    let datetime = chrono::Utc::now();
    let mut serializer = ReverseSerializer::new(Vec::new());
    serializer.serialize_datetime(&datetime.to_rfc3339()).unwrap();
    let out = serializer.into_inner();
    let datetime_bytes = datetime.to_rfc3339().as_bytes().to_vec();
    let len = datetime_bytes.len();
    let (header, header_size) = generate_header(DATETIME, len);
    let value = datetime_bytes
        .iter()
        .chain(header[..header_size].iter())
        .cloned()
        .collect::<Vec<_>>();
    assert_eq!(out, value);
}

#[test]
fn test_serialize_timestamp() {
    let timestamp = chrono::Utc::now().timestamp();
    let mut serializer = ReverseSerializer::new(Vec::new());
    serializer.serialize_timestamp(timestamp).unwrap();
    let out = serializer.into_inner();
    let timestamp_bytes = timestamp.to_le_bytes();
    let expected = vec![
        timestamp_bytes[0],
        timestamp_bytes[1],
        timestamp_bytes[2],
        timestamp_bytes[3],
        timestamp_bytes[4],
        timestamp_bytes[5],
        timestamp_bytes[6],
        timestamp_bytes[7],
        TIMESTAMP | SIZE_PREFIX_8BYTE,
    ];
    assert_eq!(out, expected);
}

#[test]
fn test_serialize_duration() {
    let duration = chrono::Duration::seconds(42);
    let mut serializer = ReverseSerializer::new(Vec::new());
    serializer
        .serialize_duration(duration.num_nanoseconds().unwrap())
        .unwrap();
    let out = serializer.into_inner();
    let duration_bytes = duration.num_nanoseconds().unwrap().to_le_bytes();
    let expected = vec![
        duration_bytes[0],
        duration_bytes[1],
        duration_bytes[2],
        duration_bytes[3],
        duration_bytes[4],
        duration_bytes[5],
        duration_bytes[6],
        duration_bytes[7],
        DURATION | SIZE_PREFIX_8BYTE,
    ];
    assert_eq!(out, expected);
}

#[test]
fn test_serialize_wrapped_json() {
    let mut json_map = serde_json::Map::new();
    json_map.insert(
        "key".to_string(),
        serde_json::Value::String("value".to_string()),
    );
    let json_value = serde_json::Value::Object(json_map);
    let mut serializer = ReverseSerializer::new(Vec::new());
    serializer
        .serialize_wrapped_json(&json_value.to_string())
        .unwrap();
    let out = serializer.into_inner();
    let json_bytes = serde_json::to_vec(&json_value).unwrap();
    let len = json_bytes.len();
    let (header, header_size) = generate_header(WRAPPED_JSON, len);
    let value = json_bytes
        .iter()
        .chain(header[..header_size].iter())
        .cloned()
        .collect::<Vec<_>>();
    assert_eq!(out, value);
}

#[test]
fn test_serialize_meta() {
    let meta_value = Value::Meta(Box::new(Value::String("meta_value".to_string())));
    let mut serializer = ReverseSerializer::new(Vec::new());
    meta_value.ex_serialize(&mut serializer).unwrap();
    let out = serializer.into_inner();
    let expected = vec![
        b'm',
        b'e',
        b't',
        b'a',
        b'_',
        b'v',
        b'a',
        b'l',
        b'u',
        b'e',
        10,
        STRING | SIZE_PREFIX_1BYTE,
        12,
        META | SIZE_PREFIX_1BYTE,
    ];
    assert_eq!(out, expected);
}

#[test]
fn test_serialize_padding() {
    let mut serializer = ReverseSerializer::new(Vec::new());
    serializer.serialize_padding(5).unwrap();
    let out = serializer.into_inner();
    let expected = vec![0, 0, 0, 0, 0, 5, PADDING | SIZE_PREFIX_1BYTE];
    assert_eq!(out, expected);
}

#[test]
fn test_generate_header() {
    let (header, header_size) = generate_header(UINT, 42);
    let expected = vec![42, UINT | SIZE_PREFIX_1BYTE];
    assert_eq!(header[..header_size].to_vec(), expected);

    let (header, header_size) = generate_header(UINT, u8::MAX as usize + 1);
    let expected = vec![0, 1, UINT | SIZE_PREFIX_2BYTE];
    assert_eq!(header[..header_size].to_vec(), expected);

    let (header, header_size) = generate_header(UINT, u16::MAX as usize + 1);
    let expected = vec![0, 0, 1, 0, UINT | SIZE_PREFIX_4BYTE];
    assert_eq!(header[..header_size].to_vec(), expected);

    let (header, header_size) = generate_header(UINT, u32::MAX as usize + 1);
    let expected = vec![0, 0, 0, 0, 1, 0, 0, 0, UINT | SIZE_PREFIX_8BYTE];
    assert_eq!(header[..header_size].to_vec(), expected);
}
