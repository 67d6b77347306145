//! Values that hosts of other languages hand in.

use okm::bindings::{
    coerce, cut_double, find_field, narrow_bytes, py_values_to_map, steel_hash_to_map,
    steel_to_value, value_map_to_steel, value_to_steel, Expected, HostValue, PlainValue, SchemaRegistry, Value,
    ValueError,
};
use okm::field::FieldType;
use okm::schema::TableSchema;
use okm::users::{User, UserKey};

fn schema() -> TableSchema {
    TableSchema::of::<UserKey, User>()
}

fn kind(e: Expected) -> ValueError {
    ValueError::Kind("f".to_string(), e)
}

#[test]
fn integers_are_taken_in_range_only() {
    let cases = [
        (FieldType::U8, 255, Ok(Value::U8(255))),
        (FieldType::U8, 256, Err(kind(Expected::U8))),
        (FieldType::U16, 65_535, Ok(Value::U16(65_535))),
        (FieldType::U16, -1, Err(kind(Expected::U16))),
        (FieldType::U32, 1 << 32, Err(kind(Expected::U32))),
        (FieldType::U32, 7, Ok(Value::U32(7))),
        (FieldType::U64, 7, Ok(Value::U64(7))),
        (FieldType::VarInt, -7, Err(kind(Expected::U64))),
        (FieldType::Quant(3), 7, Ok(Value::U64(7))),
        (FieldType::Offset(5), 7, Ok(Value::U64(7))),
        (FieldType::Enum, 3, Ok(Value::U8(3))),
        (FieldType::Enum, 300, Err(kind(Expected::EnumTag))),
    ];
    for (ty, i, want) in cases {
        assert_eq!(steel_to_value("f", ty, &HostValue::Int(i)), want);
    }
}

#[test]
fn other_values_are_taken_by_kind() {
    let t = |ty, v: HostValue| steel_to_value("f", ty, &v);
    assert_eq!(t(FieldType::U8, HostValue::Bool(true)), Ok(Value::U8(1)));
    assert_eq!(t(FieldType::U32, HostValue::Bool(true)), Ok(Value::Bool(true)));
    assert_eq!(t(FieldType::Str, HostValue::Str("x".into())), Ok(Value::Str("x".into())));
    assert_eq!(t(FieldType::Str, HostValue::Int(1)), Err(kind(Expected::Str)));
    assert_eq!(
        t(FieldType::Bytes, HostValue::Ints(vec![0, 255])),
        Ok(Value::Bytes(vec![0, 255]))
    );
    assert_eq!(
        t(FieldType::FixedBytes, HostValue::Ints(vec![256])),
        Err(kind(Expected::ByteVector))
    );
    assert_eq!(t(FieldType::Bytes, HostValue::Void), Err(kind(Expected::ByteVector)));
    assert_eq!(
        t(FieldType::U64, HostValue::Num(3.9f64.to_bits())),
        Ok(Value::U64(3))
    );
    assert_eq!(
        t(FieldType::U32, HostValue::Num(3.9f64.to_bits())),
        Err(kind(Expected::Numeric))
    );
    assert_eq!(t(FieldType::U64, HostValue::Other), Err(kind(Expected::Numeric)));
    assert_eq!(narrow_bytes(&vec![-1]), None);
}

#[test]
fn doubles_are_cut() {
    let cases = [
        0.0, -0.0, 0.5, 1.0, 1.999, 255.0, 1e9, 4503599627370497.0, 1e15, 1.7e19, 1e20, -3.0,
        f64::NAN, f64::INFINITY, f64::NEG_INFINITY, f64::MIN_POSITIVE,
    ];
    for v in cases {
        assert_eq!(cut_double(v.to_bits()), v as u64);
    }
}

#[test]
fn unsigned_hosts_wrap_into_the_field() {
    let t = |ty, v: PlainValue| coerce("f", ty, &v);
    assert_eq!(t(FieldType::U8, PlainValue::UInt(257)), Ok(Value::U8(1)));
    assert_eq!(t(FieldType::U16, PlainValue::UInt(65_537)), Ok(Value::U16(1)));
    assert_eq!(t(FieldType::U32, PlainValue::UInt(1 << 32)), Ok(Value::U32(0)));
    assert_eq!(t(FieldType::Enum, PlainValue::UInt(256)), Ok(Value::U8(0)));
    assert_eq!(t(FieldType::U64, PlainValue::UInt(9)), Ok(Value::U64(9)));
    assert_eq!(t(FieldType::Bytes, PlainValue::Bytes(vec![1])), Ok(Value::Bytes(vec![1])));
    assert_eq!(t(FieldType::Str, PlainValue::Str("s".into())), Ok(Value::Str("s".into())));
    assert_eq!(t(FieldType::U8, PlainValue::Other), Err(kind(Expected::U8)));
    assert_eq!(t(FieldType::Bytes, PlainValue::Other), Err(kind(Expected::Bytes)));
    assert_eq!(t(FieldType::Str, PlainValue::Other), Err(kind(Expected::Text)));
    assert_eq!(t(FieldType::VarInt, PlainValue::Other), Err(kind(Expected::U64)));
}

#[test]
fn values_are_shown_to_hosts() {
    assert_eq!(value_to_steel(&Value::U16(3)), HostValue::Int(3));
    assert_eq!(value_to_steel(&Value::U64(u64::MAX)), HostValue::Int(-1));
    assert_eq!(value_to_steel(&Value::U64(1 << 63)), HostValue::Int(i64::MIN));
    assert_eq!(value_to_steel(&Value::Null), HostValue::Void);
    assert_eq!(value_to_steel(&Value::Bytes(vec![1, 255])), HostValue::Ints(vec![1, 255]));
    assert_eq!(value_to_steel(&Value::F64(1.5f64.to_bits())), HostValue::Num(1.5f64.to_bits()));
    assert_eq!(value_to_steel(&Value::I64(-4)), HostValue::Int(-4));
}

#[test]
fn fields_are_found_by_name() {
    let s = schema();
    assert_eq!(find_field(&s, "user_id").unwrap().ty, FieldType::U64);
    assert_eq!(find_field(&s, "score").unwrap().ty, FieldType::U16);
    assert_eq!(find_field(&s, "name").unwrap().tag, Some(2));
    let e = find_field(&s, "nope").unwrap_err();
    assert_eq!(e.message(), "field `nope`: not declared in the schema");
    assert_eq!(e.message_got("1"), e.message());
}

#[test]
fn maps_stop_at_the_first_error() {
    let s = schema();
    let good = vec![
        ("level".to_string(), HostValue::Int(4)),
        ("name".to_string(), HostValue::Str("ada".into())),
    ];
    assert_eq!(
        steel_hash_to_map(&s, &good),
        Ok(vec![
            ("level".to_string(), Value::U32(4)),
            ("name".to_string(), Value::Str("ada".into())),
        ])
    );
    let bad = vec![
        ("score".to_string(), HostValue::Int(70_000)),
        ("nope".to_string(), HostValue::Int(1)),
    ];
    let e = steel_hash_to_map(&s, &bad).unwrap_err();
    assert_eq!(e.message(), "field `score`: expected u16");
    assert_eq!(e.message_got("70000"), "field `score`: expected u16, got 70000");
    let plain = vec![("score".to_string(), PlainValue::UInt(70_000))];
    assert_eq!(
        py_values_to_map(&s, &plain),
        Ok(vec![("score".to_string(), Value::U16(4_464))])
    );
    let unknown = vec![("nope".to_string(), PlainValue::Other)];
    assert_eq!(
        py_values_to_map(&s, &unknown),
        Err(ValueError::Undeclared("nope".to_string()))
    );
}

#[test]
fn handles_find_their_schemas() {
    let mut r = SchemaRegistry::new();
    assert_eq!(r.add_schema(schema()), 1);
    assert_eq!(r.add_schema(schema()), 2);
    assert_eq!(r.get_schema(2).unwrap().layout_version, 2);
    assert!(r.get_schema(0).is_none());
    assert!(r.get_schema(3).is_none());
    assert!(r.get_schema(-1).is_none());
}

#[test]
fn a_document_is_shown_by_name() {
    let doc = vec![
        ("level".to_string(), Value::U32(7)),
        ("name".to_string(), Value::Str("ann".into())),
        ("raw".to_string(), Value::Bytes(vec![0, 255])),
    ];
    assert_eq!(
        value_map_to_steel(&doc),
        vec![
            ("level".to_string(), HostValue::Int(7)),
            ("name".to_string(), HostValue::Str("ann".into())),
            ("raw".to_string(), HostValue::Ints(vec![0, 255])),
        ]
    );
    assert_eq!(value_map_to_steel(&Vec::new()), Vec::new());
}
