use wackdb::schema::{Column, Schema};
use wackdb::tuple::Tuple;
use wackdb::value::{DataType, Value};

#[test]
fn test_serialize_deserialize_mixed() {
    let schema = Schema::new(vec![
        Column::new("id", DataType::Integer, false),
        Column::new("is_active", DataType::Boolean, false),
        Column::new("name", DataType::Varchar, true),
    ]);

    let values = vec![
        Value::Integer(42),
        Value::Boolean(true),
        Value::Varchar("Alice".to_string()),
    ];

    let tuple = Tuple::from_values(&schema, &values).unwrap();

    // Bitmap (1 byte) + Integer (4 bytes) + Bool (1 byte) + Varchar ptr (4 bytes) + "Alice" (5 bytes)
    assert_eq!(tuple.data.len(), 1 + 4 + 1 + 4 + 5);

    let decoded = tuple.to_values(&schema).unwrap();
    assert_eq!(values, decoded);
}

#[test]
fn test_serialize_deserialize_null() {
    let schema = Schema::new(vec![
        Column::new("id", DataType::Integer, false),
        Column::new("name", DataType::Varchar, true),
    ]);

    let values = vec![Value::Integer(100), Value::Null];

    let tuple = Tuple::from_values(&schema, &values).unwrap();
    let decoded = tuple.to_values(&schema).unwrap();
    assert_eq!(values, decoded);
}

#[test]
fn test_type_safety_mismatched_types() {
    let res = Value::parse_from_string("not_an_int", DataType::Integer);
    assert_eq!(
        res,
        Err("TypeError: Expected Integer, got 'not_an_int'".to_string())
    );

    let res = Value::parse_from_string("not_a_bool", DataType::Boolean);
    assert_eq!(
        res,
        Err("TypeError: Expected Boolean, got 'not_a_bool'".to_string())
    );
}

#[test]
fn value_of_wrong_type_is_rejected() {
    let schema = Schema::new(vec![Column::new("flag", DataType::Boolean, false)]);
    let r = Tuple::from_values(&schema, &[Value::Integer(5)]);
    assert!(matches!(r, Err(wackdb::tuple::TupleError::TypeMismatch { .. })));
    assert!(Tuple::from_values(&schema, &[Value::Boolean(true)]).is_ok());
}
