use vector_db::json::{JsonNumber, JsonValue, NumberKind};
use vector_db::schema::{get_value_type_name, FieldType, MetadataSchema, SchemaError};

fn order_key(x: f64) -> u64 {
    let x = if x == 0.0 { 0.0 } else { x };
    let b = x.to_bits();
    if b >> 63 == 1 {
        !b
    } else {
        b | (1u64 << 63)
    }
}

fn s(x: &str) -> JsonValue {
    JsonValue::String(x.to_string())
}

fn integer(i: u64) -> JsonValue {
    JsonValue::Number(JsonNumber { kind: NumberKind::PosInt(i), order_key: order_key(i as f64) })
}

fn float(x: f64) -> JsonValue {
    JsonValue::Number(JsonNumber { kind: NumberKind::Float(x.to_bits()), order_key: order_key(x) })
}

fn obj(members: Vec<(&str, JsonValue)>) -> JsonValue {
    let mut m: Vec<(String, JsonValue)> = members.into_iter().map(|(k, v)| (k.to_string(), v)).collect();
    m.sort_by(|a, b| a.0.cmp(&b.0));
    JsonValue::Object(m)
}

#[test]
fn test_field_type_name() {
    assert_eq!(FieldType::String.name_of_type(), "String");
    assert_eq!(FieldType::Number.name_of_type(), "Number");
    assert_eq!(FieldType::Boolean.name_of_type(), "Boolean");
    assert_eq!(FieldType::Array(Box::new(FieldType::String)).name_of_type(), "Array<String>");
    assert_eq!(FieldType::Object(Vec::new()).name_of_type(), "Object");
}

#[test]
fn test_validate_string() {
    let field_type = FieldType::String;
    assert!(field_type.validate_value("test", &s("hello")).is_ok());
    assert!(field_type.validate_value("test", &integer(123)).is_err());
    assert!(field_type.validate_value("test", &JsonValue::Null).is_ok());
}

#[test]
fn test_validate_number() {
    let field_type = FieldType::Number;
    assert!(field_type.validate_value("test", &integer(123)).is_ok());
    assert!(field_type.validate_value("test", &float(123.45)).is_ok());
    assert!(field_type.validate_value("test", &s("123")).is_err());
}

#[test]
fn test_validate_boolean() {
    let field_type = FieldType::Boolean;
    assert!(field_type.validate_value("test", &JsonValue::Bool(true)).is_ok());
    assert!(field_type.validate_value("test", &JsonValue::Bool(false)).is_ok());
    assert!(field_type.validate_value("test", &s("true")).is_err());
}

#[test]
fn test_validate_array() {
    let field_type = FieldType::Array(Box::new(FieldType::String));
    assert!(field_type.validate_value("test", &JsonValue::Array(vec![s("a"), s("b"), s("c")])).is_ok());
    assert!(field_type.validate_value("test", &JsonValue::Array(vec![s("a"), integer(123), s("c")])).is_err());
}

#[test]
fn test_schema_builder() {
    let mut schema = MetadataSchema::new();
    schema.add_field("title", FieldType::String, true);
    schema.add_field("views", FieldType::Number, false);
    assert_eq!(schema.fields.len(), 2);
    assert_eq!(schema.required.len(), 1);
    assert!(schema.required.contains(&"title".to_string()));
}

#[test]
fn test_array_element_error_names_index() {
    let field_type = FieldType::Array(Box::new(FieldType::String));
    match field_type.validate_value("tags", &JsonValue::Array(vec![s("a"), integer(7)])) {
        Err(SchemaError::InvalidArrayElement { field, index, expected, found }) => {
            assert_eq!(field, "tags");
            assert_eq!(index, 1);
            assert_eq!(expected, "String");
            assert_eq!(found, "Number");
        },
        _ => panic!("expected an array element error"),
    }
}

#[test]
fn test_schema_validate_missing_and_types() {
    let mut schema = MetadataSchema::new();
    schema.add_field("title", FieldType::String, true);
    schema.add_field("views", FieldType::Number, false);
    assert!(schema.validate(&obj(vec![("title", s("x")), ("views", integer(3))])).is_ok());
    assert!(schema.validate(&obj(vec![("title", s("x"))])).is_ok());
    match schema.validate(&obj(vec![("views", integer(3))])) {
        Err(SchemaError::MissingField(f)) => assert_eq!(f, "title"),
        _ => panic!("expected a missing field"),
    }
    match schema.validate(&obj(vec![("title", s("x")), ("views", s("many"))])) {
        Err(SchemaError::InvalidType { field, expected, found }) => {
            assert_eq!(field, "views");
            assert_eq!(expected, "Number");
            assert_eq!(found, "String");
        },
        _ => panic!("expected a type error"),
    }
}

#[test]
fn test_value_type_names() {
    assert_eq!(get_value_type_name(&JsonValue::Null), "Null");
    assert_eq!(get_value_type_name(&JsonValue::Bool(true)), "Boolean");
    assert_eq!(get_value_type_name(&s("a")), "String");
    assert_eq!(get_value_type_name(&JsonValue::Array(vec![])), "Array");
    assert_eq!(get_value_type_name(&obj(vec![])), "Object");
}

#[test]
fn test_add_field_replaces_type() {
    let mut schema = MetadataSchema::new();
    schema.add_field("a", FieldType::String, false);
    schema.add_field("a", FieldType::Number, false);
    assert_eq!(schema.fields.len(), 1);
    assert!(schema.validate(&obj(vec![("a", integer(1))])).is_ok());
}
