use vector_db::json::{json_eq, JsonNumber, JsonValue, NumberKind};
use vector_db::metadata_filter::{get_field, FilterError, MetadataFilter};

fn order_key(x: f64) -> u64 {
    let x = if x == 0.0 { 0.0 } else { x };
    let b = x.to_bits();
    if b >> 63 == 1 {
        !b
    } else {
        b | (1u64 << 63)
    }
}

fn s(x: &str) -> JsonValue {
    JsonValue::String(x.to_string())
}

fn integer(i: i64) -> JsonValue {
    let kind = if i >= 0 { NumberKind::PosInt(i as u64) } else { NumberKind::NegInt(i) };
    JsonValue::Number(JsonNumber { kind, order_key: order_key(i as f64) })
}

fn float(x: f64) -> JsonValue {
    JsonValue::Number(JsonNumber { kind: NumberKind::Float(x.to_bits()), order_key: order_key(x) })
}

fn obj(members: Vec<(&str, JsonValue)>) -> JsonValue {
    let mut m: Vec<(String, JsonValue)> = members.into_iter().map(|(k, v)| (k.to_string(), v)).collect();
    m.sort_by(|a, b| a.0.cmp(&b.0));
    JsonValue::Object(m)
}

fn arr(items: Vec<JsonValue>) -> JsonValue {
    JsonValue::Array(items)
}

fn equals(field: &str, value: JsonValue) -> MetadataFilter {
    MetadataFilter::Equals { field: field.to_string(), value }
}

#[test]
fn test_equals_filter_string() {
    let filter = equals("category", s("technology"));
    let metadata = obj(vec![("category", s("technology")), ("title", s("AI News"))]);
    assert!(filter.matches(&metadata));
    let metadata_no_match = obj(vec![("category", s("sports")), ("title", s("Game Results"))]);
    assert!(!filter.matches(&metadata_no_match));
}

#[test]
fn test_equals_filter_number() {
    let filter = equals("priority", integer(1));
    let metadata = obj(vec![("priority", integer(1)), ("status", s("active"))]);
    assert!(filter.matches(&metadata));
    let metadata_no_match = obj(vec![("priority", integer(2)), ("status", s("active"))]);
    assert!(!filter.matches(&metadata_no_match));
}

#[test]
fn test_in_filter() {
    let filter = MetadataFilter::In { field: "status".to_string(), values: vec![s("active"), s("pending")] };
    let metadata_active = obj(vec![("status", s("active"))]);
    assert!(filter.matches(&metadata_active));
    let metadata_archived = obj(vec![("status", s("archived"))]);
    assert!(!filter.matches(&metadata_archived));
}

#[test]
fn test_range_filter() {
    let filter = MetadataFilter::Range {
        field: "age".to_string(),
        min: Some(order_key(18.0)),
        max: Some(order_key(65.0)),
    };
    let metadata_25 = obj(vec![("age", integer(25))]);
    assert!(filter.matches(&metadata_25));
    let metadata_17 = obj(vec![("age", integer(17))]);
    assert!(!filter.matches(&metadata_17));
}

#[test]
fn test_and_combinator() {
    let filter = MetadataFilter::And(vec![
        equals("category", s("technology")),
        equals("published", JsonValue::Bool(true)),
    ]);
    let metadata_match = obj(vec![("category", s("technology")), ("published", JsonValue::Bool(true))]);
    assert!(filter.matches(&metadata_match));
    let metadata_no_match = obj(vec![("category", s("technology")), ("published", JsonValue::Bool(false))]);
    assert!(!filter.matches(&metadata_no_match));
}

#[test]
fn test_or_combinator() {
    let filter = MetadataFilter::Or(vec![
        equals("status", s("urgent")),
        MetadataFilter::Range { field: "priority".to_string(), min: Some(order_key(8.0)), max: None },
    ]);
    let metadata_urgent = obj(vec![("status", s("urgent")), ("priority", integer(5))]);
    assert!(filter.matches(&metadata_urgent));
    let metadata_no_match = obj(vec![("status", s("normal")), ("priority", integer(3))]);
    assert!(!filter.matches(&metadata_no_match));
}

#[test]
fn test_nested_field_access() {
    let filter = equals("user.id", s("123"));
    let metadata = obj(vec![("user", obj(vec![("id", s("123")), ("name", s("Alice"))]))]);
    assert!(filter.matches(&metadata));
}

#[test]
fn test_array_field_matching() {
    let filter = equals("tags", s("ai"));
    let metadata = obj(vec![("tags", arr(vec![s("ai"), s("ml"), s("technology")]))]);
    assert!(filter.matches(&metadata));
}

#[test]
fn test_from_json_equals() {
    let json_filter = obj(vec![("category", s("technology"))]);
    let filter = MetadataFilter::from_json(&json_filter).ok().unwrap();
    let metadata = obj(vec![("category", s("technology"))]);
    assert!(filter.matches(&metadata));
}

#[test]
fn test_from_json_in() {
    let json_filter = obj(vec![("status", obj(vec![("$in", arr(vec![s("active"), s("pending")]))]))]);
    let filter = MetadataFilter::from_json(&json_filter).ok().unwrap();
    let metadata = obj(vec![("status", s("active"))]);
    assert!(filter.matches(&metadata));
}

#[test]
fn test_from_json_range() {
    let json_filter = obj(vec![("age", obj(vec![("$gte", integer(18)), ("$lte", integer(65))]))]);
    let filter = MetadataFilter::from_json(&json_filter).ok().unwrap();
    let metadata_25 = obj(vec![("age", integer(25))]);
    assert!(filter.matches(&metadata_25));
}

#[test]
fn test_from_json_and() {
    let json_filter = obj(vec![(
        "$and",
        arr(vec![obj(vec![("category", s("technology"))]), obj(vec![("published", JsonValue::Bool(true))])]),
    )]);
    let filter = MetadataFilter::from_json(&json_filter).ok().unwrap();
    let metadata_match = obj(vec![("category", s("technology")), ("published", JsonValue::Bool(true))]);
    assert!(filter.matches(&metadata_match));
}

#[test]
fn test_invalid_operator() {
    let json_filter = obj(vec![("$invalid", s("test"))]);
    let result = MetadataFilter::from_json(&json_filter);
    assert!(result.is_err());
    assert!(matches!(result, Err(FilterError::UnsupportedOperator(_))));
}

#[test]
fn test_get_field() {
    let metadata = obj(vec![(
        "user",
        obj(vec![("id", s("123")), ("profile", obj(vec![("email", s("test@example.com"))]))]),
    )]);
    let id = get_field(&metadata, "user.id");
    assert!(id.is_some() && json_eq(id.unwrap(), &s("123")));
    let email = get_field(&metadata, "user.profile.email");
    assert!(email.is_some() && json_eq(email.unwrap(), &s("test@example.com")));
    assert!(get_field(&metadata, "user.missing").is_none());
}

#[test]
fn test_number_kinds_are_distinct_in_equality() {
    // An integer and a float of the same value are different JSON numbers.
    let filter = equals("n", integer(1));
    assert!(!filter.matches(&obj(vec![("n", float(1.0))])));
    assert!(filter.matches(&obj(vec![("n", integer(1))])));
}

#[test]
fn test_empty_combinators() {
    let metadata = obj(vec![("a", integer(1))]);
    assert!(MetadataFilter::And(vec![]).matches(&metadata));
    assert!(!MetadataFilter::Or(vec![]).matches(&metadata));
}

#[test]
fn test_range_on_non_number_and_missing_field() {
    let filter = MetadataFilter::Range { field: "age".to_string(), min: None, max: Some(order_key(10.0)) };
    assert!(!filter.matches(&obj(vec![("age", s("5"))])));
    assert!(!filter.matches(&obj(vec![("other", integer(5))])));
    assert!(filter.matches(&obj(vec![("age", float(-3.5))])));
}

#[test]
fn test_from_json_errors() {
    // A non-object filter is invalid syntax.
    assert!(matches!(MetadataFilter::from_json(&s("x")), Err(FilterError::InvalidSyntax(_))));
    // $and needs an array.
    let bad_and = obj(vec![("$and", s("x"))]);
    assert!(MetadataFilter::from_json(&bad_and).is_err());
}

#[test]
fn test_from_json_or_and_multiple_fields() {
    let json_filter = obj(vec![("$or", arr(vec![obj(vec![("a", integer(1))]), obj(vec![("b", integer(2))])]))]);
    let filter = MetadataFilter::from_json(&json_filter).ok().unwrap();
    assert!(filter.matches(&obj(vec![("b", integer(2))])));
    assert!(!filter.matches(&obj(vec![("a", integer(2))])));
    let two_fields = obj(vec![("a", integer(1)), ("b", integer(2))]);
    let filter = MetadataFilter::from_json(&two_fields).ok().unwrap();
    assert!(filter.matches(&obj(vec![("a", integer(1)), ("b", integer(2))])));
    assert!(!filter.matches(&obj(vec![("a", integer(1)), ("b", integer(3))])));
}

#[test]
fn test_empty_combinators_and_absent_field() {
    let metadata = obj(vec![("a", integer(1))]);
    assert!(MetadataFilter::And(vec![]).matches(&metadata));
    assert!(!MetadataFilter::Or(vec![]).matches(&metadata));
    assert!(!equals("missing", integer(1)).matches(&metadata));
    let range = MetadataFilter::Range { field: "missing".to_string(), min: None, max: None };
    assert!(!range.matches(&metadata));
}
