use navi::json::{JsonNumber, JsonObject, JsonValue};

#[test]
fn insert_then_get_gives_the_value() {
    let mut o = JsonObject::new();
    o.insert("a".to_string(), JsonValue::String("1".to_string()));
    o.insert("b".to_string(), JsonValue::Bool(true));
    o.insert("a".to_string(), JsonValue::String("2".to_string()));
    assert_eq!(o.get("a").and_then(|v| v.as_str()), Some("2"));
    assert!(matches!(o.get("b"), Some(JsonValue::Bool(true))));
    assert!(o.get("c").is_none());
}

#[test]
fn value_accessors() {
    let mut o = JsonObject::new();
    o.insert("n".to_string(), JsonValue::Number(JsonNumber::PosInt(7)));
    o.insert(
        "list".to_string(),
        JsonValue::Array(vec![JsonValue::Null, JsonValue::String("x".to_string())]),
    );
    let v = JsonValue::Object(o);
    assert_eq!(v.get("n").and_then(|n| n.as_u64()), Some(7));
    assert_eq!(v.get("list").and_then(|l| l.get_index(1)).and_then(|x| x.as_str()), Some("x"));
    assert!(v.get("list").and_then(|l| l.get_index(2)).is_none());
    assert!(v.get_index(0).is_none());
    assert!(JsonValue::Number(JsonNumber::NegInt(-1)).as_u64().is_none());
}

#[test]
fn copy_keeps_the_value() {
    let mut inner = JsonObject::new();
    inner.insert("k".to_string(), JsonValue::String("v".to_string()));
    let v = JsonValue::Array(vec![
        JsonValue::Object(inner),
        JsonValue::Number(JsonNumber::Float("1.5".to_string())),
    ]);
    let c = v.copy();
    assert_eq!(
        c.get_index(0).and_then(|o| o.get("k")).and_then(|s| s.as_str()),
        Some("v")
    );
    assert!(matches!(c.get_index(1), Some(JsonValue::Number(JsonNumber::Float(t))) if t == "1.5"));
}
