use openrpc_merge::json::{Json, Object};
use serde_json::Value;

/// The value that a JSON text denotes.
fn json(text: &str) -> Json {
    from_value(&serde_json::from_str(text).unwrap())
}

fn from_value(value: &Value) -> Json {
    match value {
        Value::Null => Json::Null,
        Value::Bool(b) => Json::Bool(*b),
        Value::Number(n) => Json::Number(n.clone()),
        Value::String(s) => Json::String(s.clone()),
        Value::Array(items) => Json::Array(items.iter().map(from_value).collect()),
        Value::Object(members) => {
            let mut object = Object::new();
            for (key, member) in members {
                object.insert(key.clone(), from_value(member));
            }
            Json::Object(object)
        }
    }
}

fn to_value(json: &Json) -> Value {
    match json {
        Json::Null => Value::Null,
        Json::Bool(b) => Value::Bool(*b),
        Json::Number(n) => Value::Number(n.clone()),
        Json::String(s) => Value::String(s.clone()),
        Json::Array(items) => Value::Array(items.iter().map(to_value).collect()),
        Json::Object(object) => Value::Object(to_members(object)),
    }
}

fn to_members(object: &Object) -> serde_json::Map<String, Value> {
    object.keys().into_iter().map(|key| { let member = to_value(object.get(&key).unwrap()); (key, member) }).collect()
}

fn value(text: &str) -> Value {
    serde_json::from_str(text).unwrap()
}

fn object(text: &str) -> Object {
    match json(text) {
        Json::Object(object) => object,
        other => panic!("not an object: {:?}", other),
    }
}

#[test]
fn members_are_found_by_key() {
    let mut object = Object::new();
    assert!(object.get("a").is_none());
    assert!(!object.insert("a".to_string(), Json::Bool(true)));
    assert!(!object.insert("b".to_string(), Json::Null));
    assert!(matches!(object.get("a"), Some(Json::Bool(true))));
    assert!(matches!(object.get("b"), Some(Json::Null)));
    assert!(object.get("c").is_none());
}

#[test]
fn a_member_takes_the_place_of_another() {
    let mut object = Object::new();
    object.insert("a".to_string(), Json::Bool(true));
    object.insert("b".to_string(), Json::Bool(false));
    assert!(object.insert("a".to_string(), Json::String("new".to_string())));
    assert_eq!(to_value(&Json::Object(object)), value(r#"{"a": "new", "b": false}"#));
}

#[test]
fn keys_come_in_the_order_of_strings() {
    let mut object = Object::new();
    for key in ["b", "", "ab", "\u{10000}", "a", "\u{ffff}", "$ref", "!x", "B", "a!"] {
        object.insert(key.to_string(), Json::Null);
    }
    assert_eq!(object.keys(), vec!["", "!x", "$ref", "B", "a", "a!", "ab", "b", "\u{ffff}", "\u{10000}"]);
}

#[test]
fn a_copy_is_the_same_value_and_stands_alone() {
    let text = r#"{"a": [1, -2, 2.5, null, {"b": "c"}], "d": {"e": true}}"#;
    let original = json(text);
    let copy = original.clone();
    assert_eq!(to_value(&copy), value(text));

    let first = object(r#"{"a": 1}"#);
    let mut second = first.clone();
    second.insert("a".to_string(), Json::Null);
    second.insert("b".to_string(), Json::Null);
    assert_eq!(to_value(&Json::Object(first)), value(r#"{"a": 1}"#));
    assert_eq!(to_value(&Json::Object(second)), value(r#"{"a": null, "b": null}"#));
}

#[test]
fn numbers_are_carried_as_they_are() {
    let text = "[0, 18446744073709551615, -9223372036854775808, 1.5e300]";
    assert_eq!(to_value(&json(text).clone()), value(text));
}
