use openrpc_merge::components::{ref_load, RefMap};
use openrpc_merge::json::{Json, Object};
use openrpc_merge::problem::Error;
use serde_json::Value;

/// The value that a JSON text denotes.
fn json(text: &str) -> Json {
    from_value(&serde_json::from_str(text).unwrap())
}

fn from_value(value: &Value) -> Json {
    match value {
        Value::Null => Json::Null,
        Value::Bool(b) => Json::Bool(*b),
        Value::Number(n) => Json::Number(n.clone()),
        Value::String(s) => Json::String(s.clone()),
        Value::Array(items) => Json::Array(items.iter().map(from_value).collect()),
        Value::Object(members) => {
            let mut object = Object::new();
            for (key, member) in members {
                object.insert(key.clone(), from_value(member));
            }
            Json::Object(object)
        }
    }
}

fn to_value(json: &Json) -> Value {
    match json {
        Json::Null => Value::Null,
        Json::Bool(b) => Value::Bool(*b),
        Json::Number(n) => Value::Number(n.clone()),
        Json::String(s) => Value::String(s.clone()),
        Json::Array(items) => Value::Array(items.iter().map(to_value).collect()),
        Json::Object(object) => Value::Object(to_members(object)),
    }
}

fn to_members(object: &Object) -> serde_json::Map<String, Value> {
    object.keys().into_iter().map(|key| { let member = to_value(object.get(&key).unwrap()); (key, member) }).collect()
}

fn value(text: &str) -> Value {
    serde_json::from_str(text).unwrap()
}

fn object(text: &str) -> Object {
    match json(text) {
        Json::Object(object) => object,
        other => panic!("not an object: {:?}", other),
    }
}

const COMPONENT_A: &str = r##"{"foo": {"$ref": "#components/schemas/COMPONENT_B"}}"##;
const COMPONENT_B: &str = r##"{"bazz": {"type": "string"}}"##;
const COMPONENT_C: &str = r##"{"foo": {"$ref": "./file_a.json/#components/schemas/COMPONENT_A"}}"##;
const COMPONENT_D: &str = r##"{"bazz": {"type": "string", "pattern": "^Hello"}}"##;

fn document(path: &str, schemas: &[(&str, &str)]) -> (Object, String) {
    let mut members = Object::new();
    for (name, text) in schemas {
        members.insert(name.to_string(), json(text));
    }
    let mut components = Object::new();
    components.insert("schemas".to_string(), Json::Object(members));
    let mut whole = Object::new();
    whole.insert("components".to_string(), Json::Object(components));
    (whole, path.to_string())
}

fn file_a() -> (Object, String) {
    document("./file_a.json", &[("COMPONENT_A", COMPONENT_A), ("COMPONENT_B", COMPONENT_B)])
}

fn file_b() -> (Object, String) {
    document("./file_b.json", &[("COMPONENT_C", COMPONENT_C), ("COMPONENT_D", COMPONENT_D)])
}

/// The components as key, file and value, in the order of the keys.
fn contents(refs: &RefMap) -> Vec<(String, String, Value)> {
    let mut found: Vec<(String, String, Value)> = refs
        .keys()
        .iter()
        .map(|key| {
            let component = refs.get(key).unwrap();
            (key.clone(), component.file.clone(), to_value(&component.value))
        })
        .collect();
    found.sort_by(|a, b| a.0.cmp(&b.0));
    found
}

fn problem(documents: Vec<(Object, String)>) -> Error {
    match ref_load(&documents) {
        Ok(_) => panic!("loaded"),
        Err(problem) => problem,
    }
}

fn whole(path: &str, text: &str) -> (Object, String) {
    (object(text), path.to_string())
}

#[test]
fn ref_load_valid() {
    let refs = ref_load(&vec![file_a(), file_b()]).unwrap();
    let file_a = "./file_a.json".to_string();
    let file_b = "./file_b.json".to_string();
    assert_eq!(
        contents(&refs),
        vec![
            ("./file_a.jsonCOMPONENT_A".to_string(), file_a.clone(), value(COMPONENT_A)),
            ("./file_a.jsonCOMPONENT_B".to_string(), file_a, value(COMPONENT_B)),
            ("./file_b.jsonCOMPONENT_C".to_string(), file_b.clone(), value(COMPONENT_C)),
            ("./file_b.jsonCOMPONENT_D".to_string(), file_b, value(COMPONENT_D)),
        ]
    );
    assert_eq!(refs.len(), 4);
}

#[test]
fn no_documents_declare_no_components() {
    let refs = ref_load(&vec![]).unwrap();
    assert_eq!(refs.len(), 0);
    assert!(refs.get("").is_none());
}

#[test]
fn a_document_needs_components() {
    match problem(vec![file_a(), whole("x.json", r#"{"methods": []}"#)]) {
        Error::NoComponents { path } => assert_eq!(path, "x.json"),
        other => panic!("{:?}", other),
    }
}

#[test]
fn components_are_an_object() {
    match problem(vec![whole("x.json", r#"{"components": []}"#)]) {
        Error::ComponentsNotObject { path } => assert_eq!(path, "x.json"),
        other => panic!("{:?}", other),
    }
}

#[test]
fn components_hold_schemas() {
    match problem(vec![whole("x.json", r#"{"components": {"errors": {}}}"#)]) {
        Error::NoSchemas { path } => assert_eq!(path, "x.json"),
        other => panic!("{:?}", other),
    }
}

#[test]
fn schemas_are_an_object() {
    match problem(vec![whole("x.json", r#"{"components": {"schemas": "none"}}"#)]) {
        Error::SchemasNotObject { path } => assert_eq!(path, "x.json"),
        other => panic!("{:?}", other),
    }
}

#[test]
fn the_first_document_that_fails_decides() {
    let documents = vec![
        whole("x.json", r#"{"components": {"schemas": 1}}"#),
        whole("y.json", r#"{}"#),
    ];
    assert!(matches!(problem(documents), Error::SchemasNotObject { path } if path == "x.json"));
}

#[test]
fn a_name_that_is_a_key_is_a_duplicate() {
    // "b" + "a" is the key of the first component.
    let one_file = vec![document("b", &[("a", "1"), ("ba", "2")])];
    match problem(one_file) {
        Error::DuplicateComponent { path, name } => assert_eq!((path.as_str(), name.as_str()), ("b", "ba")),
        other => panic!("{:?}", other),
    }
    let two_files = vec![document("b", &[("a", "1")]), document("c", &[("ba", "2")])];
    match problem(two_files) {
        Error::DuplicateComponent { path, name } => assert_eq!((path.as_str(), name.as_str()), ("c", "ba")),
        other => panic!("{:?}", other),
    }
}

#[test]
fn a_key_that_comes_up_later_is_no_duplicate() {
    // "ab" is visited before "b", whose key is "ab".
    let refs = ref_load(&vec![document("a", &[("ab", "1"), ("b", "2")])]).unwrap();
    assert_eq!(
        contents(&refs),
        vec![
            ("aab".to_string(), "a".to_string(), value("1")),
            ("ab".to_string(), "a".to_string(), value("2")),
        ]
    );
}

#[test]
fn the_same_name_in_two_files_is_two_components() {
    let refs = ref_load(&vec![document("x", &[("N", "1")]), document("y", &[("N", "2")])]).unwrap();
    assert_eq!(to_value(&refs.get("xN").unwrap().value), value("1"));
    assert_eq!(to_value(&refs.get("yN").unwrap().value), value("2"));
}

#[test]
fn a_component_takes_the_place_of_one_with_its_key() {
    let refs = ref_load(&vec![document("x", &[("N", "1")]), document("x", &[("N", "2")])]).unwrap();
    assert_eq!(contents(&refs), vec![("xN".to_string(), "x".to_string(), value("2"))]);
    assert_eq!(refs.len(), 1);
}
