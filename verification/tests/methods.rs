use openrpc_merge::files::check_extension;
use openrpc_merge::json::{Json, Object};
use openrpc_merge::methods::{documents_replace, methods_merge, methods_replace, ref_replace};
use openrpc_merge::pipeline::{merge_documents, merge_documents_checked};
use openrpc_merge::problem::{Error, Problem};
use serde_json::Value;

/// The value that a JSON text denotes.
fn json(text: &str) -> Json {
    from_value(&serde_json::from_str(text).unwrap())
}

fn from_value(value: &Value) -> Json {
    match value {
        Value::Null => Json::Null,
        Value::Bool(b) => Json::Bool(*b),
        Value::Number(n) => Json::Number(n.clone()),
        Value::String(s) => Json::String(s.clone()),
        Value::Array(items) => Json::Array(items.iter().map(from_value).collect()),
        Value::Object(members) => {
            let mut object = Object::new();
            for (key, member) in members {
                object.insert(key.clone(), from_value(member));
            }
            Json::Object(object)
        }
    }
}

fn to_value(json: &Json) -> Value {
    match json {
        Json::Null => Value::Null,
        Json::Bool(b) => Value::Bool(*b),
        Json::Number(n) => Value::Number(n.clone()),
        Json::String(s) => Value::String(s.clone()),
        Json::Array(items) => Value::Array(items.iter().map(to_value).collect()),
        Json::Object(object) => Value::Object(to_members(object)),
    }
}

fn to_members(object: &Object) -> serde_json::Map<String, Value> {
    object.keys().into_iter().map(|key| { let member = to_value(object.get(&key).unwrap()); (key, member) }).collect()
}

fn value(text: &str) -> Value {
    serde_json::from_str(text).unwrap()
}

fn object(text: &str) -> Object {
    match json(text) {
        Json::Object(object) => object,
        other => panic!("not an object: {:?}", other),
    }
}

fn whole(path: &str, text: &str) -> (Object, String) {
    (object(text), path.to_string())
}

fn replace_problem(text: &str) -> Error {
    match methods_replace(&object(text), "p.json", &object(r##"{"key": {"x": 1}}"##)) {
        Ok(_) => panic!("replaced"),
        Err(problem) => problem,
    }
}

fn merge_problem(documents: Vec<(Object, String)>) -> Error {
    match methods_merge(&documents) {
        Ok(_) => panic!("merged"),
        Err(problem) => problem,
    }
}

fn s(text: &str) -> String {
    text.to_string()
}

#[test]
fn a_reference_in_a_method_is_looked_up_as_it_is_written() {
    let map = object(r##"{"key": {"x": 1}}"##);
    let found = ref_replace("f", &Json::String(s("key")), &map).unwrap();
    assert_eq!(to_value(&found), value(r#"{"x": 1}"#));
    let found = ref_replace("f", &json(r##"{"$ref": "key", "a": {"$ref": "gone"}, "b": "key"}"##), &map).unwrap();
    assert_eq!(to_value(&found), value(r##"{"$ref": {"x": 1}, "a": {"$ref": "gone"}, "b": "key"}"##));
}

#[test]
fn what_is_no_reference_is_not_replaced() {
    let map = object(r##"{"key": {"x": 1}}"##);
    for text in ["null", "1", r#"["key"]"#, r##"{"$ref": 1}"##, r#"{"a": "key"}"#] {
        assert_eq!(to_value(&ref_replace("f", &json(text), &map).unwrap()), value(text));
    }
}

#[test]
fn a_reference_in_a_method_leads_to_a_known_component() {
    for text in [r#""gone""#, r##"{"$ref": "gone"}"##] {
        match ref_replace("f", &json(text), &Object::new()) {
            Err(Problem::UnknownMethodReference { file, reference }) => {
                assert_eq!((file.as_str(), reference.as_str()), ("f", "gone"))
            }
            other => panic!("{:?}", other),
        }
    }
}

#[test]
fn methods_are_replaced_and_the_rest_is_kept() {
    let json_in = object(r##"{"methods": {"a": "key", "b": {"$ref": "key"}, "c": 1}, "info": "key"}"##);
    let changed = methods_replace(&json_in, "p.json", &object(r##"{"key": {"x": 1}}"##)).unwrap();
    assert_eq!(
        Value::Object(to_members(&changed)),
        value(r##"{"methods": {"a": {"x": 1}, "b": {"$ref": {"x": 1}}, "c": 1}, "info": "key"}"##)
    );
}

#[test]
fn methods_that_cannot_be_replaced() {
    assert!(matches!(replace_problem("{}"), Error::NoMethods { path } if path == "p.json"));
    assert!(matches!(replace_problem(r#"{"methods": []}"#), Error::MethodsNotObject { path } if path == "p.json"));
    assert!(matches!(
        replace_problem(r#"{"methods": {"a": "key", "b": "second", "c": "third"}}"#),
        Error::UnknownMethodReference { file, reference } if file == "p.json" && reference == "second"
    ));
}

#[test]
fn documents_are_replaced_in_order() {
    let documents = vec![
        whole("x.json", r#"{"methods": {"a": "key"}}"#),
        whole("y.json", r#"{"methods": {}}"#),
    ];
    let done = documents_replace(&documents, &object(r#"{"key": 1}"#)).unwrap();
    assert_eq!(done.len(), 2);
    assert_eq!(done[0].1, "x.json");
    assert_eq!(Value::Object(to_members(&done[0].0)), value(r#"{"methods": {"a": 1}}"#));
    assert_eq!(done[1].1, "y.json");
    assert_eq!(Value::Object(to_members(&done[1].0)), value(r#"{"methods": {}}"#));

    let documents = vec![
        whole("x.json", r#"{"methods": {"a": "gone"}}"#),
        whole("y.json", "{}"),
    ];
    assert!(matches!(
        documents_replace(&documents, &Object::new()),
        Err(Error::UnknownMethodReference { file, .. }) if file == "x.json"
    ));
}

#[test]
fn methods_are_merged_in_order() {
    let documents = vec![
        whole("x.json", r#"{"methods": [{"name": "b", "x": 1}, {"name": "a"}], "info": 1}"#),
        whole("y.json", r#"{"methods": []}"#),
        whole("z.json", r#"{"methods": [{"name": "c"}]}"#),
    ];
    assert_eq!(
        Value::Object(to_members(&methods_merge(&documents).unwrap())),
        value(r#"{"methods": [{"name": "b", "x": 1}, {"name": "a"}, {"name": "c"}]}"#)
    );
}

#[test]
fn nothing_merges_to_no_methods() {
    let merged = methods_merge(&vec![]).unwrap();
    assert_eq!(Value::Object(to_members(&merged)), value(r#"{"methods": []}"#));
}

#[test]
fn methods_that_cannot_be_merged() {
    let merge = |text: &str| merge_problem(vec![whole("p.json", text)]);
    assert!(matches!(merge("{}"), Error::NoMethodsToMerge { path } if path == "p.json"));
    assert!(matches!(merge(r#"{"methods": {}}"#), Error::MethodsNotArray { path } if path == "p.json"));
    assert!(matches!(merge(r#"{"methods": [1]}"#), Error::MethodNotObject { path } if path == "p.json"));
    assert!(matches!(merge(r#"{"methods": [{}]}"#), Error::MethodWithoutName { path } if path == "p.json"));
    assert!(matches!(
        merge(r#"{"methods": [{"name": 1}]}"#),
        Error::MethodNameNotString { path } if path == "p.json"
    ));
}

#[test]
fn two_methods_do_not_have_the_same_name() {
    let documents = vec![
        whole("x.json", r#"{"methods": [{"name": "a"}]}"#),
        whole("y.json", r#"{"methods": [{"name": "b"}, {"name": "a"}]}"#),
    ];
    match merge_problem(documents) {
        Error::DuplicateMethod { path, name } => assert_eq!((path.as_str(), name.as_str()), ("y.json", "a")),
        other => panic!("{:?}", other),
    }
    let one = vec![whole("x.json", r#"{"methods": [{"name": "a"}, {"name": "a"}]}"#)];
    assert!(matches!(merge_problem(one), Error::DuplicateMethod { path, .. } if path == "x.json"));
}

#[test]
fn the_whole_way() {
    assert_eq!(
        Value::Object(to_members(&merge_documents(&vec![]).unwrap())),
        value(r#"{"methods": []}"#)
    );
    let components = r##""components": {"schemas": {"N": {"x": 1}}}"##;
    let with = |methods: &str| vec![whole("x.json", &format!("{{{}, {}}}", components, methods))];
    assert!(matches!(
        merge_documents(&with(r#""methods": {"a": "x.jsonN"}"#)),
        Err(Error::MethodsNotArray { path }) if path == "x.json"
    ));
    assert!(matches!(
        merge_documents(&with(r#""methods": [{"name": "a"}]"#)),
        Err(Error::MethodsNotObject { path }) if path == "x.json"
    ));
    assert!(matches!(
        merge_documents(&with(r#""methods": {"a": "N"}"#)),
        Err(Error::UnknownMethodReference { reference, .. }) if reference == "N"
    ));
    assert!(matches!(
        merge_documents(&vec![whole("x.json", "{}")]),
        Err(Error::NoComponents { path }) if path == "x.json"
    ));
    let unknown = r##"{"components": {"schemas": {"A": {"$ref": "#components/schemas/B"}}}, "methods": {}}"##;
    assert!(matches!(
        merge_documents(&vec![whole("x.json", unknown)]),
        Err(Error::UnknownReference { .. })
    ));
    let circle = r##"{"components": {"schemas": {"A": {"$ref": "#components/schemas/A"}}}, "methods": {}}"##;
    assert!(merge_documents_checked(&vec![whole("x.json", circle)]).is_none());
}

#[test]
fn only_json_files_are_read() {
    assert!(check_extension("a.json", Some("json")).is_ok());
    for extension in [None, Some("JSON"), Some("jso"), Some("")] {
        match check_extension("a", extension) {
            Err(Error::NotJson { path }) => assert_eq!(path, "a"),
            other => panic!("{:?}", other),
        }
    }
}

#[test]
fn problems_are_described() {
    let path = || s("p.json");
    let file = || s("f.json");
    let cases: Vec<(Error, &str)> = vec![
        (Problem::NotJson { path: s("p.txt") }, "p.txt is not a json file"),
        (
            Problem::NoComponents { path: path() },
            "invalid Json RPC format in p.json: should have a 'components' top-level field",
        ),
        (
            Problem::ComponentsNotObject { path: path() },
            "Error parsing p.json: top-level field 'components' should be a json object",
        ),
        (Problem::NoSchemas { path: path() }, "Error parsing p.json: 'components/schemas' is missing"),
        (
            Problem::SchemasNotObject { path: path() },
            "Error parsing p.json: 'components/schemas' is not a json object",
        ),
        (
            Problem::DuplicateComponent { path: path(), name: s("N") },
            "Error parsing p.json: 'N' component is a duplicate",
        ),
        (
            Problem::Overwritten { file: file(), key: s("k") },
            "Error parsing f.json: 'k' is overwritten multiple times in $ref",
        ),
        (
            Problem::NotAnObject { reference: s("r") },
            "Invalid reference component r, components must be a JSON object",
        ),
        (
            Problem::BadReference { file: file(), reference: s("r") },
            "Error parsing f.json: invalid reference format r",
        ),
        (
            Problem::UnknownReference { file: file(), reference: s("r") },
            "Error paring f.json: invalid reference r",
        ),
        (
            Problem::UnknownMethodReference { file: file(), reference: s("r") },
            "Error parsing f.json: reference 'r' does not exists",
        ),
        (
            Problem::NoMethods { path: path() },
            "invalid Json RPC format in p.json: should have a 'methods' top-level field",
        ),
        (Problem::MethodsNotObject { path: path() }, "Error parsing p.json: 'methods' is not a json object"),
        (
            Problem::NoMethodsToMerge { path: path() },
            "Error parsing p.json: should have a 'methods' top-level field",
        ),
        (
            Problem::MethodsNotArray { path: path() },
            "Error parsing p.json: top-level field 'methods' should be a json array",
        ),
        (Problem::MethodNotObject { path: path() }, "Error parsing p.json: rpc methods should be a json object"),
        (Problem::MethodWithoutName { path: path() }, "Error parsing p.json: methods should have a name"),
        (Problem::MethodNameNotString { path: path() }, "Error parsing p.json: method name should be a string"),
        (
            Problem::DuplicateMethod { path: path(), name: s("m") },
            "Error merging p.json: method 'm' has already been declared in a previous file",
        ),
    ];
    for (problem, message) in cases {
        assert_eq!(problem.message(), message);
    }
}
