use openrpc_merge::components::{ref_load, Component, RefMap};
use openrpc_merge::json::{Json, Object};
use openrpc_merge::pointer::{read_reference, Pointer};
use openrpc_merge::problem::Error;
use openrpc_merge::resolve::{ref_resolve, ref_resolve_checked, ref_resolved, ref_resolved_checked};
use serde_json::Value;

/// The value that a JSON text denotes.
fn json(text: &str) -> Json {
    from_value(&serde_json::from_str(text).unwrap())
}

fn from_value(value: &Value) -> Json {
    match value {
        Value::Null => Json::Null,
        Value::Bool(b) => Json::Bool(*b),
        Value::Number(n) => Json::Number(n.clone()),
        Value::String(s) => Json::String(s.clone()),
        Value::Array(items) => Json::Array(items.iter().map(from_value).collect()),
        Value::Object(members) => {
            let mut object = Object::new();
            for (key, member) in members {
                object.insert(key.clone(), from_value(member));
            }
            Json::Object(object)
        }
    }
}

fn to_value(json: &Json) -> Value {
    match json {
        Json::Null => Value::Null,
        Json::Bool(b) => Value::Bool(*b),
        Json::Number(n) => Value::Number(n.clone()),
        Json::String(s) => Value::String(s.clone()),
        Json::Array(items) => Value::Array(items.iter().map(to_value).collect()),
        Json::Object(object) => Value::Object(to_members(object)),
    }
}

fn to_members(object: &Object) -> serde_json::Map<String, Value> {
    object.keys().into_iter().map(|key| { let member = to_value(object.get(&key).unwrap()); (key, member) }).collect()
}

fn value(text: &str) -> Value {
    serde_json::from_str(text).unwrap()
}

fn object(text: &str) -> Object {
    match json(text) {
        Json::Object(object) => object,
        other => panic!("not an object: {:?}", other),
    }
}

const COMPONENT_A: &str = r##"{"foo": {"$ref": "#components/schemas/COMPONENT_B"}}"##;
const COMPONENT_A_RESOLVED: &str = r##"{"foo": {"bazz": {"type": "string"}}}"##;
const COMPONENT_B: &str = r##"{"bazz": {"type": "string"}}"##;
const COMPONENT_C: &str = r##"{"foo": {"$ref": "./file_a.json/#components/schemas/COMPONENT_A"}}"##;
const COMPONENT_C_RESOLVED: &str = r##"{"foo": {"foo": {"bazz": {"type": "string"}}}}"##;
const COMPONENT_D: &str = r##"{"bazz": {"type": "string", "pattern": "^Hello"}}"##;

fn document(path: &str, schemas: &[(&str, &str)]) -> (Object, String) {
    let mut members = Object::new();
    for (name, text) in schemas {
        members.insert(name.to_string(), json(text));
    }
    let mut components = Object::new();
    components.insert("schemas".to_string(), Json::Object(members));
    let mut whole = Object::new();
    whole.insert("components".to_string(), Json::Object(components));
    (whole, path.to_string())
}

fn refs(path: &str, schemas: &[(&str, &str)]) -> RefMap {
    ref_load(&vec![document(path, schemas)]).unwrap()
}

fn resolved(refs: &RefMap, file: &str, text: &str) -> Value {
    to_value(&ref_resolve_checked(file, &json(text), refs).unwrap().unwrap())
}

fn problem(refs: &RefMap, file: &str, text: &str) -> Error {
    match ref_resolve_checked(file, &json(text), refs).unwrap() {
        Ok(_) => panic!("resolved"),
        Err(problem) => problem,
    }
}

#[test]
fn ref_resolve_valid() {
    let file_a = document("./file_a.json", &[("COMPONENT_A", COMPONENT_A), ("COMPONENT_B", COMPONENT_B)]);
    let file_b = document("./file_b.json", &[("COMPONENT_C", COMPONENT_C), ("COMPONENT_D", COMPONENT_D)]);
    let refs = ref_load(&vec![file_a, file_b]).unwrap();

    let refs_resolved = ref_resolved(&refs).unwrap();
    let mut expected = serde_json::Map::default();
    expected.insert("./file_a.jsonCOMPONENT_A".to_string(), value(COMPONENT_A_RESOLVED));
    expected.insert("./file_a.jsonCOMPONENT_B".to_string(), value(COMPONENT_B));
    expected.insert("./file_b.jsonCOMPONENT_C".to_string(), value(COMPONENT_C_RESOLVED));
    expected.insert("./file_b.jsonCOMPONENT_D".to_string(), value(COMPONENT_D));

    assert_eq!(to_members(&refs_resolved), expected);
}

/// Whether an object has a member at `$ref`, however deep inside objects and arrays.
fn has_reference(found: &Value) -> bool {
    match found {
        Value::Object(members) => members.contains_key("$ref") || members.values().any(has_reference),
        Value::Array(items) => items.iter().any(has_reference),
        _ => false,
    }
}

#[test]
fn resolved_components_hold_no_references() {
    let refs = refs(
        "f",
        &[
            ("A", r##"{"$ref": "#components/schemas/B", "x": {"$ref": "#components/schemas/C"}}"##),
            ("B", r##"{"y": {"z": {"$ref": "f#components/schemas/C"}}}"##),
            ("C", r##"{"$ref": ["kept", "out"], "w": "$ref"}"##),
            ("D", r##"[[{"$ref": "#components/schemas/C"}], {"v": [{"$ref": "#components/schemas/B"}]}]"##),
        ],
    );
    let map = ref_resolved(&refs).unwrap();
    for (_, found) in to_members(&map) {
        assert!(!found.is_string());
        assert!(!has_reference(&found));
    }
    assert_eq!(
        to_value(map.get("fA").unwrap()),
        value(r##"{"y": {"z": {"w": "$ref"}}, "x": {"w": "$ref"}}"##)
    );
    assert_eq!(
        to_value(map.get("fD").unwrap()),
        value(r##"[[{"w": "$ref"}], {"v": [{"y": {"z": {"w": "$ref"}}}]}]"##)
    );
}

#[test]
fn the_order_of_documents_does_not_matter() {
    let file_a = document("./file_a.json", &[("COMPONENT_B", COMPONENT_B), ("COMPONENT_A", COMPONENT_A)]);
    let file_b = document("./file_b.json", &[("COMPONENT_D", COMPONENT_D), ("COMPONENT_C", COMPONENT_C)]);
    let one = ref_resolved(&ref_load(&vec![file_a.clone(), file_b.clone()]).unwrap()).unwrap();
    let other = ref_resolved(&ref_load(&vec![file_b, file_a]).unwrap()).unwrap();
    assert_eq!(to_members(&one), to_members(&other));
}

#[test]
fn a_string_is_a_reference() {
    let refs = refs("./file_a.json", &[("COMPONENT_B", COMPONENT_B)]);
    let reference = Json::String("#components/schemas/COMPONENT_B".to_string());
    let result = ref_resolve("./file_a.json", &reference, &refs).unwrap();
    assert_eq!(to_value(&result), value(COMPONENT_B));
}

#[test]
fn a_local_reference_is_one_that_names_the_file() {
    let refs = refs("./file_a.json", &[("COMPONENT_A", COMPONENT_A), ("COMPONENT_B", COMPONENT_B)]);
    let local = resolved(&refs, "./file_a.json", r##""#components/schemas/COMPONENT_A""##);
    let named = resolved(&refs, "elsewhere", r##""./file_a.json#components/schemas/COMPONENT_A""##);
    let slashes = resolved(&refs, "", r##""./file_a.json//#components/schemas/COMPONENT_A""##);
    assert_eq!(local, value(COMPONENT_A_RESOLVED));
    assert_eq!(named, local);
    assert_eq!(slashes, local);
}

#[test]
fn a_component_is_resolved_in_its_own_file() {
    let documents = vec![
        document("x.json", &[("TYPE", r##"{"is": {"$ref": "#components/schemas/PART"}}"##), ("PART", r#"{"of": "x"}"#)]),
        document("y.json", &[("PART", r#"{"of": "y"}"#)]),
    ];
    let refs = ref_load(&documents).unwrap();
    let found = resolved(&refs, "y.json", r##"{"$ref": "x.json/#components/schemas/TYPE"}"##);
    assert_eq!(found, value(r#"{"is": {"of": "x"}}"#));
}

#[test]
fn a_value_without_references_stays_as_it_is() {
    let refs = refs("f", &[]);
    for text in ["null", "true", "3", "[1, 2]", "{}", r#"{"a": {"b": ["c"]}, "d": "e"}"#] {
        assert_eq!(resolved(&refs, "f", text), value(text));
    }
}

#[test]
fn arrays_are_looked_into() {
    let refs = refs("f", &[("COMPONENT_B", COMPONENT_B), ("N", r#"{"n": 1}"#)]);
    let text = r##"{"oneOf": [{"$ref": "#components/schemas/COMPONENT_B"}]}"##;
    assert_eq!(resolved(&refs, "f", text), value(r#"{"oneOf": [{"bazz": {"type": "string"}}]}"#));
    let text = r##"[1, {"$ref": "#components/schemas/N"}, [{"a": [{"$ref": "#components/schemas/N"}]}], null]"##;
    assert_eq!(resolved(&refs, "f", text), value(r#"[1, {"n": 1}, [{"a": [{"n": 1}]}], null]"#));
}

#[test]
fn a_string_in_an_array_is_no_reference() {
    let refs = refs("f", &[("N", r#"{"n": 1}"#)]);
    let text = r##"{"required": ["short", "#components/schemas/N", "#components/schemas/UNKNOWN"]}"##;
    assert_eq!(resolved(&refs, "f", text), value(text));
}

#[test]
fn an_array_is_resolved_in_the_file_of_its_component() {
    let documents = vec![
        document("x.json", &[("ANY", r##"{"anyOf": [{"$ref": "#components/schemas/PART"}]}"##), ("PART", r#"{"of": "x"}"#)]),
        document("y.json", &[("PART", r#"{"of": "y"}"#)]),
    ];
    let refs = ref_load(&documents).unwrap();
    let found = resolved(&refs, "y.json", r##"[{"$ref": "x.json#components/schemas/ANY"}]"##);
    assert_eq!(found, value(r#"[{"anyOf": [{"of": "x"}]}]"#));
}

#[test]
fn the_first_item_that_fails_decides() {
    let refs = refs("f", &[("LOOP", r##"{"allOf": [{"$ref": "#components/schemas/LOOP"}]}"##)]);
    let text = r##"{"a": [2, {"$ref": "short"}, {"$ref": "long enough for a reference"}]}"##;
    assert!(matches!(problem(&refs, "f", text), Error::BadReference { reference, .. } if reference == "short"));
    let text = r##"[[{"$ref": "short"}], {"$ref": "#components/schemas/LOOP"}]"##;
    assert!(matches!(problem(&refs, "f", text), Error::BadReference { reference, .. } if reference == "short"));
    let text = r##"[{"$ref": "#components/schemas/LOOP"}, {"$ref": "short"}]"##;
    assert!(ref_resolve_checked("f", &json(text), &refs).is_none());
}

#[test]
fn resolving_again_changes_nothing() {
    let refs = refs("./file_a.json", &[("COMPONENT_A", COMPONENT_A), ("COMPONENT_B", COMPONENT_B)]);
    let once = ref_resolve("./file_a.json", &json(COMPONENT_A), &refs).unwrap();
    let twice = ref_resolve("other", &once, &RefMap::new()).unwrap();
    assert_eq!(to_value(&once), to_value(&twice));
}

#[test]
fn further_components_change_nothing() {
    let few = refs("./file_a.json", &[("COMPONENT_A", COMPONENT_A), ("COMPONENT_B", COMPONENT_B)]);
    let mut many = refs("./file_a.json", &[("COMPONENT_A", COMPONENT_A), ("COMPONENT_B", COMPONENT_B)]);
    many.insert("more".to_string(), Component { file: "m".to_string(), value: Json::Null });
    assert_eq!(
        resolved(&few, "./file_a.json", COMPONENT_A),
        resolved(&many, "./file_a.json", COMPONENT_A)
    );
}

#[test]
fn a_reference_that_is_no_string_is_dropped() {
    let refs = refs("f", &[]);
    assert_eq!(resolved(&refs, "f", r##"{"$ref": 1, "a": 2}"##), value(r#"{"a": 2}"#));
    assert_eq!(resolved(&refs, "f", r##"{"$ref": {"b": 1}}"##), value("{}"));
}

#[test]
fn members_stand_before_what_a_reference_brings_in() {
    let refs = refs("f", &[("COMPONENT_B", r#"{"bazz": 1, "foo": 2}"#)]);
    let text = r##"{"$ref": "#components/schemas/COMPONENT_B", "bazz": 3, "other": {"x": 4}}"##;
    assert_eq!(resolved(&refs, "f", text), value(r#"{"bazz": 3, "foo": 2, "other": {"x": 4}}"#));
}

#[test]
fn a_member_before_the_reference_is_not_overwritten() {
    let refs = refs("f", &[("COMPONENT_B", r#"{"!a": 1, "!b": 2, "!c": 3}"#)]);
    let text = r##"{"!b": 4, "!c": 5, "$ref": "#components/schemas/COMPONENT_B"}"##;
    match problem(&refs, "f", text) {
        Error::Overwritten { file, key } => assert_eq!((file.as_str(), key.as_str()), ("f", "!b")),
        other => panic!("{:?}", other),
    }
}

#[test]
fn a_reference_in_an_object_leads_to_an_object() {
    let refs = refs("f", &[("NUMBER", "7")]);
    match problem(&refs, "f", r##"{"$ref": "#components/schemas/NUMBER"}"##) {
        Error::NotAnObject { reference } => assert_eq!(reference, "#components/schemas/NUMBER"),
        other => panic!("{:?}", other),
    }
    assert_eq!(resolved(&refs, "f", r##""#components/schemas/NUMBER""##), value("7"));
}

#[test]
fn a_component_that_is_a_string_is_followed() {
    let refs = refs(
        "f",
        &[("ALIAS", r##""#components/schemas/COMPONENT_B""##), ("COMPONENT_B", COMPONENT_B)],
    );
    assert_eq!(resolved(&refs, "g", r##""f#components/schemas/ALIAS""##), value(COMPONENT_B));
}

#[test]
fn a_short_text_is_no_reference() {
    let refs = refs("f", &[]);
    match problem(&refs, "f", r##"{"a": {"$ref": "#components/schemas/"}}"##) {
        Error::BadReference { file, reference } => {
            assert_eq!((file.as_str(), reference.as_str()), ("f", "#components/schemas/"))
        }
        other => panic!("{:?}", other),
    }
}

#[test]
fn a_text_without_a_hash_is_no_reference() {
    let refs = refs("f", &[]);
    assert!(matches!(
        problem(&refs, "f", r#""components/schemas/COMPONENT_B""#),
        Error::BadReference { reference, .. } if reference == "components/schemas/COMPONENT_B"
    ));
}

#[test]
fn a_reference_leads_to_a_known_component() {
    let refs = refs("f", &[("COMPONENT_B", COMPONENT_B)]);
    match problem(&refs, "f", r##"{"$ref": "#components/schemas/COMPONENT_X"}"##) {
        Error::UnknownReference { file, reference } => {
            assert_eq!((file.as_str(), reference.as_str()), ("f", "#components/schemas/COMPONENT_X"))
        }
        other => panic!("{:?}", other),
    }
}

#[test]
fn the_first_member_that_fails_decides() {
    let refs = refs("f", &[("LOOP", r##"{"$ref": "#components/schemas/LOOP"}"##)]);
    let text = r##"{"a": {"$ref": "short"}, "b": {"$ref": "#components/schemas/LOOP"}}"##;
    assert!(matches!(problem(&refs, "f", text), Error::BadReference { reference, .. } if reference == "short"));
    let text = r##"{"a": {"$ref": "#components/schemas/LOOP"}, "b": {"$ref": "short"}}"##;
    assert!(ref_resolve_checked("f", &json(text), &refs).is_none());
}

#[test]
fn references_in_a_circle_have_no_answer() {
    let refs = refs(
        "f",
        &[
            ("ONE", r##"{"x": {"$ref": "#components/schemas/TWO"}}"##),
            ("TWO", r##"{"y": {"$ref": "#components/schemas/ONE"}}"##),
            ("THREE", "{}"),
        ],
    );
    assert!(ref_resolve_checked("f", &json(r##""#components/schemas/ONE""##), &refs).is_none());
    assert!(ref_resolved_checked(&refs).is_none());
}

#[test]
fn a_chain_of_all_components_has_an_answer() {
    let refs = refs(
        "f",
        &[
            ("A", r##"{"a": {"$ref": "#components/schemas/B"}}"##),
            ("B", r##"{"b": {"$ref": "#components/schemas/C"}}"##),
            ("C", r##"{"c": {"$ref": "#components/schemas/D"}}"##),
            ("D", r##"{"d": 1}"##),
        ],
    );
    let found = resolved(&refs, "f", r##"{"$ref": "#components/schemas/A"}"##);
    assert_eq!(found, value(r#"{"a": {"b": {"c": {"d": 1}}}}"#));
}

#[test]
fn references_without_a_circle_have_an_answer() {
    let shared = r##"{"left": [{"$ref": "#components/schemas/L"}], "right": {"$ref": "#components/schemas/R"}}"##;
    let refs = refs(
        "f",
        &[
            ("TOP", shared),
            ("L", r##"{"l": {"$ref": "#components/schemas/LEAF"}}"##),
            ("R", r##"{"r": [[{"$ref": "#components/schemas/LEAF"}]]}"##),
            ("LEAF", r##"{"names": ["#components/schemas/TOP"], "name": "#components/schemas/TOP"}"##),
        ],
    );
    let leaf = r##"{"names": ["#components/schemas/TOP"], "name": "#components/schemas/TOP"}"##;
    let map = ref_resolved_checked(&refs).unwrap().unwrap();
    assert_eq!(
        to_value(map.get("fTOP").unwrap()),
        value(&format!(r##"{{"left": [{{"l": {0}}}], "right": {{"r": [[{0}]]}}}}"##, leaf))
    );
    let unknown = r##"[{"$ref": "#components/schemas/TOP"}, {"$ref": "#components/schemas/NOWHERE"}]"##;
    assert!(matches!(problem(&refs, "f", unknown), Error::UnknownReference { .. }));
}

#[test]
fn a_reference_that_cannot_be_cut_has_no_answer() {
    let refs = refs("f", &[]);
    let too_short = r##""./a_long_file_name.json#components""##;
    assert!(ref_resolve_checked("f", &json(too_short), &refs).is_none());
    // The 19th byte lies inside the last character.
    let inside = "\"./f.json#components/schemas\u{e9}\"";
    assert!(ref_resolve_checked("f", &json(inside), &refs).is_none());
}

#[test]
fn the_problem_of_a_component_is_the_problem_of_the_map() {
    let refs = refs("f", &[("GOOD", "{}"), ("BAD", r##"{"$ref": "#components/schemas/NOWHERE"}"##)]);
    match ref_resolved(&refs) {
        Err(Error::UnknownReference { file, reference }) => {
            assert_eq!((file.as_str(), reference.as_str()), ("f", "#components/schemas/NOWHERE"))
        }
        other => panic!("{:?}", other.map(|_| ())),
    }
}

fn target(reference: &str) -> Option<(String, String)> {
    match read_reference(reference) {
        Pointer::To { file, name } => Some((file, name)),
        _ => None,
    }
}

#[test]
fn references_are_read() {
    let pair = |file: &str, name: &str| Some((file.to_string(), name.to_string()));
    assert_eq!(target("#components/schemas/N"), pair("", "N"));
    assert_eq!(target("./a.json/#components/schemas/NAME"), pair("./a.json", "NAME"));
    assert_eq!(target("a///#components/schemas/x#y"), pair("a", "x#y"));
    assert_eq!(target("///#components/schemas/N"), pair("", "N"));
    assert_eq!(target("f#components/schemas/"), pair("f", ""));
    assert_eq!(target("f#0123456789012345678\u{e9}"), pair("f", "\u{e9}"));
    assert!(matches!(read_reference("#components/schemas/"), Pointer::Malformed));
    assert!(matches!(read_reference(""), Pointer::Malformed));
    assert!(matches!(read_reference("components/schemas/NAME"), Pointer::Malformed));
    assert!(matches!(read_reference("a_long_file_name.json#x"), Pointer::Truncated));
}
