use json2arkdown::outline::{
    add_header, build_header_chain, build_value_chain, outline_document, parse_json,
};
use json2arkdown::JsonValue;

fn obj(entries: Vec<(&str, JsonValue)>) -> JsonValue {
    JsonValue::Object(entries.into_iter().map(|(k, v)| (k.to_string(), v)).collect())
}

#[test]
fn header_chain_top_level() {
    assert_eq!(build_header_chain(0, "user_name"), "# User Name #\n");
}

#[test]
fn header_chain_nested() {
    assert_eq!(build_header_chain(2, "value"), "* ### Value ###\n");
}

#[test]
fn value_chain_scalars() {
    assert_eq!(build_value_chain(&JsonValue::Number("1".to_string()), 1), "* : 1\n");
    assert_eq!(build_value_chain(&JsonValue::Null, 3), "    * : null\n");
    assert_eq!(build_value_chain(&JsonValue::Bool(false), 0), "* : false\n");
    assert_eq!(build_value_chain(&JsonValue::Str("a\"b".to_string()), 0), "* : \"a\\\"b\"\n");
}

#[test]
fn add_header_appends() {
    let mut md = "x\n".to_string();
    add_header("k", 1, &mut md);
    assert_eq!(md, "x\n* ## K ##\n");
}

#[test]
fn parse_json_nested_object() {
    let doc = obj(vec![(
        "a",
        obj(vec![("b", obj(vec![("c", JsonValue::Null)])), ("s", JsonValue::Str("hi".to_string()))]),
    )]);
    let mut md = String::new();
    parse_json(&doc, 0, &mut md);
    assert_eq!(md, "# A #\n* ## B ##\n  * : null\n* : \"hi\"\n");
}

#[test]
fn parse_json_list_items() {
    let doc = obj(vec![(
        "l",
        JsonValue::Array(vec![JsonValue::Number("1".to_string()), obj(vec![("k", JsonValue::Bool(true))])]),
    )]);
    let mut md = String::new();
    parse_json(&doc, 0, &mut md);
    assert_eq!(md, "# L #\n* : 1\n* : true\n");
}

#[test]
fn parse_json_scalar_adds_nothing() {
    let mut md = String::new();
    parse_json(&JsonValue::Number("3".to_string()), 0, &mut md);
    assert_eq!(md, "");
}

#[test]
fn outline_document_collapses_deep_headings() {
    let mut doc = obj(vec![("z", JsonValue::Null)]);
    for _ in 0..8 {
        doc = obj(vec![("k", doc)]);
    }
    let out = outline_document(&doc);
    assert!(!out.contains("#######"));
    assert!(out.contains("* ###### K ######\n"));
}

#[test]
fn parse_json_list_inside_list() {
    let doc = obj(vec![(
        "l",
        JsonValue::Array(vec![
            JsonValue::Array(vec![JsonValue::Number("1".to_string()), JsonValue::Number("2".to_string())]),
            JsonValue::Number("3".to_string()),
        ]),
    )]);
    let mut md = String::new();
    parse_json(&doc, 0, &mut md);
    assert_eq!(md, "# L #\n* : 1\n* : 2\n* : 3\n");
}

#[test]
fn value_chain_escapes_controls() {
    assert_eq!(
        build_value_chain(&JsonValue::Str("a\nb\u{1}\\".to_string()), 0),
        "* : \"a\\nb\\u0001\\\\\"\n"
    );
}
