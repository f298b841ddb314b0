use json2arkdown::render::nesting_within;
use json2arkdown::{JsonValue, MarkdownRenderer};

fn from_serde(v: &serde_json::Value) -> JsonValue {
    match v {
        serde_json::Value::Null => JsonValue::Null,
        serde_json::Value::Bool(b) => JsonValue::Bool(*b),
        serde_json::Value::Number(n) => JsonValue::Number(n.to_string()),
        serde_json::Value::String(s) => JsonValue::Str(s.clone()),
        serde_json::Value::Array(items) => JsonValue::Array(items.iter().map(from_serde).collect()),
        serde_json::Value::Object(map) => JsonValue::Object(
            map.iter().map(|(k, v)| (k.clone(), from_serde(v))).collect(),
        ),
    }
}

fn parse(text: &str) -> JsonValue {
    from_serde(&serde_json::from_str(text).unwrap())
}

fn render_default(text: &str) -> String {
    MarkdownRenderer::default().render(&parse(text))
}

#[test]
fn empty_object_renders_empty() {
    assert_eq!(render_default("{}"), "");
}

#[test]
fn empty_array_renders_empty() {
    assert_eq!(render_default("[]"), "");
}

#[test]
fn title_example_renders_heading_and_value() {
    assert_eq!(render_default(r#"{"title": "My Project"}"#), "## Title\n\n\n\nMy Project\n");
}

#[test]
fn basic_example_with_explicit_config() {
    let r = MarkdownRenderer::new(1, 2);
    assert_eq!(r.render(&parse(r#"{"title": "My Project"}"#)), "## Title\n\n\n\nMy Project\n");
}

#[test]
fn top_level_key_heading_regardless_of_value() {
    assert!(render_default(r#"{"user_name": 5}"#).starts_with("## User Name\n\n"));
    assert!(render_default(r#"{"firstName": [1]}"#).starts_with("## First Name\n\n"));
    assert!(render_default(r#"{"k": {"x": 1}}"#).starts_with("## K\n\n"));
}

#[test]
fn nested_objects_become_headings_then_bullets() {
    assert_eq!(
        render_default(r#"{"a": {"b": {"c": "x"}}}"#),
        "## A\n\n\n\n ### B\n\n\n\n  - **C**\n\n  x\n"
    );
}

#[test]
fn second_level_key_is_subsection_heading() {
    assert_eq!(render_default(r#"{"a": {"b": 1}}"#), "## A\n\n\n\n ### B\n\n: 1\n");
}

#[test]
fn deeper_keys_use_configured_increment() {
    let r = MarkdownRenderer::new(1, 3);
    assert_eq!(
        r.render(&parse(r#"{"a": {"b": {"c": {"d": 1}}}}"#)),
        "## A\n\n\n\n ### B\n\n\n\n  - **C**\n\n     - **D**: 1\n"
    );
}

#[test]
fn null_renders_na() {
    assert_eq!(render_default(r#"{"a": null}"#), "## A\n\n: N/A\n");
    assert_eq!(render_default("null"), "N/A\n\n");
    assert_eq!(render_default("[null]"), "- N/A\n");
}

#[test]
fn empty_object_and_empty_array_values_render_alike() {
    let with_object = render_default(r#"{"a": {}}"#);
    let with_array = render_default(r#"{"a": []}"#);
    assert_eq!(with_object, "## A\n\n");
    assert_eq!(with_array, with_object);
}

#[test]
fn link_values_are_not_reflowed() {
    assert_eq!(
        render_default(r#"{"link": "http://x.com/a. B c. Done"}"#),
        "## Link\n\n\n\nhttp://x.com/a. B c. Done\n"
    );
    assert_eq!(
        render_default(r#"{"a": {"b": {"u": "https://e.org/x. y"}}}"#),
        "## A\n\n\n\n ### B\n\n\n\n  - **U**\n\n  https://e.org/x. y\n"
    );
}

#[test]
fn prose_value_split_into_paragraphs_under_heading() {
    assert_eq!(render_default(r#"{"t": "One. Two."}"#), "## T\n\n\n\nOne\n\nTwo.\n\n\n");
}

#[test]
fn prose_value_split_and_indented_in_list() {
    assert_eq!(
        render_default(r#"{"a": {"b": {"c": "One. Two."}}}"#),
        "## A\n\n\n\n ### B\n\n\n\n  - **C**\n\n    One\n\n    Two.\n\n\n"
    );
}

#[test]
fn abbreviation_sentence_in_document() {
    assert_eq!(
        render_default(r#"{"note": "Dr. Smith went home. He was tired."}"#),
        "## Note\n\n\n\nDr\n\nSmith went home\n\nHe was tired.\n\n\n"
    );
}

#[test]
fn array_under_key_is_nested_list() {
    assert_eq!(
        render_default(r#"{"list": ["a", 1, true]}"#),
        "## List\n\n\n\n   - a\n   - 1\n   - true\n\n\n"
    );
}

#[test]
fn top_level_array_is_plain_list() {
    assert_eq!(render_default(r#"[1, "x", false]"#), "- 1\n- x\n- false\n");
}

#[test]
fn objects_inside_array_become_bullets() {
    assert_eq!(render_default(r#"[{"k": 1}]"#), "  - **K**: 1\n");
}

#[test]
fn scalar_document() {
    assert_eq!(render_default(r#""hello""#), "hello\n\n");
    assert_eq!(render_default("2.5"), "2.5\n\n");
}

#[test]
fn long_hash_runs_collapse_in_output() {
    assert_eq!(render_default(r#"{"k": "x ######## y"}"#), "## K\n\n\n\nx ###### y\n");
    assert!(!render_default("{\"k\": [\"##########\"]}").contains("#######"));
}

#[test]
fn try_render_matches_render() {
    let r = MarkdownRenderer::default();
    let doc = parse(r#"{"a": {"b": [1, {"c": null}]}}"#);
    assert_eq!(r.try_render(&doc), Some(r.render(&doc)));
}

#[test]
fn try_render_refuses_indentation_out_of_range() {
    let r = MarkdownRenderer::new(usize::MAX, 2);
    assert_eq!(r.try_render(&parse(r#"{"a": {"b": 1}}"#)), None);
    assert_eq!(r.try_render(&JsonValue::Null), Some("N/A\n\n".to_string()));
    assert_eq!(r.try_render(&parse("{}")), Some(String::new()));
    assert_eq!(r.try_render(&parse("[]")), Some(String::new()));
    let flat = MarkdownRenderer::new(1, 0);
    assert_eq!(flat.try_render(&JsonValue::Null), Some("N/A\n\n".to_string()));
}

#[test]
fn nesting_counts_container_levels() {
    assert_eq!(nesting_within(&parse(r#"{"a": [[1]]}"#), 10), Some(3));
    assert_eq!(nesting_within(&parse("7"), 0), Some(0));
    assert_eq!(nesting_within(&parse(r#"{"a": [[1]]}"#), 2), None);
}
