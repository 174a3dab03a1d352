use snappy_json::state::{AppState, load_document};
use snappy_json::node::{
    get_node_value, node_value_pretty, set_node_value, set_subtree, parse_stringified_json,
};

fn loaded(text: &str) -> AppState {
    let mut state = AppState::default();
    load_document(&mut state, text).unwrap();
    state
}

#[test]
fn get_value_serializes_the_subtree() {
    let state = loaded(r#"{"a":{"x":1},"b":[1,2]}"#);
    assert_eq!(get_node_value("/a".to_string(), &state).unwrap(), r#"{"x":1}"#);
    assert_eq!(get_node_value("/b/1".to_string(), &state).unwrap(), "2");
    assert_eq!(
        get_node_value(String::new(), &state).unwrap(),
        r#"{"a":{"x":1},"b":[1,2]}"#
    );
}

#[test]
fn get_value_errors() {
    let empty = AppState::default();
    assert_eq!(
        get_node_value(String::new(), &empty).unwrap_err(),
        "No document loaded"
    );
    let state = loaded(r#"{"a":1}"#);
    assert_eq!(
        get_node_value("/missing".to_string(), &state).unwrap_err(),
        "Invalid pointer"
    );
    assert_eq!(
        get_node_value("no-slash".to_string(), &state).unwrap_err(),
        "Invalid pointer"
    );
}

#[test]
fn pretty_value_is_indented() {
    let state = loaded(r#"{"a":{"x":1}}"#);
    let pretty = node_value_pretty("/a".to_string(), &state).unwrap();
    assert_eq!(pretty, "{\n  \"x\": 1\n}");
}

#[test]
fn set_number_then_get_returns_the_number() {
    // mutation idempotence: writing "42" to a number field reads back as 42
    let mut state = loaded(r#"{"n":7}"#);
    let node = set_node_value("/n".to_string(), "42".to_string(), &mut state).unwrap();
    assert_eq!(node.value_type, "number");
    assert_eq!(node.preview, "42");
    assert_eq!(get_node_value("/n".to_string(), &state).unwrap(), "42");
}

#[test]
fn set_number_accepts_floats_and_trims() {
    let mut state = loaded(r#"{"n":7}"#);
    set_node_value("/n".to_string(), " 2.5 ".to_string(), &mut state).unwrap();
    assert_eq!(get_node_value("/n".to_string(), &state).unwrap(), "2.5");
}

#[test]
fn set_number_normalizes_the_literal() {
    // a non-canonical literal is stored in canonical form
    let mut state = loaded(r#"{"n":7}"#);
    set_node_value("/n".to_string(), "2.50".to_string(), &mut state).unwrap();
    assert_eq!(get_node_value("/n".to_string(), &state).unwrap(), "2.5");
    set_node_value("/n".to_string(), "1e2".to_string(), &mut state).unwrap();
    assert_eq!(get_node_value("/n".to_string(), &state).unwrap(), "100.0");
    set_node_value("/n".to_string(), "042".to_string(), &mut state).unwrap();
    assert_eq!(get_node_value("/n".to_string(), &state).unwrap(), "42");
    set_node_value("/n".to_string(), "+7".to_string(), &mut state).unwrap();
    assert_eq!(get_node_value("/n".to_string(), &state).unwrap(), "7");
}

#[test]
fn set_number_accepts_the_ordinary_float_forms() {
    // a bare leading or trailing dot, a plus sign and redundant leading
    // zeros are all accepted, and stored in canonical form
    let mut state = loaded(r#"{"n":7}"#);
    set_node_value("/n".to_string(), ".5".to_string(), &mut state).unwrap();
    assert_eq!(get_node_value("/n".to_string(), &state).unwrap(), "0.5");
    set_node_value("/n".to_string(), "5.".to_string(), &mut state).unwrap();
    assert_eq!(get_node_value("/n".to_string(), &state).unwrap(), "5.0");
    set_node_value("/n".to_string(), "+1.5".to_string(), &mut state).unwrap();
    assert_eq!(get_node_value("/n".to_string(), &state).unwrap(), "1.5");
    set_node_value("/n".to_string(), "-.5".to_string(), &mut state).unwrap();
    assert_eq!(get_node_value("/n".to_string(), &state).unwrap(), "-0.5");
    set_node_value("/n".to_string(), "007.5".to_string(), &mut state).unwrap();
    assert_eq!(get_node_value("/n".to_string(), &state).unwrap(), "7.5");
    set_node_value("/n".to_string(), "5.e3".to_string(), &mut state).unwrap();
    assert_eq!(get_node_value("/n".to_string(), &state).unwrap(), "5000.0");
    // a dot or an exponent with no digits is still no number
    assert_eq!(
        set_node_value("/n".to_string(), ".".to_string(), &mut state).unwrap_err(),
        "Invalid number literal"
    );
    assert_eq!(
        set_node_value("/n".to_string(), "e5".to_string(), &mut state).unwrap_err(),
        "Invalid number literal"
    );
}

#[test]
fn set_number_rejects_a_value_out_of_range() {
    let mut state = loaded(r#"{"n":7}"#);
    let err =
        set_node_value("/n".to_string(), "1e999".to_string(), &mut state).unwrap_err();
    assert_eq!(err, "Invalid number literal");
}

#[test]
fn set_number_rejects_bad_literals() {
    let mut state = loaded(r#"{"n":7}"#);
    let err = set_node_value("/n".to_string(), "forty".to_string(), &mut state).unwrap_err();
    assert_eq!(err, "Invalid number literal");
    assert_eq!(get_node_value("/n".to_string(), &state).unwrap(), "7");
}

#[test]
fn set_string_is_verbatim() {
    let mut state = loaded(r#"{"s":"old"}"#);
    set_node_value("/s".to_string(), "new text".to_string(), &mut state).unwrap();
    assert_eq!(
        get_node_value("/s".to_string(), &state).unwrap(),
        r#""new text""#
    );
}

#[test]
fn set_bool_accepts_case_insensitive_literals() {
    let mut state = loaded(r#"{"b":false}"#);
    set_node_value("/b".to_string(), "TRUE".to_string(), &mut state).unwrap();
    assert_eq!(get_node_value("/b".to_string(), &state).unwrap(), "true");
    set_node_value("/b".to_string(), "False".to_string(), &mut state).unwrap();
    assert_eq!(get_node_value("/b".to_string(), &state).unwrap(), "false");
    let err = set_node_value("/b".to_string(), "yes".to_string(), &mut state).unwrap_err();
    assert_eq!(err, "Invalid boolean (expected true/false)");
}

#[test]
fn set_null_and_composites_are_rejected() {
    let mut state = loaded(r#"{"z":null,"o":{},"a":[]}"#);
    assert_eq!(
        set_node_value("/z".to_string(), "1".to_string(), &mut state).unwrap_err(),
        "Editing null not supported"
    );
    assert_eq!(
        set_node_value("/o".to_string(), "1".to_string(), &mut state).unwrap_err(),
        "Editing non-scalar value not supported"
    );
    assert_eq!(
        set_node_value("/a".to_string(), "1".to_string(), &mut state).unwrap_err(),
        "Editing non-scalar value not supported"
    );
}

#[test]
fn set_scalar_errors_without_document_or_pointer() {
    let mut empty = AppState::default();
    assert_eq!(
        set_node_value("/x".to_string(), "1".to_string(), &mut empty).unwrap_err(),
        "No document loaded"
    );
    let mut state = loaded(r#"{"a":1}"#);
    assert_eq!(
        set_node_value("/b".to_string(), "1".to_string(), &mut state).unwrap_err(),
        "Invalid pointer"
    );
}

#[test]
fn set_subtree_replaces_matching_kind() {
    let mut state = loaded(r#"{"a":{"x":1}}"#);
    let node = set_subtree(
        "/a".to_string(),
        r#"{"y":2,"z":3}"#.to_string(),
        &mut state,
    )
    .unwrap();
    assert_eq!(node.value_type, "object");
    assert_eq!(node.child_count, 2);
    assert_eq!(
        get_node_value("/a".to_string(), &state).unwrap(),
        r#"{"y":2,"z":3}"#
    );
}

#[test]
fn set_subtree_rejects_a_kind_change() {
    // replacing an object with an array is refused and the value is kept
    let mut state = loaded(r#"{"a":{"x":1}}"#);
    let err = set_subtree("/a".to_string(), "[1,2,3]".to_string(), &mut state).unwrap_err();
    assert_eq!(err, "Type change not allowed (must remain object/array)");
    assert_eq!(get_node_value("/a".to_string(), &state).unwrap(), r#"{"x":1}"#);
}

#[test]
fn set_subtree_rejects_scalars_and_bad_json() {
    let mut state = loaded(r#"{"a":{"x":1}}"#);
    assert_eq!(
        set_subtree("/a".to_string(), "5".to_string(), &mut state).unwrap_err(),
        "Edited subtree must be an object or array"
    );
    let err = set_subtree("/a".to_string(), "{broken".to_string(), &mut state).unwrap_err();
    assert!(err.starts_with("Parse error: "));
    assert_eq!(
        set_subtree("/n".to_string(), "[1]".to_string(), &mut state).unwrap_err(),
        "Invalid pointer"
    );
    let mut with_scalar = loaded(r#"{"n":5}"#);
    assert_eq!(
        set_subtree("/n".to_string(), "[1]".to_string(), &mut with_scalar).unwrap_err(),
        "Current value is not an object or array"
    );
}

#[test]
fn promote_stringified_json() {
    let mut state = loaded(r#"{"payload":" {\"k\": [1, 2]} "}"#);
    let node = parse_stringified_json("/payload".to_string(), &mut state).unwrap();
    assert_eq!(node.value_type, "object");
    assert_eq!(
        get_node_value("/payload".to_string(), &state).unwrap(),
        r#"{"k":[1,2]}"#
    );
}

#[test]
fn promote_rejects_non_json_strings() {
    let mut state = loaded(r#"{"s":"plain","n":1,"half":"{oops"}"#);
    assert_eq!(
        parse_stringified_json("/s".to_string(), &mut state).unwrap_err(),
        "String does not look like a JSON object/array"
    );
    assert_eq!(
        parse_stringified_json("/n".to_string(), &mut state).unwrap_err(),
        "Target node is not a string"
    );
    assert_eq!(
        parse_stringified_json("/half".to_string(), &mut state).unwrap_err(),
        "String does not look like a JSON object/array"
    );
    let mut broken = loaded(r#"{"s":"{not json}"}"#);
    let err = parse_stringified_json("/s".to_string(), &mut broken).unwrap_err();
    assert!(err.starts_with("Parse error: "));
    assert_eq!(
        get_node_value("/s".to_string(), &broken).unwrap(),
        r#""{not json}""#
    );
}
