use snappy_json::json::JsonValue;
use snappy_json::tree::{
    build_node_for_pointer, create_node_for_path, text_matches, to_node_with_truncation,
};
use snappy_json::search::search_recursive;

fn sample() -> JsonValue {
    JsonValue::Obj(vec![
        (
            "user".to_string(),
            JsonValue::Obj(vec![
                ("name".to_string(), JsonValue::Str("Ann".to_string())),
                ("age".to_string(), JsonValue::Num("39".to_string())),
            ]),
        ),
        (
            "tags".to_string(),
            JsonValue::Arr(vec![
                JsonValue::Str("a".to_string()),
                JsonValue::Bool(false),
                JsonValue::Null,
            ]),
        ),
    ])
}

#[test]
fn node_for_a_keyed_child() {
    let v = JsonValue::Str("some value".to_string());
    let n = to_node_with_truncation("/user", Some("na/me"), &v, None);
    assert_eq!(n.pointer, "/user/na~1me");
    assert_eq!(n.key.as_deref(), Some("na/me"));
    assert_eq!(n.value_type, "string");
    assert!(!n.has_children);
    assert_eq!(n.child_count, 0);
    assert_eq!(n.preview, "some value");
}

#[test]
fn node_without_key_sits_at_the_parent_pointer() {
    let v = JsonValue::Arr(vec![JsonValue::Null, JsonValue::Null]);
    let n = to_node_with_truncation("/tags", None, &v, None);
    assert_eq!(n.pointer, "/tags");
    assert_eq!(n.key, None);
    assert_eq!(n.value_type, "array");
    assert!(n.has_children);
    assert_eq!(n.child_count, 2);
    assert_eq!(n.preview, "[…] 2 items");
}

#[test]
fn node_for_a_path_reports_the_raw_last_segment() {
    let v = JsonValue::Num("1".to_string());
    let n = create_node_for_path(&v, "/a~1b/c");
    assert_eq!(n.pointer, "/a~1b/c");
    assert_eq!(n.key.as_deref(), Some("c"));
    let root = create_node_for_path(&v, "");
    assert_eq!(root.key, None);
    // the reported key is the raw segment, escapes included
    let esc = create_node_for_path(&v, "/x/k~0y");
    assert_eq!(esc.key.as_deref(), Some("k~0y"));
}

#[test]
fn long_string_previews_are_cut_at_the_budget() {
    let long: String = "x".repeat(200);
    let v = JsonValue::Str(long.clone());
    let n = create_node_for_path(&v, "/s");
    assert_eq!(n.preview.chars().count(), 121);
    assert!(n.preview.ends_with('…'));
    let untruncated = to_node_with_truncation("", Some("s"), &v, None);
    assert_eq!(untruncated.preview, long);
}

#[test]
fn build_node_resolves_or_rejects() {
    let doc = sample();
    let n = build_node_for_pointer(&doc, "/user/name").unwrap();
    assert_eq!(n.value_type, "string");
    assert_eq!(n.preview, "Ann");
    let root = build_node_for_pointer(&doc, "").unwrap();
    assert_eq!(root.value_type, "object");
    assert_eq!(root.child_count, 2);
    assert_eq!(
        build_node_for_pointer(&doc, "/nope").unwrap_err(),
        "Invalid pointer"
    );
}

#[test]
fn text_matching_policies() {
    assert!(text_matches("hello world", "lo wo", None, false));
    assert!(!text_matches("hello world", "xyz", None, false));
    assert!(text_matches("hello world", "world", None, true));
    assert!(!text_matches("hello worlds", "world", None, true));
    let re = regex::Regex::new("^he.*d$").unwrap();
    assert!(text_matches("hello world", "ignored", Some(&re), false));
    assert!(!text_matches("say hello world!", "ignored", Some(&re), false));
}

#[test]
fn recursive_collector_appends_in_traversal_order() {
    let doc = sample();
    let mut results = Vec::new();
    search_recursive(
        &doc, "", "a", None, true, true, false, true, false, &mut results,
    );
    let got: Vec<(String, String)> = results
        .iter()
        .map(|r| (r.match_type.clone(), r.node.pointer.clone()))
        .collect();
    // keys and scalar values holding "a", parents before children, arrays in
    // index order
    assert_eq!(
        got,
        vec![
            ("key".to_string(), "/user/name".to_string()),
            ("key".to_string(), "/user/age".to_string()),
            ("key".to_string(), "/tags".to_string()),
            ("value".to_string(), "/tags/0".to_string()),
            ("value".to_string(), "/tags/1".to_string()),
        ]
    );
    assert_eq!(results[3].context.as_deref(), Some("in index: 0"));
    assert_eq!(results[4].match_text, "false");
}
