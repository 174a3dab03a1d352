use snappy_json::pointer::escape_pointer_token;
use snappy_json::state::{AppState, load_document, load_children};
use snappy_json::tree::truncate;

#[test]
fn escape_plain_key_unchanged() {
    assert_eq!(escape_pointer_token("name"), "name");
    assert_eq!(escape_pointer_token(""), "");
    assert_eq!(escape_pointer_token("0"), "0");
}

#[test]
fn escape_tilde_and_slash() {
    assert_eq!(escape_pointer_token("a/b"), "a~1b");
    assert_eq!(escape_pointer_token("a~b"), "a~0b");
    assert_eq!(escape_pointer_token("~/"), "~0~1");
}

#[test]
fn escape_round_trip_through_resolution() {
    // a key containing both '/' and '~' yields a pointer segment that leads
    // back to exactly that entry
    let mut state = AppState::default();
    let text = r#"{"we/ird~key":{"x":1},"plain":2}"#;
    load_document(&mut state, text).unwrap();
    let seg = escape_pointer_token("we/ird~key");
    assert_eq!(seg, "we~1ird~0key");
    let pointer = format!("/{}", seg);
    let kids = load_children(pointer, 0, 10, &state).unwrap();
    assert_eq!(kids.len(), 1);
    assert_eq!(kids[0].pointer, "/we~1ird~0key/x");
    assert_eq!(kids[0].key.as_deref(), Some("x"));
    assert_eq!(kids[0].value_type, "number");
}

#[test]
fn empty_key_and_empty_trailing_segment_resolve() {
    let mut state = AppState::default();
    load_document(&mut state, r#"{"":{"x":5}}"#).unwrap();
    // "/" names the entry whose key is the empty string
    let kids = load_children("/".to_string(), 0, 10, &state).unwrap();
    assert_eq!(kids.len(), 1);
    assert_eq!(kids[0].pointer, "//x");
    assert_eq!(
        snappy_json::node::get_node_value("//x".to_string(), &state).unwrap(),
        "5"
    );
}

#[test]
fn truncate_within_budget_keeps_text() {
    assert_eq!(truncate("hello", 10), "hello");
    assert_eq!(truncate("hello", 5), "hello");
}

#[test]
fn truncate_cuts_at_character_budget() {
    assert_eq!(truncate("hello world", 5), "hello…");
    // the budget counts characters, not bytes
    assert_eq!(truncate("héllo", 2), "hé…");
    assert_eq!(truncate("abc", 0), "…");
}
