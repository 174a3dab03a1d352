use snappy_json::state::{AppState, load_document, load_children};

fn loaded(text: &str) -> AppState {
    let mut state = AppState::default();
    load_document(&mut state, text).unwrap();
    state
}

#[test]
fn full_page_returns_every_child() {
    let state = loaded(r#"{"a":1,"b":"two","c":[1,2],"d":{"e":null}}"#);
    let kids = load_children(String::new(), 0, 4, &state).unwrap();
    assert_eq!(kids.len(), 4);
    let pointers: Vec<&str> = kids.iter().map(|n| n.pointer.as_str()).collect();
    assert_eq!(pointers, vec!["/a", "/b", "/c", "/d"]);
}

#[test]
fn pagination_partitions_without_overlap_or_gap() {
    let state = loaded(r#"{"a":1,"b":2,"c":3,"d":4,"e":5}"#);
    let first = load_children(String::new(), 0, 2, &state).unwrap();
    let second = load_children(String::new(), 2, 2, &state).unwrap();
    let third = load_children(String::new(), 4, 2, &state).unwrap();
    let mut seen: Vec<String> = Vec::new();
    for n in first.iter().chain(second.iter()).chain(third.iter()) {
        assert!(!seen.contains(&n.pointer));
        seen.push(n.pointer.clone());
    }
    assert_eq!(seen.len(), 5);
    let beyond = load_children(String::new(), 5, 2, &state).unwrap();
    assert_eq!(beyond.len(), 0);
}

#[test]
fn array_children_are_indexed_in_order() {
    let state = loaded(r#"{"items":[10,20,30]}"#);
    let kids = load_children("/items".to_string(), 0, 100, &state).unwrap();
    assert_eq!(kids.len(), 3);
    assert_eq!(kids[0].pointer, "/items/0");
    assert_eq!(kids[1].pointer, "/items/1");
    assert_eq!(kids[2].pointer, "/items/2");
    assert_eq!(kids[0].key.as_deref(), Some("0"));
    assert_eq!(kids[1].preview, "20");
}

#[test]
fn scalar_target_has_no_children() {
    let state = loaded(r#"{"a":1}"#);
    let kids = load_children("/a".to_string(), 0, 10, &state).unwrap();
    assert_eq!(kids.len(), 0);
}

#[test]
fn unresolvable_pointer_degrades_to_root() {
    let state = loaded(r#"{"a":1}"#);
    let kids = load_children("/missing/deep".to_string(), 0, 10, &state).unwrap();
    assert_eq!(kids.len(), 1);
    assert_eq!(kids[0].pointer, "/missing/deep/a");
    let invalid = load_children("no-leading-slash".to_string(), 0, 10, &state).unwrap();
    assert_eq!(invalid.len(), 1);
}

#[test]
fn node_summaries_report_type_count_and_preview() {
    let state = loaded(r#"{"obj":{"x":1,"y":2},"arr":[],"s":"hi","n":2.5,"b":true,"z":null}"#);
    let kids = load_children(String::new(), 0, 10, &state).unwrap();
    assert_eq!(kids[0].value_type, "object");
    assert!(kids[0].has_children);
    assert_eq!(kids[0].child_count, 2);
    assert_eq!(kids[0].preview, "{…} 2 keys");
    assert_eq!(kids[1].value_type, "array");
    assert!(!kids[1].has_children);
    assert_eq!(kids[1].child_count, 0);
    assert_eq!(kids[1].preview, "[] 0 items");
    assert_eq!(kids[2].value_type, "string");
    assert_eq!(kids[2].preview, "hi");
    assert_eq!(kids[3].value_type, "number");
    assert_eq!(kids[3].preview, "2.5");
    assert_eq!(kids[4].value_type, "boolean");
    assert_eq!(kids[4].preview, "true");
    assert_eq!(kids[5].value_type, "null");
    assert_eq!(kids[5].preview, "null");
}

#[test]
fn no_document_is_a_precondition_error() {
    let state = AppState::default();
    let err = load_children(String::new(), 0, 10, &state).unwrap_err();
    assert_eq!(err, "No document loaded");
}
