use snappy_json::state::{
    AppState, load_document, open_clipboard_text, cancel_parse, begin_load,
};
use snappy_json::node::get_node_value;
use snappy_json::progress::ProgressTracker;

#[test]
fn load_replaces_the_document_wholesale() {
    let mut state = AppState::default();
    load_document(&mut state, r#"{"a":1}"#).unwrap();
    assert_eq!(get_node_value(String::new(), &state).unwrap(), r#"{"a":1}"#);
    load_document(&mut state, r#"[true]"#).unwrap();
    assert_eq!(get_node_value(String::new(), &state).unwrap(), "[true]");
}

#[test]
fn failed_load_keeps_the_previous_document() {
    let mut state = AppState::default();
    load_document(&mut state, r#"{"a":1}"#).unwrap();
    let err = load_document(&mut state, "{broken");
    assert!(err.is_err());
    assert_eq!(get_node_value(String::new(), &state).unwrap(), r#"{"a":1}"#);
}

#[test]
fn cancellation_flavors_the_load_failure() {
    // a cancel mid-read truncates the byte stream; the resulting parse
    // failure is reported as a cancellation and the old document stays
    let mut state = AppState::default();
    load_document(&mut state, r#"{"old":true}"#).unwrap();
    begin_load(&mut state);
    let full = r#"{"users":[{"name":"Ann"},{"name":"Bo"}]}"#;
    cancel_parse(&mut state).unwrap();
    // the reader observed the flag and stopped early
    let truncated = &full[..10];
    let err = load_document(&mut state, truncated).unwrap_err();
    assert_eq!(err, "Operation canceled");
    assert_eq!(
        get_node_value(String::new(), &state).unwrap(),
        r#"{"old":true}"#
    );
}

#[test]
fn begin_load_resets_the_cancel_flag() {
    let mut state = AppState::default();
    cancel_parse(&mut state).unwrap();
    assert!(state.cancel_requested());
    begin_load(&mut state);
    assert!(!state.cancel_requested());
}

#[test]
fn clipboard_text_loads_or_names_the_clipboard() {
    let mut state = AppState::default();
    let top = open_clipboard_text(&mut state, r#"{"from":"clip"}"#).unwrap();
    assert_eq!(top.len(), 1);
    let err = open_clipboard_text(&mut state, "nope").unwrap_err();
    assert!(err.starts_with("Clipboard does not contain valid JSON: "));
    assert_eq!(
        get_node_value(String::new(), &state).unwrap(),
        r#"{"from":"clip"}"#
    );
}

#[test]
fn progress_events_come_per_megabyte_and_at_end() {
    let mut t = ProgressTracker::new(4 * 1048576);
    assert!(t.on_read(1000, false).is_none());
    let ev = t.on_read(1048576, false).unwrap();
    assert_eq!(ev.read_bytes, 1048576 + 1000);
    assert_eq!(ev.total_bytes, 4 * 1048576);
    assert_eq!(ev.percent, 25);
    assert!(!ev.done);
    assert!(!ev.canceled);
    assert!(t.on_read(1000, false).is_none());
    let done = t.on_read(0, false).unwrap();
    assert!(done.done);
    assert_eq!(done.read_bytes, 1048576 + 2000);
}

#[test]
fn progress_percent_is_zero_without_a_size_hint() {
    let mut t = ProgressTracker::new(0);
    let ev = t.on_read(2 * 1048576, false).unwrap();
    assert_eq!(ev.percent, 0);
}

#[test]
fn progress_event_reports_cancellation() {
    let mut t = ProgressTracker::new(100);
    let ev = t.on_read(0, true).unwrap();
    assert!(ev.done);
    assert!(ev.canceled);
}
