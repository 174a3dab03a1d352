use snappy_json::state::{AppState, load_document};
use snappy_json::search::{search, search_stream};

fn loaded(text: &str) -> AppState {
    let mut state = AppState::default();
    load_document(&mut state, text).unwrap();
    state
}

fn run_search(
    state: &AppState,
    query: &str,
    keys: bool,
    values: bool,
    paths: bool,
    cs: bool,
    regex: bool,
    ww: bool,
) -> snappy_json::types::SearchResponse {
    search(
        query.to_string(),
        keys,
        values,
        paths,
        cs,
        regex,
        ww,
        0,
        1000,
        state,
    )
    .unwrap()
}

#[test]
fn end_to_end_value_search() {
    // loading a small document, browsing it, then finding one value match
    let mut state = AppState::default();
    let top = load_document(&mut state, r#"{"users":[{"name":"Ann"},{"name":"Bo"}]}"#).unwrap();
    assert_eq!(top.len(), 1);
    assert_eq!(top[0].key.as_deref(), Some("users"));
    assert_eq!(top[0].value_type, "array");
    assert_eq!(top[0].child_count, 2);
    let kids =
        snappy_json::state::load_children("/users".to_string(), 0, 100, &state).unwrap();
    assert_eq!(kids.len(), 2);
    assert_eq!(kids[0].pointer, "/users/0");
    assert_eq!(kids[1].pointer, "/users/1");

    let resp = run_search(&state, "ann", false, true, false, false, false, false);
    assert_eq!(resp.total_count, 1);
    let hit = &resp.results[0];
    assert_eq!(hit.match_type, "value");
    assert_eq!(hit.match_text, "Ann");
    assert_eq!(hit.node.pointer, "/users/0/name");
    assert_eq!(hit.context.as_deref(), Some("in key: name"));
}

#[test]
fn key_and_path_matches() {
    let state = loaded(r#"{"alpha":{"beta":1},"gamma":[true]}"#);
    let by_key = run_search(&state, "beta", true, false, false, true, false, false);
    assert_eq!(by_key.total_count, 1);
    assert_eq!(by_key.results[0].match_type, "key");
    assert_eq!(by_key.results[0].node.pointer, "/alpha/beta");
    assert!(by_key.results[0].context.is_none());

    // every node's own pointer is a path candidate, the array element included
    let by_path = run_search(&state, "gamma", false, false, true, true, false, false);
    assert_eq!(by_path.total_count, 2);
    assert_eq!(by_path.results[0].match_type, "path");
    assert_eq!(by_path.results[0].match_text, "/gamma");
    assert_eq!(by_path.results[1].match_text, "/gamma/0");
}

#[test]
fn case_insensitive_search_lowers_both_sides() {
    let state = loaded(r#"{"Name":"ANN"}"#);
    let hit = run_search(&state, "ann", false, true, false, false, false, false);
    assert_eq!(hit.total_count, 1);
    assert_eq!(hit.results[0].match_text, "ANN");
    let miss = run_search(&state, "ann", false, true, false, true, false, false);
    assert_eq!(miss.total_count, 0);
}

#[test]
fn whole_word_requires_an_exact_token() {
    let state = loaded(r#"{"a":"the quick fox","b":"quickest"}"#);
    let ww = run_search(&state, "quick", false, true, false, true, false, true);
    assert_eq!(ww.total_count, 1);
    assert_eq!(ww.results[0].node.pointer, "/a");
    let plain = run_search(&state, "quick", false, true, false, true, false, false);
    assert_eq!(plain.total_count, 2);
}

#[test]
fn regex_search_matches_anywhere() {
    let state = loaded(r#"{"a":"abc123","b":"nodigits"}"#);
    let re = run_search(&state, "[0-9]+", false, true, false, true, true, false);
    assert_eq!(re.total_count, 1);
    assert_eq!(re.results[0].node.pointer, "/a");
}

#[test]
fn regex_queries_are_case_normalized() {
    // with case folding on, the pattern is lower-cased like every candidate,
    // so queries differing only in letter case agree
    let state = loaded(r#"{"name":"ANN"}"#);
    let upper = run_search(&state, "AN+", false, true, false, false, true, false);
    let lower = run_search(&state, "an+", false, true, false, false, true, false);
    assert_eq!(upper.total_count, 1);
    assert_eq!(lower.total_count, 1);
    assert_eq!(
        upper.results[0].node.pointer,
        lower.results[0].node.pointer
    );
    // case-sensitive regex keeps the raw pattern and the raw candidates
    let cs_upper = run_search(&state, "AN+", false, true, false, true, true, false);
    assert_eq!(cs_upper.total_count, 1);
    let cs_lower = run_search(&state, "an+", false, true, false, true, true, false);
    assert_eq!(cs_lower.total_count, 0);
}

#[test]
fn invalid_regex_finds_nothing() {
    let state = loaded(r#"{"a":"("}"#);
    let resp = run_search(&state, "(", false, true, false, true, true, false);
    assert_eq!(resp.total_count, 0);
    assert!(!resp.has_more);
}

#[test]
fn numbers_and_booleans_match_by_their_text() {
    let state = loaded(r#"{"n":42,"b":true,"z":null}"#);
    let n = run_search(&state, "42", false, true, false, true, false, false);
    assert_eq!(n.total_count, 1);
    assert_eq!(n.results[0].match_text, "42");
    let b = run_search(&state, "true", false, true, false, true, false, false);
    assert_eq!(b.total_count, 1);
    // null is never value-matched
    let z = run_search(&state, "null", false, true, false, true, false, false);
    assert_eq!(z.total_count, 0);
}

#[test]
fn blank_query_bulk_is_empty_and_stream_is_an_error() {
    let mut state = loaded(r#"{"a":1}"#);
    let resp = run_search(&state, "  ", true, true, true, false, false, false);
    assert_eq!(resp.total_count, 0);
    assert_eq!(resp.results.len(), 0);
    assert!(!resp.has_more);
    let err = search_stream(
        "  ".to_string(),
        true,
        true,
        true,
        false,
        false,
        false,
        &mut state,
    )
    .unwrap_err();
    assert_eq!(err, "Empty query");
}

#[test]
fn search_without_document_is_rejected() {
    let state = AppState::default();
    let err = search(
        "x".to_string(),
        true,
        true,
        true,
        false,
        false,
        false,
        0,
        10,
        &state,
    )
    .unwrap_err();
    assert_eq!(err, "No document loaded");
}

#[test]
fn pagination_of_bulk_results() {
    let state = loaded(r#"{"a":"hit","b":"hit","c":"hit","d":"hit"}"#);
    let page = search(
        "hit".to_string(),
        false,
        true,
        false,
        true,
        false,
        false,
        1,
        2,
        &state,
    )
    .unwrap();
    assert_eq!(page.total_count, 4);
    assert_eq!(page.results.len(), 2);
    assert!(page.has_more);
    assert_eq!(page.results[0].node.pointer, "/b");
    assert_eq!(page.results[1].node.pointer, "/c");
    let tail = search(
        "hit".to_string(),
        false,
        true,
        false,
        true,
        false,
        false,
        2,
        2,
        &state,
    )
    .unwrap();
    assert!(!tail.has_more);
}

fn total_of_stream(state: &mut AppState, query: &str, keys: bool, values: bool, paths: bool) -> usize {
    let out = search_stream(
        query.to_string(),
        keys,
        values,
        paths,
        false,
        false,
        false,
        state,
    )
    .unwrap();
    let mut n = 0;
    let mut last_total = 0;
    for b in &out.batches {
        assert!(b.results.len() >= 1);
        assert!(b.results.len() <= 10);
        n += b.results.len();
        assert_eq!(b.total_so_far, n);
        last_total = b.total_so_far;
    }
    assert_eq!(out.total, n);
    if !out.batches.is_empty() {
        assert_eq!(last_total, out.total);
    }
    out.total
}

#[test]
fn bulk_and_stream_totals_agree() {
    // the exact total a bulk search reports equals what a streaming search
    // reports in its terminal event, for each flag combination
    let text = r#"{"ann":"ann","list":["ann","x","ann"],"deep":{"ann":{"k":"ann"}}}"#;
    for keys in [false, true] {
        for values in [false, true] {
            for paths in [false, true] {
                let mut state = loaded(text);
                let bulk = run_search(&state, "ann", keys, values, paths, false, false, false);
                let stream_total = total_of_stream(&mut state, "ann", keys, values, paths);
                assert_eq!(bulk.total_count, stream_total);
            }
        }
    }
}

#[test]
fn stream_batches_are_bounded_and_ordered() {
    // 26 matching values force three batches: 10, 10 and 6
    let mut items = String::new();
    for i in 0..26 {
        if i > 0 {
            items.push(',');
        }
        items.push_str("\"hit\"");
    }
    let text = format!("{{\"xs\":[{}]}}", items);
    let mut state = loaded(&text);
    let out = search_stream(
        "hit".to_string(),
        false,
        true,
        false,
        true,
        false,
        false,
        &mut state,
    )
    .unwrap();
    assert_eq!(out.total, 26);
    assert_eq!(out.batches.len(), 3);
    assert_eq!(out.batches[0].results.len(), 10);
    assert_eq!(out.batches[1].results.len(), 10);
    assert_eq!(out.batches[2].results.len(), 6);
    assert_eq!(out.batches[0].total_so_far, 10);
    assert_eq!(out.batches[1].total_so_far, 20);
    assert_eq!(out.batches[2].total_so_far, 26);
    assert_eq!(out.batches[0].results[0].node.pointer, "/xs/0");
    assert_eq!(out.batches[2].results[5].node.pointer, "/xs/25");
}

#[test]
fn stream_ids_increase_per_call() {
    let mut state = loaded(r#"{"a":1}"#);
    let first = search_stream(
        "a".to_string(),
        true,
        false,
        false,
        true,
        false,
        false,
        &mut state,
    )
    .unwrap();
    let second = search_stream(
        "a".to_string(),
        true,
        false,
        false,
        true,
        false,
        false,
        &mut state,
    )
    .unwrap();
    assert_eq!(first.id, 1);
    assert_eq!(second.id, 2);
}

#[test]
fn composite_values_are_recursed_not_value_matched() {
    let state = loaded(r#"{"outer":{"inner":"outer"}}"#);
    let resp = run_search(&state, "outer", false, true, false, true, false, false);
    // only the string value matches; the object under "outer" is recursed into
    assert_eq!(resp.total_count, 1);
    assert_eq!(resp.results[0].node.pointer, "/outer/inner");
}
