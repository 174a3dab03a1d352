//! The search engine: a recursive traversal over keys, values and pointer
//! paths, delivered either in bulk (collect, then paginate) or as a stream
//! of bounded batches driven by an explicit work stack.

use vstd::prelude::*;
use vstd::string::StringExecFns;
use crate::json::{
    JsonValue, JsonView, arr_view, obj_view, lemma_arr_view, lemma_obj_view, is_scalar,
    scalar_text,
};
use crate::types::{Node, SearchResult, SearchResultView, SearchResponse, results_view};
use crate::tree::{
    tm_spec, re_view, text_matches, path_node_view, node_view_of, child_ptr,
    create_node_for_path, to_node_with_truncation,
};
use crate::strutil::{dec_digits, usize_to_string, blank, is_blank_chars, str_to_chars};
use crate::outside::{lowered, to_lower, regex_new, regex_ok};
use crate::state::{AppState, AppStateView};

verus! {

/// The active query: the compiled pattern when regex matching is on, the
/// normalized query text, and the flags.
#[verifier::ext_equal]
pub ghost struct QuerySpec {
    pub rpat: Option<Seq<char>>,
    pub norm: Seq<char>,
    pub keys: bool,
    pub values: bool,
    pub paths: bool,
    pub case_sensitive: bool,
    pub whole_word: bool,
}

/// Candidate normalization: texts are lower-cased unless the search is
/// case-sensitive.
pub open spec fn cand(case_sensitive: bool, s: Seq<char>) -> Seq<char> {
    if case_sensitive {
        s
    } else {
        lowered(s)
    }
}

/// Whether a candidate text matches the query.
pub open spec fn q_match(q: QuerySpec, text: Seq<char>) -> bool {
    tm_spec(cand(q.case_sensitive, text), q.norm, q.rpat, q.whole_word)
}

/// The query built from the raw query text and the flags: the query is
/// case-normalized once, and in regex mode the normalized text is also the
/// pattern that gets compiled.
pub open spec fn query_spec(
    raw: Seq<char>,
    search_keys: bool,
    search_values: bool,
    search_paths: bool,
    case_sensitive: bool,
    regex: bool,
    whole_word: bool,
) -> QuerySpec {
    QuerySpec {
        rpat: if regex {
            Some(cand(case_sensitive, raw))
        } else {
            None
        },
        norm: cand(case_sensitive, raw),
        keys: search_keys,
        values: search_values,
        paths: search_paths,
        case_sensitive: case_sensitive,
        whole_word: whole_word,
    }
}

/// The path match a node contributes, evaluated against its own pointer
/// before its children are visited.
pub open spec fn path_m(v: JsonView, ptr: Seq<char>, q: QuerySpec) -> Seq<SearchResultView> {
    if q.paths && q_match(q, ptr) {
        seq![
            SearchResultView {
                node: path_node_view(v, ptr),
                match_type: "path"@,
                match_text: ptr,
                context: None,
            },
        ]
    } else {
        Seq::empty()
    }
}

/// The key match an object entry contributes.
pub open spec fn key_m(k: Seq<char>, child: JsonView, parent: Seq<char>, q: QuerySpec) -> Seq<
    SearchResultView,
> {
    if q.keys && q_match(q, k) {
        seq![
            SearchResultView {
                node: node_view_of(child, child_ptr(parent, k), Some(k), None),
                match_type: "key"@,
                match_text: k,
                context: None,
            },
        ]
    } else {
        Seq::empty()
    }
}

/// The value match a scalar entry contributes, with its context naming the
/// key or index it sits under.
pub open spec fn value_m(
    k: Seq<char>,
    child: JsonView,
    parent: Seq<char>,
    in_object: bool,
    q: QuerySpec,
) -> Seq<SearchResultView> {
    if q.values && is_scalar(child) && q_match(q, scalar_text(child)) {
        seq![
            SearchResultView {
                node: node_view_of(child, child_ptr(parent, k), Some(k), None),
                match_type: "value"@,
                match_text: scalar_text(child),
                context: Some(
                    (if in_object {
                        "in key: "@
                    } else {
                        "in index: "@
                    }) + k,
                ),
            },
        ]
    } else {
        Seq::empty()
    }
}

/// Every match the subtree at `v` contributes, in traversal order: the
/// node's own path match, then, per child in order, its key match, its
/// subtree, and its value match.
pub open spec fn visit(v: JsonView, ptr: Seq<char>, q: QuerySpec) -> Seq<SearchResultView>
    decreases v, 1int,
{
    path_m(v, ptr, q) + content_m(v, ptr, q)
}

/// The matches the children of a node contribute.
pub open spec fn content_m(v: JsonView, ptr: Seq<char>, q: QuerySpec) -> Seq<SearchResultView>
    decreases v, 0int,
{
    match v {
        JsonView::Obj(es) => {
            proof {
                assert(decreases_to!(v => es));
            }
            entries_m(es, ptr, q, 0)
        },
        JsonView::Arr(a) => {
            proof {
                assert(decreases_to!(v => a));
            }
            items_m(a, ptr, q, 0)
        },
        _ => Seq::empty(),
    }
}

/// The matches contributed by the object entries from `i` on.
pub open spec fn entries_m(
    es: Seq<(Seq<char>, JsonView)>,
    ptr: Seq<char>,
    q: QuerySpec,
    i: int,
) -> Seq<SearchResultView>
    decreases es, es.len() - i,
{
    if i < 0 || i >= es.len() {
        Seq::empty()
    } else {
        proof {
            assert(decreases_to!(es => es[i]));
            assert(decreases_to!(es[i] => es[i].1));
        }
        key_m(es[i].0, es[i].1, ptr, q) + visit(es[i].1, child_ptr(ptr, es[i].0), q) + value_m(
            es[i].0,
            es[i].1,
            ptr,
            true,
            q,
        ) + entries_m(es, ptr, q, i + 1)
    }
}

/// The matches contributed by the array items from `i` on.
pub open spec fn items_m(a: Seq<JsonView>, ptr: Seq<char>, q: QuerySpec, i: int) -> Seq<
    SearchResultView,
>
    decreases a, a.len() - i,
{
    if i < 0 || i >= a.len() {
        Seq::empty()
    } else {
        proof {
            assert(decreases_to!(a => a[i]));
        }
        visit(a[i], child_ptr(ptr, dec_digits(i as nat)), q) + value_m(
            dec_digits(i as nat),
            a[i],
            ptr,
            false,
            q,
        ) + items_m(a, ptr, q, i + 1)
    }
}

/// Every match of a whole document.
pub open spec fn all_matches(root: JsonView, q: QuerySpec) -> Seq<SearchResultView> {
    visit(root, Seq::empty(), q)
}

/// What a bulk search over a document finds: nothing when the regex flag
/// is set but the normalized pattern does not compile, and the full
/// traversal otherwise.
pub open spec fn bulk_matches(
    root: JsonView,
    raw: Seq<char>,
    search_keys: bool,
    search_values: bool,
    search_paths: bool,
    case_sensitive: bool,
    regex: bool,
    whole_word: bool,
) -> Seq<SearchResultView> {
    if regex && !regex_ok(cand(case_sensitive, raw)) {
        Seq::empty()
    } else {
        all_matches(
            root,
            query_spec(
                raw,
                search_keys,
                search_values,
                search_paths,
                case_sensitive,
                regex,
                whole_word,
            ),
        )
    }
}

/// What a streaming search over a document reports across its batches:
/// the same traversal under the same policy.
pub open spec fn stream_matches(
    root: JsonView,
    raw: Seq<char>,
    search_keys: bool,
    search_values: bool,
    search_paths: bool,
    case_sensitive: bool,
    regex: bool,
    whole_word: bool,
) -> Seq<SearchResultView> {
    if regex && !regex_ok(cand(case_sensitive, raw)) {
        Seq::empty()
    } else {
        visit(
            root,
            Seq::empty(),
            query_spec(
                raw,
                search_keys,
                search_values,
                search_paths,
                case_sensitive,
                regex,
                whole_word,
            ),
        )
    }
}

/// For every document and flag combination, the exact total a bulk search
/// reports equals the total a streaming search with the same query reports
/// in its terminal event.
pub proof fn lemma_bulk_stream_totals_agree(
    root: JsonView,
    raw: Seq<char>,
    search_keys: bool,
    search_values: bool,
    search_paths: bool,
    case_sensitive: bool,
    regex: bool,
    whole_word: bool,
)
    ensures
        bulk_matches(
            root,
            raw,
            search_keys,
            search_values,
            search_paths,
            case_sensitive,
            regex,
            whole_word,
        ).len() == stream_matches(
            root,
            raw,
            search_keys,
            search_values,
            search_paths,
            case_sensitive,
            regex,
            whole_word,
        ).len(),
{
}

/// With case folding on, two queries that lower-case to the same text find
/// exactly the same matches, the regex mode included: every comparison,
/// and the compiled pattern itself, goes through the normalized query.
pub proof fn lemma_case_insensitive_query(
    root: JsonView,
    q1: Seq<char>,
    q2: Seq<char>,
    search_keys: bool,
    search_values: bool,
    search_paths: bool,
    regex: bool,
    whole_word: bool,
)
    requires
        lowered(q1) == lowered(q2),
    ensures
        bulk_matches(root, q1, search_keys, search_values, search_paths, false, regex, whole_word)
            == bulk_matches(
            root,
            q2,
            search_keys,
            search_values,
            search_paths,
            false,
            regex,
            whole_word,
        ),
{
    assert(query_spec(q1, search_keys, search_values, search_paths, false, regex, whole_word)
        =~= query_spec(q2, search_keys, search_values, search_paths, false, regex, whole_word));
}

fn clone_node(n: &Node) -> (r: Node)
    ensures
        r@ == n@,
{
    Node {
        pointer: n.pointer.clone(),
        key: match &n.key {
            Some(k) => Some(k.clone()),
            None => None,
        },
        value_type: n.value_type.clone(),
        has_children: n.has_children,
        child_count: n.child_count,
        preview: n.preview.clone(),
    }
}

fn clone_result(r: &SearchResult) -> (o: SearchResult)
    ensures
        o@ == r@,
{
    SearchResult {
        node: clone_node(&r.node),
        match_type: r.match_type.clone(),
        match_text: r.match_text.clone(),
        context: match &r.context {
            Some(c) => Some(c.clone()),
            None => None,
        },
    }
}

/// Normalizes a candidate text for comparison.
fn cand_text(case_sensitive: bool, text: &str) -> (r: String)
    ensures
        r@ == cand(case_sensitive, text@),
{
    if case_sensitive {
        text.to_owned()
    } else {
        to_lower(text)
    }
}

/// The display text of a scalar value.
fn scalar_string(v: &JsonValue) -> (r: String)
    requires
        is_scalar(v@),
    ensures
        r@ == scalar_text(v@),
{
    match v {
        JsonValue::Str(s) => s.clone(),
        JsonValue::Num(t) => t.clone(),
        JsonValue::Bool(b) => {
            if *b {
                String::from_str("true")
            } else {
                String::from_str("false")
            }
        },
        _ => String::new(),
    }
}

/// Joins a parent pointer and a raw key into the child's pointer.
fn join_ptr(parent: &str, key: &str) -> (r: String)
    ensures
        r@ == child_ptr(parent@, key@),
{
    let e = crate::pointer::escape_pointer_token(key);
    let mut p = parent.to_owned();
    p.append("/");
    p.append(e.as_str());
    p
}

/// The ghost query an executable traversal runs under.
pub open spec fn exec_query(
    query: Seq<char>,
    re: Option<&regex::Regex>,
    search_keys: bool,
    search_values: bool,
    search_paths: bool,
    case_sensitive: bool,
    whole_word: bool,
) -> QuerySpec {
    QuerySpec {
        rpat: re_view(re),
        norm: query,
        keys: search_keys,
        values: search_values,
        paths: search_paths,
        case_sensitive: case_sensitive,
        whole_word: whole_word,
    }
}

/// Collects every match of the subtree at `value`, appending to `results`
/// in traversal order. The query text must already be normalized.
#[verifier::rlimit(100)]
pub fn search_recursive(
    value: &JsonValue,
    current_pointer: &str,
    query: &str,
    re: Option<&regex::Regex>,
    search_keys: bool,
    search_values: bool,
    search_paths: bool,
    case_sensitive: bool,
    whole_word: bool,
    results: &mut Vec<SearchResult>,
)
    ensures
        results_view(final(results)@) == results_view(old(results)@) + visit(
            value@,
            current_pointer@,
            exec_query(
                query@,
                re,
                search_keys,
                search_values,
                search_paths,
                case_sensitive,
                whole_word,
            ),
        ),
    decreases value,
{
    let ghost q = exec_query(
        query@,
        re,
        search_keys,
        search_values,
        search_paths,
        case_sensitive,
        whole_word,
    );
    let ghost r0 = results_view(results@);
    if search_paths {
        let check = cand_text(case_sensitive, current_pointer);
        if text_matches(check.as_str(), query, re, whole_word) {
            let node = create_node_for_path(value, current_pointer);
            results.push(
                SearchResult {
                    node,
                    match_type: String::from_str("path"),
                    match_text: current_pointer.to_owned(),
                    context: None,
                },
            );
        }
    }
    assert(results_view(results@) =~= r0 + path_m(value@, current_pointer@, q));
    let ghost after_path = results_view(results@);
    match value {
        JsonValue::Obj(entries) => {
            proof {
                lemma_obj_view(entries@);
            }
            let ghost es = obj_view(entries@);
            let mut i: usize = 0;
            while i < entries.len()
                invariant
                    0 <= i <= entries@.len(),
                    es == obj_view(entries@),
                    es.len() == entries@.len(),
                    decreases_to!(*value => entries@),
                    value@ == JsonView::Obj(es),
                    q == exec_query(
                        query@,
                        re,
                        search_keys,
                        search_values,
                        search_paths,
                        case_sensitive,
                        whole_word,
                    ),
                    forall|m: int|
                        0 <= m < es.len() ==> (#[trigger] es[m]) == (entries@[m].0@,
                        entries@[m].1@),
                    results_view(results@) + entries_m(es, current_pointer@, q, i as int)
                        == after_path + entries_m(es, current_pointer@, q, 0),
                decreases entries@.len() - i,
            {
                proof {
                    assert(decreases_to!(entries@ => entries@[i as int]));
                    assert(decreases_to!(entries@[i as int] => entries@[i as int].1));
                }
                let e = &entries[i];
                let ghost rv_before = results_view(results@);
                if search_keys {
                    let check = cand_text(case_sensitive, e.0.as_str());
                    if text_matches(check.as_str(), query, re, whole_word) {
                        let node = to_node_with_truncation(
                            current_pointer,
                            Some(e.0.as_str()),
                            &e.1,
                            None,
                        );
                        results.push(
                            SearchResult {
                                node,
                                match_type: String::from_str("key"),
                                match_text: e.0.clone(),
                                context: None,
                            },
                        );
                    }
                }
                assert(results_view(results@) =~= rv_before + key_m(
                    es[i as int].0,
                    es[i as int].1,
                    current_pointer@,
                    q,
                ));
                let child_pointer = join_ptr(current_pointer, e.0.as_str());
                search_recursive(
                    &e.1,
                    child_pointer.as_str(),
                    query,
                    re,
                    search_keys,
                    search_values,
                    search_paths,
                    case_sensitive,
                    whole_word,
                    results,
                );
                let ghost rv_mid = results_view(results@);
                if search_values && matches!(e.1, JsonValue::Str(_) | JsonValue::Num(_)
                    | JsonValue::Bool(_)) {
                    let text = scalar_string(&e.1);
                    let check = cand_text(case_sensitive, text.as_str());
                    if text_matches(check.as_str(), query, re, whole_word) {
                        let node = to_node_with_truncation(
                            current_pointer,
                            Some(e.0.as_str()),
                            &e.1,
                            None,
                        );
                        let mut ctx = String::from_str("in key: ");
                        ctx.append(e.0.as_str());
                        results.push(
                            SearchResult {
                                node,
                                match_type: String::from_str("value"),
                                match_text: text,
                                context: Some(ctx),
                            },
                        );
                    }
                }
                assert(results_view(results@) =~= rv_mid + value_m(
                    es[i as int].0,
                    es[i as int].1,
                    current_pointer@,
                    true,
                    q,
                ));
                proof {
                    assert(results_view(results@) =~= rv_before + (key_m(
                        es[i as int].0,
                        es[i as int].1,
                        current_pointer@,
                        q,
                    ) + visit(es[i as int].1, child_ptr(current_pointer@, es[i as int].0), q)
                        + value_m(es[i as int].0, es[i as int].1, current_pointer@, true, q)));
                    assert(entries_m(es, current_pointer@, q, i as int) =~= (key_m(
                        es[i as int].0,
                        es[i as int].1,
                        current_pointer@,
                        q,
                    ) + visit(es[i as int].1, child_ptr(current_pointer@, es[i as int].0), q)
                        + value_m(es[i as int].0, es[i as int].1, current_pointer@, true, q))
                        + entries_m(es, current_pointer@, q, i + 1));
                    assert(results_view(results@) + entries_m(es, current_pointer@, q, i + 1)
                        =~= after_path + entries_m(es, current_pointer@, q, 0));
                }
                i = i + 1;
            }
            assert(results_view(results@) =~= after_path + entries_m(
                es,
                current_pointer@,
                q,
                0,
            ));
            assert(results_view(results@) =~= results_view(old(results)@) + visit(
                value@,
                current_pointer@,
                q,
            ));
        },
        JsonValue::Arr(items) => {
            proof {
                lemma_arr_view(items@);
            }
            let ghost a = arr_view(items@);
            let mut i: usize = 0;
            while i < items.len()
                invariant
                    0 <= i <= items@.len(),
                    a == arr_view(items@),
                    a.len() == items@.len(),
                    decreases_to!(*value => items@),
                    value@ == JsonView::Arr(a),
                    q == exec_query(
                        query@,
                        re,
                        search_keys,
                        search_values,
                        search_paths,
                        case_sensitive,
                        whole_word,
                    ),
                    forall|m: int| 0 <= m < a.len() ==> (#[trigger] a[m]) == items@[m]@,
                    results_view(results@) + items_m(a, current_pointer@, q, i as int)
                        == after_path + items_m(a, current_pointer@, q, 0),
                decreases items@.len() - i,
            {
                proof {
                    assert(decreases_to!(items@ => items@[i as int]));
                }
                let ghost rv_before = results_view(results@);
                let idx = usize_to_string(i);
                let child_pointer = join_ptr(current_pointer, idx.as_str());
                search_recursive(
                    &items[i],
                    child_pointer.as_str(),
                    query,
                    re,
                    search_keys,
                    search_values,
                    search_paths,
                    case_sensitive,
                    whole_word,
                    results,
                );
                let ghost rv_mid = results_view(results@);
                if search_values && matches!(items[i], JsonValue::Str(_) | JsonValue::Num(_)
                    | JsonValue::Bool(_)) {
                    let text = scalar_string(&items[i]);
                    let check = cand_text(case_sensitive, text.as_str());
                    if text_matches(check.as_str(), query, re, whole_word) {
                        let node = to_node_with_truncation(
                            current_pointer,
                            Some(idx.as_str()),
                            &items[i],
                            None,
                        );
                        let mut ctx = String::from_str("in index: ");
                        ctx.append(idx.as_str());
                        results.push(
                            SearchResult {
                                node,
                                match_type: String::from_str("value"),
                                match_text: text,
                                context: Some(ctx),
                            },
                        );
                    }
                }
                assert(results_view(results@) =~= rv_mid + value_m(
                    dec_digits(i as nat),
                    a[i as int],
                    current_pointer@,
                    false,
                    q,
                ));
                proof {
                    assert(items_m(a, current_pointer@, q, i as int) =~= (visit(
                        a[i as int],
                        child_ptr(current_pointer@, dec_digits(i as nat)),
                        q,
                    ) + value_m(dec_digits(i as nat), a[i as int], current_pointer@, false, q))
                        + items_m(a, current_pointer@, q, i + 1));
                    assert(results_view(results@) + items_m(a, current_pointer@, q, i + 1)
                        =~= after_path + items_m(a, current_pointer@, q, 0));
                }
                i = i + 1;
            }
            assert(results_view(results@) =~= after_path + items_m(a, current_pointer@, q, 0));
            assert(results_view(results@) =~= results_view(old(results)@) + visit(
                value@,
                current_pointer@,
                q,
            ));
        },
        _ => {
            assert(results_view(results@) =~= results_view(old(results)@) + visit(
                value@,
                current_pointer@,
                q,
            ));
        },
    }
}

/// The weight of a subtree for the streaming traversal: one for the node
/// itself, and per child its own weight plus the bookkeeping frames.
pub open spec fn jsize(v: JsonView) -> nat
    decreases v, 0int,
{
    match v {
        JsonView::Obj(es) => {
            proof {
                assert(decreases_to!(v => es));
            }
            1 + obj_size(es, 0)
        },
        JsonView::Arr(a) => {
            proof {
                assert(decreases_to!(v => a));
            }
            1 + arr_size(a, 0)
        },
        _ => 1,
    }
}

pub open spec fn obj_size(es: Seq<(Seq<char>, JsonView)>, i: int) -> nat
    decreases es, es.len() - i,
{
    if i < 0 || i >= es.len() {
        0
    } else {
        proof {
            assert(decreases_to!(es => es[i]));
            assert(decreases_to!(es[i] => es[i].1));
        }
        jsize(es[i].1) + 2 + obj_size(es, i + 1)
    }
}

pub open spec fn arr_size(a: Seq<JsonView>, i: int) -> nat
    decreases a, a.len() - i,
{
    if i < 0 || i >= a.len() {
        0
    } else {
        proof {
            assert(decreases_to!(a => a[i]));
        }
        jsize(a[i]) + 1 + arr_size(a, i + 1)
    }
}

/// One unit of pending streaming work: visiting a whole subtree, or
/// checking one entry's key or one entry's scalar value.
pub enum SearchFrame {
    Visit { value: JsonValue, pointer: String },
    KeyCheck { key: String, child: JsonValue, parent: String },
    ValueCheck { key: String, child: JsonValue, parent: String, in_object: bool },
}

/// The matches one frame will contribute.
pub open spec fn frame_matches(f: SearchFrame, q: QuerySpec) -> Seq<SearchResultView> {
    match f {
        SearchFrame::Visit { value, pointer } => visit(value@, pointer@, q),
        SearchFrame::KeyCheck { key, child, parent } => key_m(key@, child@, parent@, q),
        SearchFrame::ValueCheck { key, child, parent, in_object } => value_m(
            key@,
            child@,
            parent@,
            in_object,
            q,
        ),
    }
}

pub open spec fn fweight(f: SearchFrame) -> nat {
    match f {
        SearchFrame::Visit { value, pointer } => jsize(value@),
        _ => 1,
    }
}

/// The matches the whole stack will still contribute, top of stack first.
pub open spec fn pending(fs: Seq<SearchFrame>, q: QuerySpec) -> Seq<SearchResultView>
    decreases fs.len(),
{
    if fs.len() == 0 {
        Seq::empty()
    } else {
        frame_matches(fs.last(), q) + pending(fs.drop_last(), q)
    }
}

/// The remaining weight of the whole stack.
pub open spec fn stack_weight(fs: Seq<SearchFrame>) -> nat
    decreases fs.len(),
{
    if fs.len() == 0 {
        0
    } else {
        fweight(fs.last()) + stack_weight(fs.drop_last())
    }
}

proof fn lemma_pending_push(fs: Seq<SearchFrame>, f: SearchFrame, q: QuerySpec)
    ensures
        pending(fs.push(f), q) == frame_matches(f, q) + pending(fs, q),
        stack_weight(fs.push(f)) == fweight(f) + stack_weight(fs),
{
    assert(fs.push(f).last() == f);
    assert(fs.push(f).drop_last() =~= fs);
}

proof fn lemma_jsize_pos(v: JsonView)
    ensures
        jsize(v) >= 1,
{
    match v {
        JsonView::Obj(_) => {},
        JsonView::Arr(_) => {},
        _ => {},
    }
}

/// One emitted batch of streaming results, with the running total after it.
#[derive(Debug)]
pub struct SearchBatch {
    pub results: Vec<SearchResult>,
    pub total_so_far: usize,
}

/// Everything a streaming search produces: its id, the batches in order,
/// and the final total.
#[derive(Debug)]
pub struct StreamOutcome {
    pub id: u64,
    pub batches: Vec<SearchBatch>,
    pub total: usize,
}

pub open spec fn cap_at(a: int, b: int) -> int {
    if a <= b {
        a
    } else {
        b
    }
}

/// How a batch sequence carves up the full match sequence: every batch
/// holds the next ten matches (the last batch whatever remains), and its
/// running total counts every match delivered so far.
pub open spec fn batches_ok(bs: Seq<SearchBatch>, ms: Seq<SearchResultView>) -> bool {
    &&& bs.len() == (ms.len() + 9) / 10
    &&& forall|b: int|
        0 <= b < bs.len() ==> results_view((#[trigger] bs[b]).results@) == ms.subrange(
            10 * b,
            cap_at(10 * b + 10, ms.len() as int),
        )
    &&& forall|b: int|
        0 <= b < bs.len() ==> (#[trigger] bs[b]).total_so_far == cap_at(
            10 * b + 10,
            ms.len() as int,
        )
}


/// Processes one popped frame: reports its own matches and pushes the
/// frames for the children it defers.
#[verifier::rlimit(100)]
fn stream_step(
    frame: SearchFrame,
    stack: &mut Vec<SearchFrame>,
    found: &mut Vec<SearchResult>,
    norm: &str,
    re_ref: Option<&regex::Regex>,
    search_keys: bool,
    search_values: bool,
    search_paths: bool,
    case_sensitive: bool,
    whole_word: bool,
    Ghost(q): Ghost<QuerySpec>,
    Ghost(ms): Ghost<Seq<SearchResultView>>,
)
    requires
        q == exec_query(
            norm@,
            re_ref,
            search_keys,
            search_values,
            search_paths,
            case_sensitive,
            whole_word,
        ),
        old(found)@.len() <= ms.len(),
        results_view(old(found)@) == ms.subrange(0, old(found)@.len() as int),
        ms.skip(old(found)@.len() as int) == frame_matches(frame, q) + pending(old(stack)@, q),
    ensures
        final(found)@.len() <= ms.len(),
        results_view(final(found)@) == ms.subrange(0, final(found)@.len() as int),
        pending(final(stack)@, q) == ms.skip(final(found)@.len() as int),
        stack_weight(final(stack)@) < stack_weight(old(stack)@) + fweight(frame),
{
    proof {
        lemma_frame_weight_pos(frame);
    }
    let ghost w_start = stack_weight(stack@);
        match &frame {
            SearchFrame::Visit { value, pointer } => {
                proof {
                    lemma_jsize_pos(value@);
                    assert(frame_matches(frame, q) == visit(value@, pointer@, q));
                    assert(fweight(frame) == jsize(value@));
                }
                let ghost rest = pending(stack@, q);
                if search_paths {
                    let check = cand_text(case_sensitive, pointer.as_str());
                    if text_matches(check.as_str(), norm, re_ref, whole_word) {
                        let node = create_node_for_path(value, pointer.as_str());
                        let sr = SearchResult {
                            node,
                            match_type: String::from_str("path"),
                            match_text: pointer.clone(),
                            context: None,
                        };
                        proof {
                            assert(path_m(value@, pointer@, q).len() == 1);
                            assert(ms.skip(found@.len() as int) =~= path_m(value@, pointer@, q)
                                + (content_m(value@, pointer@, q) + rest));
                            assert(ms.skip(found@.len() as int).len() == 1 + (content_m(
                                value@,
                                pointer@,
                                q,
                            ) + rest).len());
                            assert(found@.len() < ms.len());
                            assert(ms.skip(found@.len() as int)[0] == ms[found@.len() as int]);
                            assert(ms.skip(found@.len() as int)[0] == path_m(
                                value@,
                                pointer@,
                                q,
                            )[0]);
                            assert(sr@ == path_m(value@, pointer@, q)[0]);
                        }
                        found.push(sr);
                        proof {
                            assert(results_view(found@) =~= ms.subrange(0, found@.len() as int));
                            assert(ms.skip(found@.len() as int) =~= ms.skip(
                                found@.len() - 1,
                            ).drop_first());
                        }
                    }
                }
                proof {
                    assert(ms.skip(found@.len() as int) =~= content_m(value@, pointer@, q)
                        + rest);
                    assert(content_m(value@, pointer@, q) =~= (match value@ {
                        JsonView::Obj(es) => entries_m(es, pointer@, q, 0),
                        JsonView::Arr(a) => items_m(a, pointer@, q, 0),
                        _ => Seq::<SearchResultView>::empty(),
                    }));
                }
                match value {
                    JsonValue::Obj(entries) => {
                        proof {
                            lemma_obj_view(entries@);
                        }
                        let ghost es = obj_view(entries@);
                        let ghost w_rest = stack_weight(stack@);
                        let n = entries.len();
                        let mut i: usize = n;
                        while i > 0
                            invariant
                                0 <= i <= entries@.len(),
                                es == obj_view(entries@),
                                es.len() == entries@.len(),
                                forall|m: int|
                                    0 <= m < es.len() ==> (#[trigger] es[m]) == (entries@[m].0@,
                                    entries@[m].1@),
                                pending(stack@, q) == entries_m(es, pointer@, q, i as int) + rest,
                                stack_weight(stack@) == w_rest + obj_size(es, i as int),
                            decreases i,
                        {
                            let e = &entries[i - 1];
                            let ghost st0 = stack@;
                            stack.push(
                                SearchFrame::ValueCheck {
                                    key: e.0.clone(),
                                    child: e.1.deep_copy(),
                                    parent: pointer.clone(),
                                    in_object: true,
                                },
                            );
                            let ghost st1 = stack@;
                            stack.push(
                                SearchFrame::Visit {
                                    value: e.1.deep_copy(),
                                    pointer: join_ptr(pointer.as_str(), e.0.as_str()),
                                },
                            );
                            let ghost st2 = stack@;
                            stack.push(
                                SearchFrame::KeyCheck {
                                    key: e.0.clone(),
                                    child: e.1.deep_copy(),
                                    parent: pointer.clone(),
                                },
                            );
                            proof {
                                lemma_pending_push(st0, st1.last(), q);
                                lemma_pending_push(st1, st2.last(), q);
                                lemma_pending_push(st2, stack@.last(), q);
                                assert(pending(stack@, q) =~= key_m(
                                    es[i - 1].0,
                                    es[i - 1].1,
                                    pointer@,
                                    q,
                                ) + (visit(es[i - 1].1, child_ptr(pointer@, es[i - 1].0), q)
                                    + (value_m(es[i - 1].0, es[i - 1].1, pointer@, true, q) + (
                                entries_m(es, pointer@, q, i as int) + rest))));
                                assert(entries_m(es, pointer@, q, i - 1) =~= key_m(
                                    es[i - 1].0,
                                    es[i - 1].1,
                                    pointer@,
                                    q,
                                ) + (visit(es[i - 1].1, child_ptr(pointer@, es[i - 1].0), q)
                                    + (value_m(es[i - 1].0, es[i - 1].1, pointer@, true, q)
                                    + entries_m(es, pointer@, q, i as int))));
                                assert(pending(stack@, q) =~= entries_m(es, pointer@, q, i - 1)
                                    + rest);
                                assert(stack_weight(stack@) == w_rest + obj_size(es, i - 1));
                            }
                            i = i - 1;
                        }
                        proof {
                            assert(stack_weight(stack@) == w_rest + obj_size(es, 0));
                            assert(jsize(value@) == 1 + obj_size(es, 0));
                            assert(stack_weight(stack@) < w_start + fweight(frame));
                        }
                    },
                    JsonValue::Arr(items) => {
                        proof {
                            lemma_arr_view(items@);
                        }
                        let ghost a = arr_view(items@);
                        let ghost w_rest = stack_weight(stack@);
                        let n = items.len();
                        let mut i: usize = n;
                        while i > 0
                            invariant
                                0 <= i <= items@.len(),
                                a == arr_view(items@),
                                a.len() == items@.len(),
                                forall|m: int| 0 <= m < a.len() ==> (#[trigger] a[m]) == items@[m]@,
                                pending(stack@, q) == items_m(a, pointer@, q, i as int) + rest,
                                stack_weight(stack@) == w_rest + arr_size(a, i as int),
                            decreases i,
                        {
                            let idx = usize_to_string(i - 1);
                            let ghost st0 = stack@;
                            stack.push(
                                SearchFrame::ValueCheck {
                                    key: idx.clone(),
                                    child: items[i - 1].deep_copy(),
                                    parent: pointer.clone(),
                                    in_object: false,
                                },
                            );
                            let ghost st1 = stack@;
                            stack.push(
                                SearchFrame::Visit {
                                    value: items[i - 1].deep_copy(),
                                    pointer: join_ptr(pointer.as_str(), idx.as_str()),
                                },
                            );
                            proof {
                                lemma_pending_push(st0, st1.last(), q);
                                lemma_pending_push(st1, stack@.last(), q);
                                assert(pending(stack@, q) =~= visit(
                                    a[i - 1],
                                    child_ptr(pointer@, dec_digits((i - 1) as nat)),
                                    q,
                                ) + (value_m(dec_digits((i - 1) as nat), a[i - 1], pointer@, false,
                                q) + (items_m(a, pointer@, q, i as int) + rest)));
                                assert(items_m(a, pointer@, q, i - 1) =~= visit(
                                    a[i - 1],
                                    child_ptr(pointer@, dec_digits((i - 1) as nat)),
                                    q,
                                ) + (value_m(dec_digits((i - 1) as nat), a[i - 1], pointer@, false,
                                q) + items_m(a, pointer@, q, i as int)));
                                assert(pending(stack@, q) =~= items_m(a, pointer@, q, i - 1)
                                    + rest);
                                assert(stack_weight(stack@) == w_rest + arr_size(a, i - 1));
                            }
                            i = i - 1;
                        }
                        proof {
                            assert(jsize(value@) == 1 + arr_size(a, 0));
                            assert(stack_weight(stack@) < w_start + fweight(frame));
                        }
                    },
                    _ => {
                        proof {
                            assert(pending(stack@, q) =~= rest);
                            assert(ms.skip(found@.len() as int) =~= pending(stack@, q));
                            assert(stack_weight(stack@) < w_start + fweight(frame));
                        }
                    },
                }
            },
            SearchFrame::KeyCheck { key, child, parent } => {
                proof {
                    assert(frame_matches(frame, q) == key_m(key@, child@, parent@, q));
                }
                if search_keys {
                    let check = cand_text(case_sensitive, key.as_str());
                    if text_matches(check.as_str(), norm, re_ref, whole_word) {
                        let node = to_node_with_truncation(
                            parent.as_str(),
                            Some(key.as_str()),
                            &child,
                            None,
                        );
                        let sr = SearchResult {
                            node,
                            match_type: String::from_str("key"),
                            match_text: key.clone(),
                            context: None,
                        };
                        proof {
                            assert(key_m(key@, child@, parent@, q).len() == 1);
                            assert(ms.skip(found@.len() as int).len() == key_m(key@, child@, parent@, q).len() + pending(stack@, q).len());
                            assert(found@.len() < ms.len());
                            assert(ms.skip(found@.len() as int)[0] == ms[found@.len() as int]);
                            assert(sr@ == key_m(key@, child@, parent@, q)[0]);
                        }
                        found.push(sr);
                        proof {
                            assert(results_view(found@) =~= ms.subrange(0, found@.len() as int));
                            assert(ms.skip(found@.len() as int) =~= ms.skip(
                                found@.len() - 1,
                            ).drop_first());
                        }
                    }
                }
                assert(ms.skip(found@.len() as int) =~= pending(stack@, q));
            },
            SearchFrame::ValueCheck { key, child, parent, in_object } => {
                proof {
                    assert(frame_matches(frame, q) == value_m(key@, child@, parent@, *in_object, q));
                }
                if search_values && matches!(child, JsonValue::Str(_) | JsonValue::Num(_)
                    | JsonValue::Bool(_)) {
                    let text = scalar_string(child);
                    let check = cand_text(case_sensitive, text.as_str());
                    if text_matches(check.as_str(), norm, re_ref, whole_word) {
                        let node = to_node_with_truncation(
                            parent.as_str(),
                            Some(key.as_str()),
                            &child,
                            None,
                        );
                        let mut ctx = if *in_object {
                            String::from_str("in key: ")
                        } else {
                            String::from_str("in index: ")
                        };
                        ctx.append(key.as_str());
                        let sr = SearchResult {
                            node,
                            match_type: String::from_str("value"),
                            match_text: text,
                            context: Some(ctx),
                        };
                        proof {
                            assert(value_m(key@, child@, parent@, *in_object, q).len() == 1);
                            assert(ms.skip(found@.len() as int).len() == value_m(key@, child@, parent@, *in_object, q).len() + pending(stack@, q).len());
                            assert(found@.len() < ms.len());
                            assert(ms.skip(found@.len() as int)[0] == ms[found@.len() as int]);
                            assert(sr@ == value_m(key@, child@, parent@, *in_object, q)[0]);
                        }
                        found.push(sr);
                        proof {
                            assert(results_view(found@) =~= ms.subrange(0, found@.len() as int));
                            assert(ms.skip(found@.len() as int) =~= ms.skip(
                                found@.len() - 1,
                            ).drop_first());
                        }
                    }
                }
                assert(ms.skip(found@.len() as int) =~= pending(stack@, q));
            },
        }
}

proof fn lemma_frame_weight_pos(f: SearchFrame)
    ensures
        fweight(f) >= 1,
{
    match f {
        SearchFrame::Visit { value, pointer } => {
            lemma_jsize_pos(value@);
        },
        _ => {},
    }
}


/// Carves a full result sequence into batches of ten, each carrying the
/// running total after it.
fn slice_batches(found: &Vec<SearchResult>, Ghost(ms): Ghost<Seq<SearchResultView>>) -> (batches:
    Vec<SearchBatch>)
    requires
        results_view(found@) == ms,
    ensures
        batches_ok(batches@, ms),
{
    let total = found.len();
    let nb = total / 10 + (if total % 10 > 0 {
        1
    } else {
        0
    });
    let mut batches: Vec<SearchBatch> = Vec::new();
    let mut b: usize = 0;
    while b < nb
        invariant
            results_view(found@) == ms,
            total == found@.len(),
            total == ms.len(),
            nb == total / 10 + (if total % 10 > 0 {
                1int
            } else {
                0int
            }),
            0 <= b <= nb,
            batches@.len() == b,
            forall|k: int|
                0 <= k < b ==> results_view((#[trigger] batches@[k]).results@) == ms.subrange(
                    10 * k,
                    cap_at(10 * k + 10, ms.len() as int),
                ),
            forall|k: int|
                0 <= k < b ==> (#[trigger] batches@[k]).total_so_far == cap_at(
                    10 * k + 10,
                    ms.len() as int,
                ),
        decreases nb - b,
    {
        let lo = 10 * b;
        let hi = if total - lo < 10 {
            total
        } else {
            lo + 10
        };
        let mut page: Vec<SearchResult> = Vec::new();
        let mut i: usize = lo;
        while i < hi
            invariant
                results_view(found@) == ms,
                total == found@.len(),
                lo <= i <= hi <= total,
                page@.len() == i - lo,
                forall|m: int| 0 <= m < i - lo ==> (#[trigger] page@[m])@ == ms[lo + m],
            decreases hi - i,
        {
            let c = clone_result(&found[i]);
            proof {
                assert(results_view(found@)[i as int] == found@[i as int]@);
            }
            page.push(c);
            i = i + 1;
        }
        proof {
            assert(results_view(page@) =~= ms.subrange(10 * b as int, cap_at(
                10 * b + 10,
                ms.len() as int,
            )));
        }
        batches.push(SearchBatch { results: page, total_so_far: hi });
        b = b + 1;
    }
    proof {
        assert(batches@.len() == (ms.len() + 9) / 10);
        assert(batches_ok(batches@, ms));
    }
    batches
}

/// Runs a streaming search over the current document: the traversal is
/// driven by an explicit work stack, and results leave in batches of ten.
/// The caller gets the assigned id, every batch in order, and the total.
#[verifier::rlimit(100)]
pub fn search_stream(
    query: String,
    search_keys: bool,
    search_values: bool,
    search_paths: bool,
    case_sensitive: bool,
    regex: bool,
    whole_word: bool,
    state: &mut AppState,
) -> (r: Result<StreamOutcome, String>)
    ensures
        match r {
            Ok(out) => {
                &&& old(state)@.doc matches Some(d) && !blank(query@) && ({
                    let ms = stream_matches(
                        d,
                        query@,
                        search_keys,
                        search_values,
                        search_paths,
                        case_sensitive,
                        regex,
                        whole_word,
                    );
                    out.total == ms.len() && batches_ok(out.batches@, ms)
                })
                &&& final(state)@ == (AppStateView {
                    active_search_id: if old(state)@.active_search_id == u64::MAX {
                        0u64
                    } else {
                        (old(state)@.active_search_id + 1) as u64
                    },
                    ..old(state)@
                })
                &&& out.id == final(state)@.active_search_id
            },
            Err(e) => {
                &&& final(state)@ == old(state)@
                &&& (old(state)@.doc is None || blank(query@))
                &&& (old(state)@.doc is None ==> e@ == "No document loaded"@)
                &&& (!(old(state)@.doc is None) ==> e@ == "Empty query"@)
            },
        },
{
    if state.document().is_none() {
        return Err(String::from_str("No document loaded"));
    }
    let qc = str_to_chars(query.as_str());
    if is_blank_chars(&qc) {
        return Err(String::from_str("Empty query"));
    }
    let id = state.next_search_id();
    let root: JsonValue = match state.document() {
        Some(d) => d.deep_copy(),
        None => {
            proof {
                assert(false);
            }
            JsonValue::Null
        },
    };
    let ghost d0 = root@;
    let norm = if case_sensitive {
        query.clone()
    } else {
        to_lower(query.as_str())
    };
    let re_opt: Option<regex::Regex> = if regex {
        match regex_new(norm.as_str()) {
            Some(re) => Some(re),
            None => {
                let out = StreamOutcome { id, batches: Vec::new(), total: 0 };
                proof {
                    let ms = stream_matches(
                        d0,
                        query@,
                        search_keys,
                        search_values,
                        search_paths,
                        case_sensitive,
                        regex,
                        whole_word,
                    );
                    assert(ms.len() == 0);
                }
                return Ok(out);
            },
        }
    } else {
        None
    };
    let ghost q = exec_query(
        norm@,
        match re_opt {
            Some(ref re) => Some(re),
            None => None,
        },
        search_keys,
        search_values,
        search_paths,
        case_sensitive,
        whole_word,
    );
    let ghost ms = stream_matches(
        d0,
        query@,
        search_keys,
        search_values,
        search_paths,
        case_sensitive,
        regex,
        whole_word,
    );
    proof {
        assert(""@ =~= Seq::<char>::empty()) by {
            reveal_strlit("");
        }
        assert(ms == visit(d0, Seq::empty(), q));
    }
    let mut stack: Vec<SearchFrame> = Vec::new();
    stack.push(SearchFrame::Visit { value: root, pointer: String::new() });
    proof {
        lemma_pending_push(Seq::empty(), stack@.last(), q);
        assert(pending(stack@, q) =~= ms);
    }
    let mut found: Vec<SearchResult> = Vec::new();
    let re_ref: Option<&regex::Regex> = match re_opt {
        Some(ref re) => Some(re),
        None => None,
    };
    while stack.len() > 0
        invariant
            q == exec_query(
                norm@,
                re_ref,
                search_keys,
                search_values,
                search_paths,
                case_sensitive,
                whole_word,
            ),
            found@.len() <= ms.len(),
            results_view(found@) == ms.subrange(0, found@.len() as int),
            pending(stack@, q) == ms.skip(found@.len() as int),
        decreases stack_weight(stack@),
    {
        let ghost w0 = stack_weight(stack@);
        let frame = match stack.pop() {
            Some(f) => f,
            None => {
                proof {
                    assert(false);
                }
                return Err(String::new());
            },
        };
        proof {
            assert(ms.skip(found@.len() as int) == frame_matches(frame, q) + pending(stack@, q));
            assert(stack_weight(stack@) + fweight(frame) == w0);
        }
        stream_step(
            frame,
            &mut stack,
            &mut found,
            norm.as_str(),
            re_ref,
            search_keys,
            search_values,
            search_paths,
            case_sensitive,
            whole_word,
            Ghost(q),
            Ghost(ms),
        );
    }
    proof {
        assert(pending(stack@, q) =~= Seq::<SearchResultView>::empty());
        assert(ms.skip(found@.len() as int).len() == 0);
        assert(results_view(found@) =~= ms);
    }
    let total = found.len();
    let batches = slice_batches(&found, Ghost(ms));
    Ok(StreamOutcome { id, batches, total })
}

/// One pagination window over search results.
pub open spec fn results_page(s: Seq<SearchResultView>, offset: int, limit: int) -> Seq<
    SearchResultView,
> {
    let lo = if offset <= s.len() {
        offset
    } else {
        s.len() as int
    };
    let hi = if offset + limit <= s.len() {
        offset + limit
    } else {
        s.len() as int
    };
    if 0 <= lo <= hi <= s.len() {
        s.subrange(lo, hi)
    } else {
        Seq::empty()
    }
}

/// Runs a bulk search over the current document and returns one page of
/// results together with the exact total. A blank query finds nothing; a
/// regex query whose pattern does not compile finds nothing.
#[verifier::rlimit(100)]
pub fn search(
    query: String,
    search_keys: bool,
    search_values: bool,
    search_paths: bool,
    case_sensitive: bool,
    regex: bool,
    whole_word: bool,
    offset: usize,
    limit: usize,
    state: &AppState,
) -> (r: Result<SearchResponse, String>)
    ensures
        match r {
            Ok(resp) => state@.doc matches Some(d) && (if blank(query@) {
                resp@.results.len() == 0 && resp@.total_count == 0 && !resp@.has_more
            } else {
                let ms = bulk_matches(
                    d,
                    query@,
                    search_keys,
                    search_values,
                    search_paths,
                    case_sensitive,
                    regex,
                    whole_word,
                );
                &&& resp@.results == results_page(ms, offset as int, limit as int)
                &&& resp@.total_count == ms.len()
                &&& resp@.has_more == (offset + limit < ms.len())
            }),
            Err(e) => state@.doc is None && e@ == "No document loaded"@,
        },
{
    let doc = match state.document() {
        Some(d) => d,
        None => {
            return Err(String::from_str("No document loaded"));
        },
    };
    let qc = str_to_chars(query.as_str());
    if is_blank_chars(&qc) {
        return Ok(SearchResponse { results: Vec::new(), total_count: 0, has_more: false });
    }
    let norm = if case_sensitive {
        query.clone()
    } else {
        to_lower(query.as_str())
    };
    let re_opt: Option<regex::Regex> = if regex {
        match regex_new(norm.as_str()) {
            Some(re) => Some(re),
            None => {
                let resp = SearchResponse { results: Vec::new(), total_count: 0, has_more: false };
                assert(bulk_matches(
                    doc@,
                    query@,
                    search_keys,
                    search_values,
                    search_paths,
                    case_sensitive,
                    regex,
                    whole_word,
                ) =~= Seq::<SearchResultView>::empty());
                return Ok(resp);
            },
        }
    } else {
        None
    };
    let mut collected: Vec<SearchResult> = Vec::new();
    proof {
        assert(""@ =~= Seq::<char>::empty()) by {
            reveal_strlit("");
        }
    }
    search_recursive(
        doc,
        "",
        norm.as_str(),
        match &re_opt {
            Some(re) => Some(re),
            None => None,
        },
        search_keys,
        search_values,
        search_paths,
        case_sensitive,
        whole_word,
        &mut collected,
    );
    let ghost ms = bulk_matches(
        doc@,
        query@,
        search_keys,
        search_values,
        search_paths,
        case_sensitive,
        regex,
        whole_word,
    );
    proof {
        assert(results_view(collected@) =~= ms);
    }
    let total = collected.len();
    let lo = if offset <= total {
        offset
    } else {
        total
    };
    let hi = if limit <= total - lo {
        lo + limit
    } else {
        total
    };
    let mut page: Vec<SearchResult> = Vec::new();
    let mut i: usize = lo;
    while i < hi
        invariant
            lo <= i <= hi <= collected@.len(),
            results_view(collected@) == ms,
            page@.len() == i - lo,
            forall|m: int| 0 <= m < i - lo ==> (#[trigger] page@[m])@ == ms[lo + m],
        decreases hi - i,
    {
        let c = clone_result(&collected[i]);
        proof {
            assert(results_view(collected@)[i as int] == collected@[i as int]@);
        }
        page.push(c);
        i = i + 1;
    }
    let has_more = offset < total && limit < total - offset;
    proof {
        assert(results_view(page@) =~= results_page(ms, offset as int, limit as int));
    }
    Ok(SearchResponse { results: page, total_count: total, has_more })
}

} // verus!
