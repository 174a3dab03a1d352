//! The view-only data shapes handed to callers: node summaries, search
//! results, and the bulk search response.

use vstd::prelude::*;

verus! {

/// A lightweight summary of one JSON value, recomputed on demand.
#[derive(Debug)]
pub struct Node {
    pub pointer: String,
    pub key: Option<String>,
    pub value_type: String,
    pub has_children: bool,
    pub child_count: usize,
    pub preview: String,
}

#[verifier::ext_equal]
pub ghost struct NodeView {
    pub pointer: Seq<char>,
    pub key: Option<Seq<char>>,
    pub value_type: Seq<char>,
    pub has_children: bool,
    pub child_count: nat,
    pub preview: Seq<char>,
}

impl View for Node {
    type V = NodeView;

    open spec fn view(&self) -> NodeView {
        NodeView {
            pointer: self.pointer@,
            key: match self.key {
                Some(k) => Some(k@),
                None => None,
            },
            value_type: self.value_type@,
            has_children: self.has_children,
            child_count: self.child_count as nat,
            preview: self.preview@,
        }
    }
}

/// One match found by a search: the node, what matched (key, value or
/// path), the matched text, and where a value match sat.
#[derive(Debug)]
pub struct SearchResult {
    pub node: Node,
    pub match_type: String,
    pub match_text: String,
    pub context: Option<String>,
}

#[verifier::ext_equal]
pub ghost struct SearchResultView {
    pub node: NodeView,
    pub match_type: Seq<char>,
    pub match_text: Seq<char>,
    pub context: Option<Seq<char>>,
}

impl View for SearchResult {
    type V = SearchResultView;

    open spec fn view(&self) -> SearchResultView {
        SearchResultView {
            node: self.node@,
            match_type: self.match_type@,
            match_text: self.match_text@,
            context: match self.context {
                Some(c) => Some(c@),
                None => None,
            },
        }
    }
}

/// One page of bulk search results, with the exact total.
#[derive(Debug)]
pub struct SearchResponse {
    pub results: Vec<SearchResult>,
    pub total_count: usize,
    pub has_more: bool,
}

#[verifier::ext_equal]
pub ghost struct SearchResponseView {
    pub results: Seq<SearchResultView>,
    pub total_count: nat,
    pub has_more: bool,
}

/// The views of a sequence of search results.
pub open spec fn results_view(v: Seq<SearchResult>) -> Seq<SearchResultView> {
    Seq::new(v.len(), |i: int| v[i]@)
}

impl View for SearchResponse {
    type V = SearchResponseView;

    open spec fn view(&self) -> SearchResponseView {
        SearchResponseView {
            results: results_view(self.results@),
            total_count: self.total_count as nat,
            has_more: self.has_more,
        }
    }
}

} // verus!
