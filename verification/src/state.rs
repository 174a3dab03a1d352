//! Application state: the current document, the cooperative cancellation
//! flag for loading, and the streaming search id counter, together with the
//! commands that load and page through the document.

use vstd::prelude::*;
use vstd::string::StringExecFns;
use crate::json::{JsonValue, JsonView, wf_view};
use crate::types::{Node, NodeView};
use crate::tree::{list_children, children_nodes, page_of, list_target, nodes_view};
use crate::pointer::locate;
use crate::outside::{parse_json_text, json_parse};

verus! {

#[verifier::ext_equal]
pub ghost struct AppStateView {
    pub doc: Option<JsonView>,
    pub cancel_parse: bool,
    pub active_search_id: u64,
}

/// The application state. The loaded document is kept well-formed: object
/// keys distinct at every level and number texts canonical.
pub struct AppState {
    doc: Option<JsonValue>,
    cancel_parse: bool,
    active_search_id: u64,
}

impl View for AppState {
    type V = AppStateView;

    closed spec fn view(&self) -> AppStateView {
        AppStateView {
            doc: match self.doc {
                Some(ref d) => Some(d@),
                None => None,
            },
            cancel_parse: self.cancel_parse,
            active_search_id: self.active_search_id,
        }
    }
}

impl AppState {
    #[verifier::type_invariant]
    spec fn inv(self) -> bool {
        self.doc matches Some(d) ==> wf_view(d@)
    }

    /// The loaded document, if any; a loaded document is well-formed.
    pub fn document(&self) -> (r: Option<&JsonValue>)
        ensures
            match r {
                Some(d) => self@.doc == Some(d@) && wf_view(d@),
                None => self@.doc is None,
            },
    {
        proof {
            use_type_invariant(&*self);
        }
        match &self.doc {
            Some(d) => Some(d),
            None => None,
        }
    }

    /// Installs a new current document, wholly replacing any previous one.
    pub(crate) fn install_doc(&mut self, d: JsonValue)
        requires
            wf_view(d@),
        ensures
            final(self)@ == (AppStateView { doc: Some(d@), ..old(self)@ }),
    {
        proof {
            use_type_invariant(&*self);
        }
        self.doc = Some(d);
    }

    /// Whether cancellation was requested for the load in progress.
    pub fn cancel_requested(&self) -> (r: bool)
        ensures
            r == self@.cancel_parse,
    {
        self.cancel_parse
    }

    pub(crate) fn set_cancel(&mut self, b: bool)
        ensures
            final(self)@ == (AppStateView { cancel_parse: b, ..old(self)@ }),
    {
        proof {
            use_type_invariant(&*self);
        }
        self.cancel_parse = b;
    }

    /// Draws the next streaming search id: the counter moves forward by one
    /// and the new value is the id, wrapping at the numeric bound.
    pub(crate) fn next_search_id(&mut self) -> (id: u64)
        ensures
            final(self)@ == (AppStateView {
                active_search_id: if old(self)@.active_search_id == u64::MAX {
                    0u64
                } else {
                    (old(self)@.active_search_id + 1) as u64
                },
                ..old(self)@
            }),
            id == final(self)@.active_search_id,
    {
        proof {
            use_type_invariant(&*self);
        }
        if self.active_search_id == u64::MAX {
            self.active_search_id = 0;
        } else {
            self.active_search_id = self.active_search_id + 1;
        }
        self.active_search_id
    }
}

impl Default for AppState {
    /// A fresh state: no document, no cancellation, id counter at zero.
    fn default() -> (r: AppState)
        ensures
            r@.doc is None,
            r@.cancel_parse == false,
            r@.active_search_id == 0,
    {
        AppState { doc: None, cancel_parse: false, active_search_id: 0 }
    }
}

/// Requests cooperative cancellation of the load in progress.
pub fn cancel_parse(state: &mut AppState) -> (r: Result<(), String>)
    ensures
        r is Ok,
        final(state)@ == (AppStateView { cancel_parse: true, ..old(state)@ }),
{
    state.set_cancel(true);
    Ok(())
}

/// Resets the cancellation flag at the start of a new load.
pub fn begin_load(state: &mut AppState)
    ensures
        final(state)@ == (AppStateView { cancel_parse: false, ..old(state)@ }),
{
    state.set_cancel(false);
}

/// The first page of root children of a document.
pub open spec fn top_page(d: JsonView) -> Seq<NodeView> {
    page_of(children_nodes(d, Seq::empty()), 0, 100)
}

/// Parses a text and installs it as the current document, returning the
/// first page of root children. On failure the previous document stays; a
/// failure with the cancellation flag set is reported as a cancellation.
pub fn load_document(state: &mut AppState, text: &str) -> (r: Result<Vec<Node>, String>)
    ensures
        match r {
            Ok(nodes) => json_parse(text@) matches Some(d) && final(state)@ == (AppStateView {
                doc: Some(d),
                ..old(state)@
            }) && nodes_view(nodes@) == top_page(d),
            Err(e) => json_parse(text@) is None && final(state)@ == old(state)@ && (old(
                state,
            )@.cancel_parse ==> e@ == "Operation canceled"@),
        },
{
    match parse_json_text(text) {
        Ok(doc) => {
            proof {
                assert(""@ =~= Seq::<char>::empty()) by {
                    reveal_strlit("");
                }
            }
            let nodes = list_children(&doc, "", 0, 100);
            proof {
                assert(locate(doc@, Seq::empty()) == Some(doc@));
                assert(list_target(doc@, ""@) == doc@);
            }
            state.install_doc(doc);
            Ok(nodes)
        },
        Err(e) => {
            if state.cancel_requested() {
                Err(String::from_str("Operation canceled"))
            } else {
                Err(e)
            }
        },
    }
}

/// Parses clipboard text as a document; a failure names the clipboard.
pub fn open_clipboard_text(state: &mut AppState, text: &str) -> (r: Result<Vec<Node>, String>)
    ensures
        match r {
            Ok(nodes) => json_parse(text@) matches Some(d) && final(state)@ == (AppStateView {
                doc: Some(d),
                ..old(state)@
            }) && nodes_view(nodes@) == top_page(d),
            Err(_) => json_parse(text@) is None && final(state)@ == old(state)@,
        },
{
    match parse_json_text(text) {
        Ok(doc) => {
            proof {
                assert(""@ =~= Seq::<char>::empty()) by {
                    reveal_strlit("");
                }
                assert(locate(doc@, Seq::empty()) == Some(doc@));
            }
            let nodes = list_children(&doc, "", 0, 100);
            proof {
                assert(list_target(doc@, ""@) == doc@);
            }
            state.install_doc(doc);
            Ok(nodes)
        },
        Err(e) => {
            let mut msg = String::from_str("Clipboard does not contain valid JSON: ");
            msg.append(e.as_str());
            Err(msg)
        },
    }
}

/// Lists one page of children of the value a pointer leads to in the
/// current document.
pub fn load_children(pointer: String, offset: usize, limit: usize, state: &AppState) -> (r:
    Result<Vec<Node>, String>)
    ensures
        match r {
            Ok(nodes) => state@.doc matches Some(d) && nodes_view(nodes@) == page_of(
                children_nodes(list_target(d, pointer@), pointer@),
                offset as int,
                limit as int,
            ),
            Err(e) => state@.doc is None && e@ == "No document loaded"@,
        },
{
    match state.document() {
        Some(doc) => Ok(list_children(doc, pointer.as_str(), offset, limit)),
        None => Err(String::from_str("No document loaded")),
    }
}

} // verus!
