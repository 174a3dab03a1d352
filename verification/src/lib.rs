//! A lazy JSON tree navigator and search engine: on-demand child pagination
//! addressed by JSON Pointer, cancellable progress-tracked loading, bulk and
//! streaming search over keys, values and paths, and in-place mutation of the
//! loaded document.

pub mod json;
pub mod node;
pub mod outside;
pub mod pointer;
pub mod progress;
pub mod search;
pub mod state;
pub mod strutil;
pub mod tree;
pub mod types;
