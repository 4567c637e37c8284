//! An engine for an interactive viewer of structured, line-oriented logs.
//!
//! The crate covers the parts of such a viewer that carry real invariants:
//! the tolerant line/multiline parser, the hierarchical module filter with
//! cascading selection, the fingerprint-guarded filter cache, the
//! variable-height scroll/focus engine, the tail-follow state machine, and
//! the dispatch of user input onto the application state.  Terminal drawing
//! and the asynchronous plumbing around these live outside the library.

pub mod entry;
pub mod filter;
pub mod input;
pub mod log_parser;
pub mod module_tree;
pub mod state;
pub mod tail;
pub mod text;
