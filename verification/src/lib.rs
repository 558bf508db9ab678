//! A local file-system indexing and query engine.
//!
//! Given root directories (presented as in-memory snapshots), the walker
//! expands a work queue over each tree, filters entries through a chain of
//! checkers, matches surviving paths against a caller-supplied query, and
//! emits the matches as a length-prefixed binary record stream.  A cache
//! layer avoids re-walking stable roots on every query.

pub mod cache;
pub mod checkers;
pub mod framing;
pub mod fs_tree;
pub mod matcher;
pub mod query;
pub mod service;
pub mod walker;
