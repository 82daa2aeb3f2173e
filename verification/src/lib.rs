//! Directory-tree indexer and renderer.
//!
//! The crate enumerates a filesystem subtree, keeps the resulting hierarchy in
//! an offset-indexed persistent cache, updates that cache incrementally from a
//! volume change journal, and renders the tree as text or JSON.
//!
//! Paths and names are handled as byte strings throughout; timestamps are UTC
//! seconds held in `i64`. All file and journal I/O lives outside this crate:
//! callers hand in the bytes read from disk (or a snapshot of a subtree) and
//! receive the bytes to write back.

pub mod bytestr;
pub mod cache;
pub mod codec;
pub mod entry;
pub mod error;
pub mod incremental;
pub mod journal;
pub mod json;
pub mod orchestrator;
pub mod render;
pub mod report;
pub mod service;
pub mod store;
pub mod traversal;
