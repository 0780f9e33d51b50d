//! Merge and write mechanics of a lakehouse table format.
//!
//! The crate holds the decisions of the write/merge path as verified, synchronous
//! code over plain values: coalescing of byte ranges, the k-way merge of sorted
//! row streams with per-column conflict resolution, and the size-bounded writer
//! with its manifest. Storage, codecs and scheduling stay with the caller.

pub mod combiner;
pub mod file_name;
pub mod manifest;
pub mod merge_laws;
pub mod merge_model;
pub mod merge_operator;
pub mod merger;
pub mod range_laws;
pub mod ranges;
pub mod schema;
pub mod sort_key;
pub mod sort_key_range;
pub mod split;
pub mod writer;
