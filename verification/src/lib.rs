//! Codec and label-reconciliation engine for a self-describing binary
//! container of fixed-geometry labeled images: a versioned header with a
//! variable label vocabulary, a deflate-compressed body of fixed-size
//! records, and a merge operation that reconciles two datasets' label
//! vocabularies while preserving which string each image is labeled with.

pub mod dataset;
pub mod error;
pub mod header;
pub mod merge;
pub mod version;
