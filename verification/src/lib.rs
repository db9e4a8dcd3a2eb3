//! Indexing core of a Lucene-style search engine.
//!
//! The crate turns documents into per-term postings and reads the binary
//! files that describe which segments make up an index. Every function is
//! verified against a contract stated over byte sequences and mathematical
//! views of the data.

pub mod analysis;
pub mod codec;
pub mod document;
pub mod field;
pub mod index;
pub mod store;
pub mod version;
