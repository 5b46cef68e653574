//! Ingestion and vectorization pipeline for textual query logs.
//!
//! The crate turns raw query-log files into an ordered dataset of token-id
//! sequences: a vocabulary maps each word to its line index, each query line
//! is tokenized against that vocabulary, and the per-file datasets are merged
//! in ascending lexicographic order of their paths.  A chunk partitioner
//! bounds the memory of the later vectorization pass by splitting the query
//! index range into contiguous, equal-sized chunks.

pub mod chunks;
pub mod error;
pub mod text;
pub mod vocab;
pub mod parts;
