//! Query-time ranking engine for a TF-IDF statistical index.
//!
//! The engine turns per-query-term statistics (supplied externally) into a
//! single ordered list of documents, each carrying a corpus-level score, a
//! record-level score, and a combined score. All statistics and scores are
//! fixed-point values in units of one millionth (see [`fixed::SCALE`]).

pub mod domain;
pub mod fixed;
pub mod routes;
pub mod services;
pub mod sums;
