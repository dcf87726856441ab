//! Verified core of a terminal file explorer: a depth-aware rolling-prefix
//! hash over file names, an inverted index from hashes to paths, and the
//! pure decision logic of the indexer, browser and searcher workers.

pub mod error;
pub mod flags;
pub mod hash;
pub mod indexer;
pub mod opener;
