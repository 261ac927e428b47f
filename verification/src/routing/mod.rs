//! Hierarchical routing engine.
pub mod algorithm;
pub mod cache;
pub mod hierarchical;
pub mod hierarchy;
pub mod lanes;
pub mod router;
pub mod search;
pub mod search_fst;
pub mod search_index;
pub mod tile;
pub mod turn;
pub mod types;
