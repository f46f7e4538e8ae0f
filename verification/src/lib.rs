//! Provenance-first engineering knowledge graphs.
//!
//! Assertions remain portable, reviewable JSONL records. The library holds the
//! rules that decide which records are valid, which evidence span a selector
//! names, how spans are locked and audited, and how the reviewed graph is
//! traversed and exported.

pub mod text;
pub mod error;
pub mod model;
pub mod graph;
pub mod hash;
pub mod evidence;
pub mod validate;
pub mod paths;
pub mod keyed;
pub mod lock;
pub mod index;
pub mod query;
pub mod export;
pub mod gold;
pub mod records;
