//! Version-set core of a log-structured-merge key-value store: the in-memory
//! snapshot of sorted tables organised into levels, point lookup across
//! levels, overlap queries for compaction planning, seek-charge accounting,
//! and per-level concatenating iterators.

pub mod cmp;
pub mod env;
pub mod error;
pub mod types;
pub mod key_types;
pub mod table_cache;
pub mod version;
