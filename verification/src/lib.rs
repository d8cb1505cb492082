//! A log-structured merge-tree storage library: sorted blocks, sorted string tables, their
//! iterators, and the compaction policies that decide which tables are merged.
pub mod block;
pub mod bloom;
pub mod block_builder;
pub mod block_iterator;
pub mod compact;
pub mod iterators;
pub mod key;
pub mod lsm_iterator;
pub mod lsm_storage;
pub mod manifest;
pub mod table;
pub mod table_builder;
pub mod table_iterator;
