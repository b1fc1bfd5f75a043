//! Incremental, deduplicating file-tree backups: the log codec, the merge of a
//! source walk against the previous snapshot, the deduplication planner and the
//! retention rules, all stated over byte sequences and plain values.
pub mod codec;
pub mod dedup;
pub mod hashing;
pub mod interval;
pub mod log;
pub mod merge;
pub mod parser;
pub mod repo;
pub mod retention;
pub mod sources;
pub mod stats;
pub mod writer;
