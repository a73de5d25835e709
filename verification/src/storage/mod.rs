//! Storage: the write-ahead log, the memtable and the engine that ties them together.

pub mod engine;
pub mod escape;
pub mod memtable;
pub mod wal;
