//! A single-file, append-only key-value store: the on-disk format, the record
//! codec, the in-memory index and the decisions of the storage engine.
pub mod bytes;
pub mod constants;
pub mod header;
pub mod codec;
pub mod index;
pub mod log;
pub mod state;
pub mod compaction;
