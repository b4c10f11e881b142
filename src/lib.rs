//! An embedded key-value store built on the log-structured-merge pattern.
pub mod codec;
pub mod wal;
pub mod errors;
pub mod keys;
pub mod memtable;
pub mod sst;
pub mod db;
