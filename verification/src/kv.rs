//! The storage engine and its parts, leaves first: the errors, the record
//! codec, the position-tracked cursors, the index, the model of the log, the
//! engine itself, the facade in front of it, and the laws of the store.
pub mod errors;
pub mod entry;
pub mod stream;
pub mod index;
pub mod log;
pub mod storage;
pub mod kv_store;
pub mod laws;
