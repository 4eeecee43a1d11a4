//! An embedded, single-process key-value store on a log-structured storage
//! model: an append-only data file and an in-memory index of offsets into it.
//!
//! The engine works on the image of the data file, held in memory as bytes;
//! reading that image from a directory and writing it back is left to the
//! caller. Everything in this crate is verified with Verus, except the few
//! items marked `external_body`, whose doc comments say what is assumed.
pub mod kv;
