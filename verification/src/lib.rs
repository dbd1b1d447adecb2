//! A minimal persistent key-value store over a single append-only log.
//!
//! The log is a flat sequence of checksummed, length-prefixed records; an
//! in-memory index maps each key to the offset of its latest record. The
//! store works on the log image as plain bytes; reading the backing file
//! into that image and flushing appended bytes back out is the caller's
//! concern.

pub mod checksum;
pub mod codec;
pub mod index;
pub mod laws;
pub mod store;

pub use codec::KeyValuePair;
pub use codec::KvError;
pub use index::Index;
pub use store::RustKV;
