//! A persistent key-value store kept as an append-only log of JSON records,
//! with a verified codec, replay and compaction policy.

pub mod codec;
pub mod errors;
pub mod log;
pub mod store;
pub mod table;

pub use errors::DatabaseError;
pub use store::KvStore;
