//! A persistence layer for note entities: capability traits for saving,
//! fetching, deleting and listing notes, together with a durable
//! file-directory backend and a volatile in-memory backend.

pub mod codec;
pub mod file_store;
pub mod keyed;
pub mod keys;
pub mod memory_store;
pub mod server;
pub mod store;

pub use store::StorageError;
