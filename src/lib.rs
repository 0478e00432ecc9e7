//! A log-structured key/value store.
//!
//! The library holds the store's logic: the self-delimiting encoding of
//! log records and wire messages, the in-memory index with its recovery and
//! compaction rules, the receive buffer of a connection, and the decisions
//! a server and a client take around each exchange. Reading and writing
//! files and sockets is left to the caller.
pub mod codec;
pub mod connection;
pub mod error;
pub mod message;
pub mod selection;
pub mod service;
pub mod shared;
pub mod sled_engine;
pub mod store;
pub mod store_proofs;
pub mod thread_pool;

pub use error::KvsError;
pub use service::KvsEngine;
pub use shared::Arc;
pub use sled_engine::SledKvsEngine;
pub use store::LogStore;
pub use thread_pool::ThreadPool;
