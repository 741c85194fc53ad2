//! An embeddable, append-only, log-structured key-value store.
//!
//! The store keeps string keys and values in a catalog of append-only log
//! segments and an in-memory index, survives a crash by replaying the
//! segment catalog on open, and reclaims stale records by compaction.
//! A line-framed wire protocol exposes the store over a connection.

pub mod assoc;
pub mod bytes;
pub mod codec;
pub mod config;
pub mod engine;
pub mod error;
pub mod pool;
pub mod protocol;
pub mod replay;
pub mod store;

pub use codec::Cmd;
pub use engine::KvsEngine;
pub use error::Error;
pub use error::ErrorKind;
pub use pool::RayonThreadPool;
pub use pool::ThreadPool;
pub use protocol::Protocol;
pub use protocol::Request;
pub use protocol::Response;
pub use store::KvStore;
