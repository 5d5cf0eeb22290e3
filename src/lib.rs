//! A log-structured key/value store.
//!
//! The store appends records to segment files and keeps, for each live key,
//! where its latest record lies. This crate holds what decides things: the
//! index and the accounting of reclaimable bytes (`StoreState`), recovery
//! from the records of a directory's segments, compaction, the names of
//! segment files, the framing and the request/response rules of the wire
//! protocol, the choice of engine, and the adapters over sled and rayon.
//! Reading and writing files and sockets is left to the caller.

pub mod engine;
pub mod engine_kind;
pub mod error;
pub mod frame;
pub mod index;
pub mod protocol;
pub mod record;
pub mod segment;
pub mod sled_engine;
pub mod thread_pool;

pub use engine::{Compaction, LogEntry, Move, StoreState};
pub use error::KvsError;
pub use protocol::{Request, Response};
pub use record::{Command, CommandPos};
pub use sled_engine::SledKvsEngine;
pub use thread_pool::RayonThreadPool;
