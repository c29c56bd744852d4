//! A staged-synchronization library for an execution-layer chain database.
//!
//! The crate models a transactional key/value store with typed tables, the
//! uniform stage contract (`execute` / `unwind`), the header-download and
//! sender-recovery stages that populate the tables, and the dual-indexed
//! parked-transaction pool. Every function carries a verified contract.

pub mod client;
pub mod db;
pub mod error;
pub mod headers;
pub mod kv;
pub mod kv_numhash;
pub mod laws;
pub mod pipeline;
pub mod pool;
pub mod primitives;
pub mod senders;
pub mod stage;
pub mod tool;

pub use error::RequestError;
