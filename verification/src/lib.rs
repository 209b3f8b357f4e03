//! An embedded, durable, log-structured key-value storage engine.
//!
//! An append-only durability log (the write-ahead log) is the source of
//! truth; an in-memory sorted index holds the latest record per key and is
//! rebuilt from the log on every start.

pub mod clock;
pub mod database;
pub mod error;
pub mod mem_table;
pub mod memory;
pub mod model;
pub mod order;
pub mod store;
pub mod wal;
