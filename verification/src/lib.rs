//! A deterministic in-memory limit order book with price-time priority
//! matching, verified with Verus.
//!
//! Given the same starting state and the same commands, the engine produces
//! the same events and the same final state; every operation is stated
//! against a model of the book as two priority-ordered queues.
pub mod types;
pub mod command;
pub mod queue;
pub mod level;
pub mod book;
pub mod snapshot;
pub mod engine;
pub mod text;
pub mod journal;
pub mod invariants;
pub mod audit;
pub mod json;
pub mod cli;
pub mod workload;
pub mod fuzz;

pub use book::{LevelSummary, OrderBook, RestingOrder};
pub use command::{CancelReason, Command, Event, Priority, RejectReason};
pub use engine::MatchingEngine;
pub use snapshot::{Snapshot, SnapshotError};
pub use types::{MAX_PRICE, MAX_QTY, OrderId, OrderType, Price, Qty, SeqNo, Side};
