//! Replay of order-book snapshots and trade-tape events for one security,
//! simulating a momentum strategy: market opens on a short-term price rise,
//! resting limit closes reconstructed from the tape, and market closes once a
//! deadline has passed.

pub mod utils;
pub mod ladder;
pub mod transaction;
pub mod tick;
pub mod strategy;
pub mod raw_data;
