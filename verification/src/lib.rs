//! A single-process limit order book.
//!
//! Resting (limit) orders are posted at exact fixed-point prices; incoming
//! market orders are matched against the opposite side in strict price
//! priority, FIFO within a price level, and the result of a match reports
//! the filled size, the remaining size, the volume-weighted average fill
//! price and the per-level fills.

pub mod engine;
pub mod orderbook;
