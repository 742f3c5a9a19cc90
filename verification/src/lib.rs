//! Matching core of a continuous double-auction engine.
//!
//! Incoming buy and sell orders are matched against a resting order book
//! under price-time priority, with support for iceberg orders. Every
//! executable function carries a contract over a mathematical model of the
//! book, and the ordering and conservation laws of the engine are proved
//! over that model.

pub mod matching_engine;
