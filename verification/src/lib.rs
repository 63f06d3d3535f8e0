//! A deterministic, single-instrument limit-order-book matching engine.
//!
//! The engine consumes timestamped commands (place, cancel, flush) and
//! answers each with the fills it produced and the identifiers of the orders
//! that are no longer live. Prices and amounts are exact decimals; every
//! function carries a machine-checked contract.

pub mod decimal;
pub mod book;
pub mod codec;
pub mod engine;
pub mod expiry;
pub mod laws;
pub mod lemmas;
pub mod matching;
pub mod order;
pub mod seqs;
pub mod state;
