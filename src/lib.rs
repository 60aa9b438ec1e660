//! A single-instrument order book with price-time priority matching, and a
//! small account ledger.

pub mod accounts;
pub mod book;
pub mod errors;
pub mod laws;
pub mod lemmas;
pub mod matching;
pub mod models;
pub mod tx;
