//! A directed graph of currency-exchange quotes across multiple exchanges,
//! answering queries for the best achievable conversion rate (and the path
//! realizing it) between any two (exchange, currency) pairs.

pub mod domain;
pub mod error;
pub mod graph;
pub mod rat;
pub mod text;
pub mod timestamp;
pub mod utility;
