//! Consolidated two-sided FX price book built from per-provider quotes.
//!
//! Prices are held as integer pips (ten-thousandths of the quote currency's
//! major unit); notionals are in millions.
pub mod aggregator;
pub mod laws;
pub mod model;
pub mod parser;
