//! A limit order matching engine with price-time priority.
//!
//! Every symbol has a two-sided book of resting orders. An incoming order
//! trades against the opposite side, best price first and oldest order
//! first, and whatever is left of it rests on its own side. Resting orders
//! can be amended and cancelled by identifier. Prices are fixed-point
//! integers: the real price times 10,000.
pub mod book;
pub mod laws;
pub mod level;
pub mod matching_engine;
pub mod model;
pub mod numeral;
pub mod order;
pub mod parser;
pub mod preservation;
