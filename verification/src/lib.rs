//! A central limit order book: buy and sell limit orders are matched under
//! strict price-then-time priority, every execution is recorded in an
//! append-only trade log, and resting orders can be cancelled or inspected.

pub mod types;
pub mod model;
pub mod book;
pub mod api;
