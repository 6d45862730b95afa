//! An in-memory resting-order store for one instrument's limit order book.
//!
//! The book tracks currently-open limit orders, indexed both by order id and
//! by price level, and answers best-price queries on each side. It performs
//! no matching: callers hand it validated orders and cancel them by id.
//!
//! Prices are exact fixed-point decimals in a canonical representation: every
//! price is the integer count of ticks at the instrument's tick scale, so
//! price-level keys compare exactly. The `price` module converts decimal
//! mantissa/scale pairs to and from tick counts.

pub mod orderbook;
pub mod price;
pub mod types;
