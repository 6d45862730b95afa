//! Value types handled by the order book.

use vstd::prelude::*;

verus! {

/// Which side of the book an order rests on.
#[derive(Clone, Copy, Debug, PartialEq, Eq, Structural)]
pub enum Side {
    Bid,
    Ask,
}

/// A single resting limit order.
///
/// The price is the integer count of ticks at the instrument's tick scale
/// (a canonical fixed-point decimal, so equal prices compare equal exactly).
/// The quantity is carried through unchanged; the book does not interpret it.
#[derive(Clone, Copy, Debug, PartialEq, Eq, Structural)]
pub struct Order {
    pub id: u64,
    pub side: Side,
    pub price: u64,
    pub quantity: u64,
}

/// The two ways a book operation can fail.
#[derive(Clone, Copy, Debug, PartialEq, Eq, Structural)]
pub enum BookError {
    /// `add_order` was given an id that is already resting.
    DuplicateId,
    /// `cancel_order` was given an id that is not resting.
    NotFound,
}

} // verus!
