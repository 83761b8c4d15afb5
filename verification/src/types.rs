//! Plain value types shared by the whole engine: orders, trades, errors.

use vstd::prelude::*;

verus! {

/// Which side of the book an order belongs to.
#[derive(Clone, Copy, PartialEq, Eq, Structural, Debug)]
pub enum Side {
    Buy,
    Sell,
}

impl Side {
    /// The side an incoming order matches against.
    pub open spec fn opposite_spec(self) -> Side {
        match self {
            Side::Buy => Side::Sell,
            Side::Sell => Side::Buy,
        }
    }

    /// Executable opposite, equal to the spec-level one.
    pub fn opposite(self) -> (r: Side)
        ensures
            r == self.opposite_spec(),
    {
        match self {
            Side::Buy => Side::Sell,
            Side::Sell => Side::Buy,
        }
    }
}

/// A resting or in-flight limit order. `quantity` is the remaining,
/// still-unfilled amount; it only ever decreases and an order reaching
/// zero is removed from every book structure in the same operation.
/// Ids are handed out by one strictly increasing counter, so an order's id
/// is also its admission sequence: the FIFO tie-break at equal prices goes
/// by id.
#[derive(Clone, Copy, PartialEq, Eq, Structural, Debug)]
pub struct Order {
    pub id: u128,
    pub side: Side,
    pub price: u64,
    pub quantity: u64,
}

/// One execution. The price is the resting order's price; the sequence
/// numbers are gap-free and strictly increasing over the life of the book.
#[derive(Clone, Copy, PartialEq, Eq, Structural, Debug)]
pub struct Trade {
    pub price: u64,
    pub quantity: u64,
    pub sequence: u64,
    pub timestamp: u64,
}

/// A locator entry: where the order with this id currently rests.
#[derive(Clone, Copy, PartialEq, Eq, Structural, Debug)]
pub struct Loc {
    pub id: u128,
    pub side: Side,
    pub price: u64,
}

/// Everything that can go wrong at the engine's boundary.
#[derive(Clone, Copy, PartialEq, Eq, Structural, Debug)]
pub enum OrderError {
    /// Submission with a non-positive price or quantity; no state change.
    InvalidOrder,
    /// Cancellation or lookup of an id with no currently-resting order.
    OrderNotFound,
}

} // verus!
