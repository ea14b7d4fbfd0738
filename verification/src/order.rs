//! Orders: the unit of resting or in-flight interest.

use vstd::prelude::*;
use crate::price::Price;

verus! {

/// The side of the book an order belongs to.
#[derive(Clone, Copy, Debug, PartialEq, Eq, Structural)]
pub enum OrderSide {
    Bid,
    Ask,
}

/// One unit of interest: resting on the book, or in flight during a match.
///
/// `quantity` is the remaining size in micro-units and stays strictly
/// positive while the order rests. `timestamp` is the logical arrival order,
/// used for time priority and as a tie-break.
#[derive(Clone, Copy, Debug, PartialEq, Eq, Structural)]
pub struct Order {
    pub id: u64,
    pub side: OrderSide,
    pub price: Price,
    pub quantity: u64,
    pub timestamp: u64,
}

impl Order {
    /// Builds an order from its parts.
    pub fn new(id: u64, side: OrderSide, price: Price, quantity: u64, timestamp: u64) -> (r: Order)
        ensures
            r == (Order { id, side, price, quantity, timestamp }),
    {
        Order { id, side, price, quantity, timestamp }
    }
}

} // verus!
