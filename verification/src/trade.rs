//! Trades: immutable records of completed matches.

use vstd::prelude::*;
use crate::price::Price;

verus! {

/// One completed match between a bid and an ask.
///
/// `timestamp` is the smaller of the two matched orders' timestamps; the
/// execution price is chosen by the matching algorithm that produced the
/// trade.
#[derive(Clone, Copy, Debug, PartialEq, Eq, Structural)]
pub struct Trade {
    pub bid_order_id: u64,
    pub ask_order_id: u64,
    pub price: Price,
    pub quantity: u64,
    pub timestamp: u64,
}

} // verus!
