//! Derived statistics of the book.
//!
//! The cumulative counters (created, matched, cancelled, volume) are
//! monotonic and saturate at their type's maximum instead of wrapping; the
//! market-data fields (best bid and ask, spread, mid price) are recomputed
//! from the book after every mutating call.

use vstd::prelude::*;
use crate::price::Price;

verus! {

/// A point-in-time snapshot of the book's derived statistics.
///
/// Prices are in ticks; `total_volume_traded` is a sum of per-trade
/// notionals (price in ticks times quantity in micro-units); `spread` is
/// ask minus bid and may be negative while the book is crossed.
#[derive(Clone, Copy, Debug, PartialEq, Eq)]
pub struct OrderBookStats {
    pub total_orders_created: u64,
    pub total_orders_matched: u64,
    pub total_orders_cancelled: u64,
    pub total_volume_traded: u128,
    pub best_bid: Option<Price>,
    pub best_ask: Option<Price>,
    pub spread: Option<i128>,
    pub mid_price: Option<Price>,
    pub last_match_time: Option<u64>,
}

/// The zero state of the statistics.
pub open spec fn zero_stats() -> OrderBookStats {
    OrderBookStats {
        total_orders_created: 0,
        total_orders_matched: 0,
        total_orders_cancelled: 0,
        total_volume_traded: 0,
        best_bid: None,
        best_ask: None,
        spread: None,
        mid_price: None,
        last_match_time: None,
    }
}

/// A snapshot with its market-data fields recomputed from the given best
/// bid and ask: spread is ask minus bid, mid price their floor average,
/// both present exactly when both sides are.
pub open spec fn with_market(s: OrderBookStats, bb: Option<u64>, ba: Option<u64>) -> OrderBookStats {
    if bb is Some && ba is Some {
        OrderBookStats {
            best_bid: Some(Price { ticks: bb->0 }),
            best_ask: Some(Price { ticks: ba->0 }),
            spread: Some((ba->0 - bb->0) as i128),
            mid_price: Some(Price { ticks: ((bb->0 + ba->0) / 2) as u64 }),
            ..s
        }
    } else {
        OrderBookStats {
            best_bid: if bb is Some {
                Some(Price { ticks: bb->0 })
            } else {
                None
            },
            best_ask: if ba is Some {
                Some(Price { ticks: ba->0 })
            } else {
                None
            },
            spread: None,
            mid_price: None,
            ..s
        }
    }
}

/// Addition on u64 that sticks at the maximum instead of wrapping.
pub open spec fn sat_add_u64(a: u64, b: u64) -> u64 {
    if a + b > u64::MAX {
        u64::MAX
    } else {
        (a + b) as u64
    }
}

/// Addition on u128 that sticks at the maximum instead of wrapping.
pub open spec fn sat_add_u128(a: u128, b: u128) -> u128 {
    if a + b > u128::MAX {
        u128::MAX
    } else {
        (a + b) as u128
    }
}

/// Executable saturating addition on u64.
pub fn sat_add64(a: u64, b: u64) -> (r: u64)
    ensures
        r == sat_add_u64(a, b),
{
    if u64::MAX - a < b {
        u64::MAX
    } else {
        a + b
    }
}

/// Executable saturating addition on u128.
pub fn sat_add128(a: u128, b: u128) -> (r: u128)
    ensures
        r == sat_add_u128(a, b),
{
    if u128::MAX - a < b {
        u128::MAX
    } else {
        a + b
    }
}

impl OrderBookStats {
    /// The zero snapshot.
    pub fn new() -> (r: OrderBookStats)
        ensures
            r == zero_stats(),
    {
        OrderBookStats {
            total_orders_created: 0,
            total_orders_matched: 0,
            total_orders_cancelled: 0,
            total_volume_traded: 0,
            best_bid: None,
            best_ask: None,
            spread: None,
            mid_price: None,
            last_match_time: None,
        }
    }

    /// Recomputes the market-data fields from the given best bid and ask.
    pub fn update_market_data(&mut self, best_bid: Option<Price>, best_ask: Option<Price>)
        ensures
            *final(self) == with_market(
                *old(self),
                match best_bid {
                    Some(p) => Some(p.ticks),
                    None => None,
                },
                match best_ask {
                    Some(p) => Some(p.ticks),
                    None => None,
                },
            ),
    {
        self.best_bid = best_bid;
        self.best_ask = best_ask;
        match (best_bid, best_ask) {
            (Some(bid), Some(ask)) => {
                self.spread = Some(ask.ticks as i128 - bid.ticks as i128);
                let mid: u128 = (bid.ticks as u128 + ask.ticks as u128) / 2;
                self.mid_price = Some(Price { ticks: mid as u64 });
            },
            _ => {
                self.spread = None;
                self.mid_price = None;
            },
        }
    }
}

} // verus!
