//! Price as a fixed-point tick count.
//!
//! A price is a whole number of ticks (one tick = one micro-unit of the
//! quoted currency). Ticks order totally, so a price never breaks a sorted
//! container's invariants; callers that quote in floating point convert to
//! ticks at the boundary and decide there how to map non-finite values.

use vstd::prelude::*;

verus! {

/// A price on the book, as a whole number of ticks.
#[derive(Clone, Copy, Debug, PartialEq, Eq, Structural, Hash)]
pub struct Price {
    pub ticks: u64,
}

impl Price {
    /// Makes a price from its tick count.
    pub fn new(ticks: u64) -> (r: Price)
        ensures
            r.ticks == ticks,
    {
        Price { ticks }
    }

    /// The tick count of this price.
    pub fn as_ticks(&self) -> (r: u64)
        ensures
            r == self.ticks,
    {
        self.ticks
    }
}

} // verus!
