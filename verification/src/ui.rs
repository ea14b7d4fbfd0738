//! Presentation-side data kept by the terminal front-end: the character
//! chart buffer, chart timeframes, and the order-entry form state. The
//! drawing itself happens outside this library.

use vstd::prelude::*;
use vstd::string::StringExecFns;
use crate::polymarket_orders::{PolymarketOrderSide, PolymarketOrderType};

verus! {

/// A rectangular text buffer that chart rows are drawn into.
pub struct TerminalChartBackend {
    pub width: u32,
    pub height: u32,
    pub buffer: Vec<String>,
}

/// The views of the buffer's lines.
pub open spec fn lines_of(buffer: Seq<String>) -> Seq<Seq<char>> {
    buffer.map_values(|s: String| s@)
}

/// The lines joined with a newline between each pair.
pub open spec fn join_lines(ls: Seq<Seq<char>>) -> Seq<char>
    decreases ls.len(),
{
    if ls.len() == 0 {
        Seq::empty()
    } else if ls.len() == 1 {
        ls[0]
    } else {
        join_lines(ls.drop_last()) + seq!['\n'] + ls.last()
    }
}

impl TerminalChartBackend {
    /// Makes an empty buffer of the given size: one empty line per row.
    pub fn new(width: u32, height: u32) -> (r: TerminalChartBackend)
        ensures
            r.width == width,
            r.height == height,
            r.buffer@.len() == height,
            forall|i: int| 0 <= i < r.buffer@.len() ==> (#[trigger] r.buffer@[i])@.len() == 0,
    {
        let mut buffer: Vec<String> = Vec::new();
        let mut i: u32 = 0;
        while i < height
            invariant
                0 <= i <= height,
                buffer@.len() == i,
                forall|j: int| 0 <= j < buffer@.len() ==> (#[trigger] buffer@[j])@.len() == 0,
            decreases height - i,
        {
            buffer.push(String::new());
            i = i + 1;
        }
        TerminalChartBackend { width, height, buffer }
    }

    /// Clears every row back to an empty line.
    pub fn clear(&mut self)
        ensures
            final(self).width == old(self).width,
            final(self).height == old(self).height,
            final(self).buffer@.len() == old(self).height,
            forall|i: int|
                0 <= i < final(self).buffer@.len() ==> (#[trigger] final(self).buffer@[i])@.len()
                    == 0,
    {
        let mut buffer: Vec<String> = Vec::new();
        let mut i: u32 = 0;
        while i < self.height
            invariant
                0 <= i <= self.height,
                buffer@.len() == i,
                forall|j: int| 0 <= j < buffer@.len() ==> (#[trigger] buffer@[j])@.len() == 0,
            decreases self.height - i,
        {
            buffer.push(String::new());
            i = i + 1;
        }
        self.buffer = buffer;
    }

    /// The whole buffer as one string, rows separated by newlines.
    pub fn render(&self) -> (r: String)
        ensures
            r@ == join_lines(lines_of(self.buffer@)),
    {
        let ghost ls = lines_of(self.buffer@);
        let mut out = String::new();
        let mut i: usize = 0;
        while i < self.buffer.len()
            invariant
                ls == lines_of(self.buffer@),
                ls.len() == self.buffer@.len(),
                0 <= i <= ls.len(),
                out@ == join_lines(ls.take(i as int)),
            decreases ls.len() - i,
        {
            if i > 0 {
                out.append("\n");
            }
            out.append(self.buffer[i].as_str());
            proof {
                reveal_strlit("\n");
                assert(ls.take(i + 1).drop_last() =~= ls.take(i as int));
                assert(ls.take(i + 1).last() == ls[i as int]);
                assert(ls[i as int] == self.buffer@[i as int]@);
                if i == 0 {
                    assert(out@ =~= ls[0]);
                } else {
                    assert("\n"@ =~= seq!['\n']);
                    assert(out@ =~= join_lines(ls.take(i as int)) + seq!['\n'] + ls[i as int]);
                }
            }
            i = i + 1;
        }
        proof {
            assert(ls.take(ls.len() as int) =~= ls);
        }
        out
    }
}

/// The timeframe a chart aggregates over.
#[derive(Clone, Copy, Debug, PartialEq, Eq, Structural)]
pub enum ChartTimeframe {
    OneMinute,
    FiveMinutes,
    FifteenMinutes,
    OneHour,
    FourHours,
    OneDay,
}

/// The short label of a timeframe.
pub open spec fn timeframe_label(t: ChartTimeframe) -> Seq<char> {
    match t {
        ChartTimeframe::OneMinute => "1m"@,
        ChartTimeframe::FiveMinutes => "5m"@,
        ChartTimeframe::FifteenMinutes => "15m"@,
        ChartTimeframe::OneHour => "1h"@,
        ChartTimeframe::FourHours => "4h"@,
        ChartTimeframe::OneDay => "1d"@,
    }
}

impl ChartTimeframe {
    /// The short label shown beside the chart.
    pub fn as_str(&self) -> (r: &'static str)
        ensures
            r@ == timeframe_label(*self),
    {
        match self {
            ChartTimeframe::OneMinute => "1m",
            ChartTimeframe::FiveMinutes => "5m",
            ChartTimeframe::FifteenMinutes => "15m",
            ChartTimeframe::OneHour => "1h",
            ChartTimeframe::FourHours => "4h",
            ChartTimeframe::OneDay => "1d",
        }
    }
}

/// The state of the order-entry form.
pub struct OrderInput {
    pub side: PolymarketOrderSide,
    pub price: String,
    pub quantity: String,
    pub order_type: PolymarketOrderType,
    pub token_id: String,
    pub active: bool,
    pub current_field: usize,
}

} // verus!
