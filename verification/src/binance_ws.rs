//! The message shapes of the Binance market-data stream.
//!
//! These carry prices and quantities as decimal strings, exactly as the
//! wire does; the connection handling and JSON coding live outside this
//! library, which only consumes the plain values.

use vstd::prelude::*;

verus! {

/// A full depth snapshot: price/quantity string pairs per side.
#[allow(non_snake_case)]
#[derive(Clone, Debug)]
pub struct DepthSnapshot {
    pub lastUpdateId: u64,
    pub bids: Vec<[String; 2]>,
    pub asks: Vec<[String; 2]>,
}

/// One incremental depth update.
#[derive(Clone, Debug)]
pub struct DepthUpdateEvent {
    pub event_type: String,
    pub event_time: u64,
    pub symbol: String,
    pub first_update_id: u64,
    pub final_update_id: u64,
    pub bids: Vec<[String; 2]>,
    pub asks: Vec<[String; 2]>,
}

/// One trade print from the stream.
#[derive(Clone, Debug)]
pub struct TradeEvent {
    pub event_type: String,
    pub event_time: u64,
    pub symbol: String,
    pub trade_id: u64,
    pub price: String,
    pub quantity: String,
    pub trade_time: u64,
    pub is_buyer_maker: bool,
}

/// The best bid and ask, streamed on every change.
#[derive(Clone, Debug)]
pub struct BookTickerEvent {
    pub update_id: u64,
    pub symbol: String,
    pub best_bid_price: String,
    pub best_bid_qty: String,
    pub best_ask_price: String,
    pub best_ask_qty: String,
}

/// A stream subscription request.
#[derive(Clone, Debug)]
pub struct BinanceSubscribeRequest {
    pub method: String,
    pub params: Vec<String>,
    pub id: u64,
}

/// The venue's answer to a subscription request.
#[derive(Clone, Debug)]
pub struct BinanceSubscribeResponse {
    pub result: Option<Vec<String>>,
    pub id: u64,
}

/// An error frame from the stream.
#[derive(Clone, Debug)]
pub struct BinanceErrorResponse {
    pub code: i32,
    pub msg: String,
    pub id: Option<u64>,
}

} // verus!
