//! An in-memory limit order book and matching engine.
//!
//! The book keeps resting orders on two sides (bids and asks), ordered by
//! price and arrival, and matches crossing interest into trades. Prices and
//! quantities are fixed-point integers (micro-units); callers that work in
//! floating point convert at the boundary.

mod clock;
pub mod binance_orders;
pub mod binance_ws;
pub mod laws;
pub mod model;
pub mod order;
pub mod order_book;
pub mod polymarket_orders;
pub mod price;
pub mod stats;
pub mod text;
pub mod trade;
pub mod ui;

pub use binance_orders::{
    BinanceFill, BinanceOrderClient, BinanceOrderResponse, BinanceOrderSide, BinanceOrderStatus,
    BinanceOrderType, BinanceTimeInForce,
};
pub use binance_ws::{
    BinanceErrorResponse, BinanceSubscribeRequest, BinanceSubscribeResponse, BookTickerEvent,
    DepthSnapshot, DepthUpdateEvent, TradeEvent,
};
pub use order::{Order, OrderSide};
pub use order_book::{OrderBook, OrderQueue, PriceLevel};
pub use polymarket_orders::{
    PolymarketApiCredentials, PolymarketClobClient, PolymarketOrder, PolymarketOrderArgs,
    PolymarketOrderRequest, PolymarketOrderResponse, PolymarketOrderSide, PolymarketOrderType,
    PolymarketSignatureType,
};
pub use price::Price;
pub use stats::OrderBookStats;
pub use trade::Trade;
pub use ui::{ChartTimeframe, OrderInput, TerminalChartBackend};
