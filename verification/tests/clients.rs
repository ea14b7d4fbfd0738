use order_book::text::{parse_u64_dec, str_eq, u64_to_dec};
use order_book::{
    BinanceOrderClient, BinanceOrderType, BinanceTimeInForce, ChartTimeframe, Order, OrderQueue,
    OrderSide, PolymarketClobClient, PolymarketOrderSide, PolymarketSignatureType, Price,
    TerminalChartBackend,
};

#[test]
fn test_order_type_conversion() {
    let (order_type, time_in_force) = BinanceOrderClient::convert_polymarket_order_type("GTC");
    assert_eq!(order_type, BinanceOrderType::LIMIT);
    assert_eq!(time_in_force, Some(BinanceTimeInForce::GTC));

    let (order_type, time_in_force) = BinanceOrderClient::convert_polymarket_order_type("FOK");
    assert_eq!(order_type, BinanceOrderType::MARKET);
    assert_eq!(time_in_force, None);
}

#[test]
fn test_error_descriptions() {
    assert_eq!(
        PolymarketClobClient::get_error_description("INVALID_ORDER_MIN_TICK_SIZE"),
        "Order price breaks minimum tick size rules"
    );

    assert_eq!(
        PolymarketClobClient::get_order_status_description("matched"),
        "Order placed and matched with existing resting order"
    );
}

#[test]
fn test_order_creation() {
    let client = PolymarketClobClient::new(
        "https://test.polymarket.com".to_string(),
        "test_key".to_string(),
        137,
        PolymarketSignatureType::EMAIL_MAGIC,
        Some("0xTestAddress".to_string()),
    );

    let order_args = client.create_order_args(
        500_000,
        10_000_000,
        PolymarketOrderSide::BUY,
        "test_token".to_string(),
    );

    assert_eq!(order_args.price, 500_000);
    assert_eq!(order_args.size, 10_000_000);
    assert_eq!(order_args.side, PolymarketOrderSide::BUY);
    assert_eq!(order_args.token_id, "test_token");
}

#[test]
fn test_order_validation() {
    let client = PolymarketClobClient::new(
        "https://test.polymarket.com".to_string(),
        "test_key".to_string(),
        137,
        PolymarketSignatureType::EMAIL_MAGIC,
        Some("0xTestAddress".to_string()),
    );

    let mut order = client.create_order(client.create_order_args(
        500_000,
        10_000_000,
        PolymarketOrderSide::BUY,
        "test_token".to_string(),
    ));

    // Valid order should pass
    assert!(client.validate_order(&order).is_ok());

    // Invalid expiration should fail
    order.expiration = "0".to_string();
    assert!(client.validate_order(&order).is_err());
}

// A known HMAC-SHA-256 answer: signing must not hand the query text back
// unchanged, and must match the published test vector for key "key".
#[test]
fn signature_known_answer() {
    let client = BinanceOrderClient::new(String::new(), "key".to_string(), true);
    let signature =
        client.generate_signature("The quick brown fox jumps over the lazy dog");
    assert_eq!(
        signature,
        "f7bc83f430538424b13298e6aa6fb143ef4d59a14946175997479dbc2d1a3cd8"
    );
}

#[test]
fn derived_credentials_use_key_prefix() {
    let client = PolymarketClobClient::new(
        "https://clob.polymarket.com".to_string(),
        "SECRET-REDACTED".to_string(),
        137,
        PolymarketSignatureType::BROWSER_WALLET,
        None,
    );
    let creds = client.create_or_derive_api_credentials();
    assert_eq!(creds.api_key, "derived_key_SECRET-R");
    assert_eq!(creds.api_secret, "derived_secret_SECRET-R");
}

#[test]
fn built_order_carries_amounts_and_codes() {
    let client = PolymarketClobClient::new(
        "https://clob.polymarket.com".to_string(),
        "test_key".to_string(),
        137,
        PolymarketSignatureType::EMAIL_MAGIC,
        Some("0xMaker".to_string()),
    );
    let order = client.create_order(client.create_order_args(
        500_000,
        10_000_000,
        PolymarketOrderSide::BUY,
        "tok".to_string(),
    ));
    // a buyer gives price times size scaled back to micro-units
    assert_eq!(order.maker_amount, "5000000");
    assert_eq!(order.taker_amount, "10000000");
    assert_eq!(order.side, 0);
    assert_eq!(order.signature_type, 1);
    assert_eq!(order.maker, "0xMaker");
    assert_eq!(order.nonce, "0");

    let sell = client.create_order(client.create_order_args(
        500_000,
        10_000_000,
        PolymarketOrderSide::SELL,
        "tok".to_string(),
    ));
    assert_eq!(sell.maker_amount, "10000000");
    assert_eq!(sell.taker_amount, "5000000");
    assert_eq!(sell.side, 1);
}

#[test]
fn validation_error_variants() {
    let client = PolymarketClobClient::new(
        "h".to_string(),
        "test_key".to_string(),
        1,
        PolymarketSignatureType::EOA_DIRECT,
        None,
    );
    let base = client.create_order(client.create_order_args(
        500_000,
        10_000_000,
        PolymarketOrderSide::BUY,
        "tok".to_string(),
    ));

    let mut order = base.clone();
    order.expiration = "not-a-number".to_string();
    assert_eq!(
        PolymarketClobClient::validate_order_at(&order, 0).unwrap_err(),
        "Invalid expiration format"
    );

    let mut order = base.clone();
    order.expiration = "99999999999999999999".to_string();
    assert_eq!(
        PolymarketClobClient::validate_order_at(&order, 0).unwrap_err(),
        "Invalid expiration format"
    );

    let mut order = base.clone();
    order.expiration = "5".to_string();
    assert_eq!(
        PolymarketClobClient::validate_order_at(&order, 10).unwrap_err(),
        "Order expiration must be in the future"
    );

    let mut order = base.clone();
    order.maker_amount = "1.5".to_string();
    assert_eq!(
        PolymarketClobClient::validate_order_at(&order, 0).unwrap_err(),
        "Invalid maker amount"
    );

    let mut order = base.clone();
    order.taker_amount = String::new();
    assert_eq!(
        PolymarketClobClient::validate_order_at(&order, 0).unwrap_err(),
        "Invalid taker amount"
    );

    let mut order = base.clone();
    order.maker_amount = "0".to_string();
    assert_eq!(
        PolymarketClobClient::validate_order_at(&order, 0).unwrap_err(),
        "Order amounts must meet minimum tick size requirements"
    );

    assert!(PolymarketClobClient::validate_order_at(&base, 0).is_ok());
}

#[test]
fn queue_cross_matching_reports_trades() {
    let mut bids = OrderQueue::new();
    bids.add_order(Order::new(1, OrderSide::Bid, Price::new(100_000_000), 10_000_000, 1));
    let mut asks = OrderQueue::new();
    asks.add_order(Order::new(2, OrderSide::Ask, Price::new(99_000_000), 15_000_000, 2));

    let trades = bids.match_orders_with(&asks, OrderSide::Bid);
    assert_eq!(trades.len(), 1);
    assert_eq!(trades[0].bid_order_id, 1);
    assert_eq!(trades[0].ask_order_id, 2);
    assert_eq!(trades[0].price, Price::new(100_000_000));
    assert_eq!(trades[0].quantity, 10_000_000);

    let empty = OrderQueue::new();
    assert!(bids.match_orders_with(&empty, OrderSide::Bid).is_empty());
}

#[test]
fn decimal_text_round_trips() {
    assert_eq!(u64_to_dec(0), "0");
    assert_eq!(u64_to_dec(1_234_567_890), "1234567890");
    assert_eq!(u64_to_dec(u64::MAX), "18446744073709551615");

    assert_eq!(parse_u64_dec("0"), Some(0));
    assert_eq!(parse_u64_dec("1234567890"), Some(1_234_567_890));
    assert_eq!(parse_u64_dec("18446744073709551615"), Some(u64::MAX));
    assert_eq!(parse_u64_dec("18446744073709551616"), None);
    assert_eq!(parse_u64_dec(""), None);
    assert_eq!(parse_u64_dec("12a"), None);

    assert!(str_eq("abc", "abc"));
    assert!(!str_eq("abc", "abd"));
    assert!(!str_eq("abc", "ab"));
}

#[test]
fn chart_backend_renders_rows() {
    let mut chart = TerminalChartBackend::new(10, 3);
    assert_eq!(chart.render(), "\n\n");
    chart.buffer[0].push_str("top");
    chart.buffer[2].push_str("bottom");
    assert_eq!(chart.render(), "top\n\nbottom");
    chart.clear();
    assert_eq!(chart.render(), "\n\n");
}

#[test]
fn timeframe_labels() {
    assert_eq!(ChartTimeframe::OneMinute.as_str(), "1m");
    assert_eq!(ChartTimeframe::FiveMinutes.as_str(), "5m");
    assert_eq!(ChartTimeframe::FifteenMinutes.as_str(), "15m");
    assert_eq!(ChartTimeframe::OneHour.as_str(), "1h");
    assert_eq!(ChartTimeframe::FourHours.as_str(), "4h");
    assert_eq!(ChartTimeframe::OneDay.as_str(), "1d");
}
