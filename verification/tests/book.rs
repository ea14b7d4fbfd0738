use order_book::{OrderBook, OrderSide, Price};

#[test]
fn test_order_book_creation() {
    let order_book = OrderBook::new();
    assert_eq!(order_book.get_total_orders(), 0);
    assert_eq!(order_book.get_total_price_levels(), (0, 0));
}

#[test]
fn test_add_orders() {
    let mut order_book = OrderBook::new();

    let bid_id = order_book.add_order(OrderSide::Bid, Price::new(100_000_000), 10_000_000, 1);
    let ask_id = order_book.add_order(OrderSide::Ask, Price::new(101_000_000), 15_000_000, 2);

    assert_eq!(bid_id, 1);
    assert_eq!(ask_id, 2);
    assert_eq!(order_book.get_total_orders(), 2);
    assert_eq!(order_book.get_total_price_levels(), (1, 1));
}

#[test]
fn test_order_matching() {
    let mut order_book = OrderBook::new();

    // Add crossing orders
    order_book.add_order(OrderSide::Bid, Price::new(100_000_000), 10_000_000, 1);
    order_book.add_order(OrderSide::Ask, Price::new(99_000_000), 15_000_000, 2);

    let trades = order_book.match_orders();
    assert_eq!(trades.len(), 1);

    let trade = &trades[0];
    assert_eq!(trade.price, Price::new(100_000_000)); // Price-time priority: bid came first
    assert_eq!(trade.quantity, 10_000_000);
}

#[test]
fn test_market_depth() {
    let mut order_book = OrderBook::new();

    order_book.add_order(OrderSide::Bid, Price::new(100_000_000), 10_000_000, 1);
    order_book.add_order(OrderSide::Bid, Price::new(99_000_000), 15_000_000, 2);
    order_book.add_order(OrderSide::Ask, Price::new(101_000_000), 20_000_000, 3);

    let (bids, asks) = order_book.get_market_depth(2);

    assert_eq!(bids.len(), 2);
    assert_eq!(asks.len(), 1);
    assert_eq!(bids[0].0, Price::new(100_000_000)); // Highest bid first
    assert_eq!(bids[1].0, Price::new(99_000_000));
    assert_eq!(asks[0].0, Price::new(101_000_000));
}

#[test]
fn test_order_removal() {
    let mut order_book = OrderBook::new();

    let order_id = order_book.add_order(OrderSide::Bid, Price::new(100_000_000), 10_000_000, 1);
    assert_eq!(order_book.get_total_orders(), 1);

    let removed = order_book.remove_order(order_id);
    assert!(removed.is_some());
    assert_eq!(order_book.get_total_orders(), 0);
}

#[test]
fn test_order_update() {
    let mut order_book = OrderBook::new();

    let order_id = order_book.add_order(OrderSide::Bid, Price::new(100_000_000), 10_000_000, 1);
    assert_eq!(order_book.get_total_orders(), 1);

    let updated = order_book.update_order(order_id, 15_000_000);
    assert!(updated);

    // Verify the update by checking market depth
    let (bids, _) = order_book.get_market_depth(1);
    assert_eq!(bids[0].1, 15_000_000);
}

#[test]
fn test_statistics() {
    let mut order_book = OrderBook::new();

    order_book.add_order(OrderSide::Bid, Price::new(100_000_000), 10_000_000, 1);
    order_book.add_order(OrderSide::Ask, Price::new(101_000_000), 15_000_000, 2);

    let stats = order_book.get_stats();
    assert_eq!(stats.total_orders_created, 2);
    assert_eq!(stats.best_bid, Some(Price::new(100_000_000)));
    assert_eq!(stats.best_ask, Some(Price::new(101_000_000)));
    assert_eq!(stats.spread, Some(1_000_000));
    assert_eq!(stats.mid_price, Some(Price::new(100_500_000)));
}

// Scenario: one resting bid and a lower ask cross; the sweep prints one
// trade at the bid's price (it arrived first), consumes the bid level, and
// leaves the ask's remainder resting.
#[test]
fn full_sweep_scenario() {
    let mut book = OrderBook::new();
    book.add_order(OrderSide::Bid, Price::new(100_000_000), 10_000_000, 1);
    book.add_order(OrderSide::Ask, Price::new(99_000_000), 15_000_000, 2);

    let trades = book.match_orders();
    assert_eq!(trades.len(), 1);
    assert_eq!(trades[0].price, Price::new(100_000_000));
    assert_eq!(trades[0].quantity, 10_000_000);
    assert_eq!(trades[0].bid_order_id, 1);
    assert_eq!(trades[0].ask_order_id, 2);
    assert_eq!(trades[0].timestamp, 1);

    assert_eq!(book.get_total_price_levels(), (0, 1));
    let (bids, asks) = book.get_market_depth(5);
    assert!(bids.is_empty());
    assert_eq!(asks[0], (Price::new(99_000_000), 5_000_000));
    assert!(book.validate_consistency());
}

// A sweep that needs several trades works through the bid level in
// arrival order, each trade at the earlier arrival's price, and leaves
// the ask's remainder resting.
#[test]
fn multi_trade_sweep() {
    let mut book = OrderBook::new();
    let first = book.add_order(OrderSide::Bid, Price::new(100_000_000), 5_000_000, 1);
    let second = book.add_order(OrderSide::Bid, Price::new(100_000_000), 5_000_000, 2);
    let ask = book.add_order(OrderSide::Ask, Price::new(99_000_000), 12_000_000, 3);

    let trades = book.match_orders();
    assert_eq!(trades.len(), 2);
    assert_eq!(trades[0].bid_order_id, first);
    assert_eq!(trades[0].price, Price::new(100_000_000));
    assert_eq!(trades[0].quantity, 5_000_000);
    assert_eq!(trades[1].bid_order_id, second);
    assert_eq!(trades[1].price, Price::new(100_000_000));
    assert_eq!(trades[1].quantity, 5_000_000);

    assert_eq!(book.get_total_price_levels(), (0, 1));
    let (_, asks) = book.get_market_depth(1);
    assert_eq!(asks[0], (Price::new(99_000_000), 2_000_000));
    assert!(book.get_order(ask).is_some());
}

// When the ask arrived first, the sweep prints at the ask's price instead.
#[test]
fn sweep_prices_at_earlier_arrival() {
    let mut book = OrderBook::new();
    book.add_order(OrderSide::Ask, Price::new(99_000_000), 15_000_000, 1);
    book.add_order(OrderSide::Bid, Price::new(100_000_000), 10_000_000, 2);

    let trades = book.match_orders();
    assert_eq!(trades.len(), 1);
    assert_eq!(trades[0].price, Price::new(99_000_000));
}

// Price priority: of two resting bids at different prices, the higher one
// is matched first.
#[test]
fn higher_bid_matches_first() {
    let mut book = OrderBook::new();
    let low = book.add_order(OrderSide::Bid, Price::new(99_000_000), 5_000_000, 1);
    let high = book.add_order(OrderSide::Bid, Price::new(100_000_000), 5_000_000, 2);
    book.add_order(OrderSide::Ask, Price::new(98_000_000), 5_000_000, 3);

    let trades = book.match_orders();
    assert_eq!(trades.len(), 1);
    assert_eq!(trades[0].bid_order_id, high);
    assert!(book.get_order(low).is_some());
}

// Time priority: of two resting bids at the same price, the earlier one
// is matched first.
#[test]
fn earlier_bid_matches_first_at_same_price() {
    let mut book = OrderBook::new();
    let first = book.add_order(OrderSide::Bid, Price::new(100_000_000), 5_000_000, 1);
    let second = book.add_order(OrderSide::Bid, Price::new(100_000_000), 5_000_000, 2);
    book.add_order(OrderSide::Ask, Price::new(100_000_000), 5_000_000, 3);

    let trades = book.match_orders();
    assert_eq!(trades.len(), 1);
    assert_eq!(trades[0].bid_order_id, first);
    assert!(book.get_order(second).is_some());
    assert!(book.get_order(first).is_none());
}

// Scenario: a marketable sell against a single resting bid trades at the
// resting price for the requested size and leaves the rest of the bid.
#[test]
fn market_order_partial_fill() {
    let mut book = OrderBook::new();
    book.add_order(OrderSide::Bid, Price::new(100_000_000), 10_000_000, 1);

    let trades = book.add_market_order(OrderSide::Ask, 5_000_000, 7);
    assert_eq!(trades.len(), 1);
    assert_eq!(trades[0].price, Price::new(100_000_000));
    assert_eq!(trades[0].quantity, 5_000_000);

    let (bids, _) = book.get_market_depth(1);
    assert_eq!(bids[0], (Price::new(100_000_000), 5_000_000));
}

// Quantity conservation: a marketable request larger than the opposite
// side's liquidity fills for exactly that liquidity and leaves no
// remainder resting anywhere.
#[test]
fn market_order_exhausts_liquidity() {
    let mut book = OrderBook::new();
    book.add_order(OrderSide::Bid, Price::new(100_000_000), 4_000_000, 1);
    book.add_order(OrderSide::Bid, Price::new(99_000_000), 3_000_000, 2);

    let trades = book.add_market_order(OrderSide::Ask, 20_000_000, 9);
    let filled: u64 = trades.iter().map(|t| t.quantity).sum();
    assert_eq!(filled, 7_000_000);
    assert_eq!(book.get_total_orders(), 0);
    assert_eq!(book.get_total_price_levels(), (0, 0));
    // the marketable order walked outward from the best price
    assert_eq!(trades[0].price, Price::new(100_000_000));
    assert_eq!(trades[1].price, Price::new(99_000_000));
}

// Scenario: removing an unknown id from an empty book is a no-op and
// moves no statistic.
#[test]
fn remove_missing_order() {
    let mut book = OrderBook::new();
    assert!(book.remove_order(9999).is_none());
    assert_eq!(book.get_stats().total_orders_cancelled, 0);
}

// Cancellation idempotence: the first removal returns the order, the
// second returns nothing and moves no statistic.
#[test]
fn remove_is_idempotent() {
    let mut book = OrderBook::new();
    let id = book.add_order(OrderSide::Bid, Price::new(100_000_000), 10_000_000, 1);

    let removed = book.remove_order(id);
    assert!(removed.is_some());
    assert_eq!(removed.unwrap().quantity, 10_000_000);
    let cancelled = book.get_stats().total_orders_cancelled;
    assert_eq!(cancelled, 1);

    assert!(book.remove_order(id).is_none());
    assert_eq!(book.get_stats().total_orders_cancelled, cancelled);
}

// Removing the last order of a level removes the level itself.
#[test]
fn emptied_level_is_pruned() {
    let mut book = OrderBook::new();
    let a = book.add_order(OrderSide::Ask, Price::new(101_000_000), 1_000_000, 1);
    book.add_order(OrderSide::Ask, Price::new(102_000_000), 1_000_000, 2);
    assert_eq!(book.get_total_price_levels(), (0, 2));

    book.remove_order(a);
    assert_eq!(book.get_total_price_levels(), (0, 1));
    let (_, asks) = book.get_market_depth(5);
    assert_eq!(asks[0].0, Price::new(102_000_000));
}

#[test]
fn clear_resets_book_but_not_ids() {
    let mut book = OrderBook::new();
    book.add_order(OrderSide::Bid, Price::new(100_000_000), 10_000_000, 1);
    book.clear();
    assert_eq!(book.get_total_orders(), 0);
    assert_eq!(book.get_stats().total_orders_created, 0);
    // ids are never reused across a clear
    let id = book.add_order(OrderSide::Bid, Price::new(100_000_000), 10_000_000, 2);
    assert_eq!(id, 2);
}

#[test]
fn crossed_book_fails_consistency_until_matched() {
    let mut book = OrderBook::new();
    book.add_order(OrderSide::Bid, Price::new(100_000_000), 10_000_000, 1);
    book.add_order(OrderSide::Ask, Price::new(99_000_000), 10_000_000, 2);
    assert!(!book.validate_consistency());
    book.match_orders();
    assert!(book.validate_consistency());
}

#[test]
fn sweep_updates_statistics() {
    let mut book = OrderBook::new();
    book.add_order(OrderSide::Bid, Price::new(2_000_000), 3_000_000, 1);
    book.add_order(OrderSide::Ask, Price::new(2_000_000), 3_000_000, 2);
    let trades = book.match_orders();
    assert_eq!(trades.len(), 1);
    let stats = book.get_stats();
    assert_eq!(stats.total_orders_matched, 1);
    // notional: price in ticks times quantity in micro-units
    assert_eq!(stats.total_volume_traded, 2_000_000u128 * 3_000_000u128);
    assert!(stats.last_match_time.is_some());
}

#[test]
fn get_order_finds_resting_orders() {
    let mut book = OrderBook::new();
    let b = book.add_order(OrderSide::Bid, Price::new(100_000_000), 10_000_000, 5);
    let a = book.add_order(OrderSide::Ask, Price::new(101_000_000), 15_000_000, 6);

    let bo = book.get_order(b).unwrap();
    assert_eq!(bo.side, OrderSide::Bid);
    assert_eq!(bo.price, Price::new(100_000_000));
    assert_eq!(bo.quantity, 10_000_000);
    assert_eq!(bo.timestamp, 5);
    assert!(book.get_order(a).is_some());
    assert!(book.get_order(999).is_none());
}

#[test]
fn best_prices_spread_and_mid() {
    let mut book = OrderBook::new();
    assert!(book.get_best_bid().is_none());
    assert!(book.get_best_ask().is_none());
    assert!(book.get_spread().is_none());
    assert!(book.get_mid_price().is_none());

    book.add_order(OrderSide::Bid, Price::new(99_000_000), 1_000_000, 1);
    book.add_order(OrderSide::Ask, Price::new(101_000_000), 1_000_000, 2);
    assert_eq!(book.get_best_bid(), Some(Price::new(99_000_000)));
    assert_eq!(book.get_best_ask(), Some(Price::new(101_000_000)));
    assert_eq!(book.get_spread(), Some(2_000_000));
    assert_eq!(book.get_mid_price(), Some(Price::new(100_000_000)));
}
