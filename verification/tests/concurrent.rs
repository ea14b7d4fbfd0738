use std::sync::Mutex;

use order_book::{OrderBook, OrderSide, Price};

#[test]
fn test_concurrent_access() {
    let book = Mutex::new(OrderBook::new());
    let book_ref = &book;

    // Several worker threads add orders concurrently, serialized by the lock.
    crossbeam::thread::scope(|s| {
        for i in 0..10u64 {
            s.spawn(move |_| {
                let mut b = book_ref.lock().unwrap();
                b.add_order(
                    OrderSide::Bid,
                    Price::new(100_000_000 + i * 1_000_000),
                    10_000_000,
                    i,
                );
                b.add_order(
                    OrderSide::Ask,
                    Price::new(101_000_000 + i * 1_000_000),
                    15_000_000,
                    i + 100,
                );
            });
        }
    })
    .unwrap();

    let b = book.lock().unwrap();
    assert_eq!(b.get_total_orders(), 20);
    assert_eq!(b.get_total_price_levels(), (10, 10));
}

// Scenario: each worker places one order on a fresh book; afterwards the
// count matches and the uncrossed book passes the consistency check.
#[test]
fn concurrent_adds_stay_consistent() {
    let book = Mutex::new(OrderBook::new());
    let book_ref = &book;

    crossbeam::thread::scope(|s| {
        for i in 0..8u64 {
            s.spawn(move |_| {
                let mut b = book_ref.lock().unwrap();
                if i % 2 == 0 {
                    b.add_order(OrderSide::Bid, Price::new(90_000_000 + i * 1_000_000), 1_000_000, i);
                } else {
                    b.add_order(OrderSide::Ask, Price::new(110_000_000 + i * 1_000_000), 1_000_000, i);
                }
            });
        }
    })
    .unwrap();

    let b = book.lock().unwrap();
    assert_eq!(b.get_total_orders(), 8);
    assert!(b.validate_consistency());
}
