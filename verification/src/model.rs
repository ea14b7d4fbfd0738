//! The mathematical model of the book.
//!
//! Contracts in this crate speak about sequences of orders and levels; this
//! module defines those spec functions and proves the facts about them that
//! the executable code relies on: how quantity sums move under push, remove
//! and update, and how unique bounded ids bound the number of live orders.

use vstd::prelude::*;
use crate::order::{Order, OrderSide};
use crate::price::Price;
use crate::stats::{sat_add_u64, with_market, OrderBookStats};
use crate::trade::Trade;

verus! {

/// The model of one price level: its price in ticks and its live orders in
/// arrival (FIFO) order.
#[verifier::ext_equal]
pub struct LevelModel {
    pub price: u64,
    pub orders: Seq<Order>,
}

/// The sum of the remaining quantities of a sequence of orders.
pub open spec fn sum_qty(s: Seq<Order>) -> int
    decreases s.len(),
{
    if s.len() == 0 {
        0
    } else {
        s.first().quantity + sum_qty(s.drop_first())
    }
}

/// The ids of a sequence of orders, in the same arrangement.
pub open spec fn ids_of(s: Seq<Order>) -> Seq<u64> {
    s.map_values(|o: Order| o.id)
}

/// Whether some order in `s` has id `id`.
pub open spec fn contains_id(s: Seq<Order>, id: u64) -> bool {
    exists|i: int| 0 <= i < s.len() && s[i].id == id
}

/// The index of the first order in `s` with id `id`, or -1 if there is none.
pub open spec fn find_order_idx(s: Seq<Order>, id: u64) -> int
    decreases s.len(),
{
    if s.len() == 0 {
        -1
    } else if s.first().id == id {
        0
    } else {
        let r = find_order_idx(s.drop_first(), id);
        if r < 0 {
            -1
        } else {
            r + 1
        }
    }
}

/// A queue of orders is well formed when ids are distinct and every
/// remaining quantity is strictly positive.
pub open spec fn queue_wf(s: Seq<Order>) -> bool {
    &&& ids_of(s).no_duplicates()
    &&& forall|i: int| 0 <= i < s.len() ==> (#[trigger] s[i]).quantity > 0
}

/// `find_order_idx` finds the index of `id` exactly when some order has it.
pub proof fn lemma_find_order_idx(s: Seq<Order>, id: u64)
    ensures
        find_order_idx(s, id) < s.len(),
        contains_id(s, id) <==> 0 <= find_order_idx(s, id) < s.len(),
        0 <= find_order_idx(s, id) ==> s[find_order_idx(s, id)].id == id,
        forall|j: int| 0 <= j < find_order_idx(s, id) ==> s[j].id != id,
        find_order_idx(s, id) < 0 ==> forall|j: int|
            0 <= j < s.len() ==> s[j].id != id,
    decreases s.len(),
{
    if s.len() != 0 && s.first().id != id {
        let t = s.drop_first();
        lemma_find_order_idx(t, id);
        let r = find_order_idx(t, id);
        assert(forall|i: int| 0 <= i < t.len() ==> t[i] == s[i + 1]);
        if r >= 0 {
            assert(t[r] == s[r + 1]);
            assert(s[r + 1].id == id);
            assert(forall|j: int| 1 <= j < r + 1 ==> s[j] == t[j - 1]);
            assert(forall|j: int| 0 <= j < r + 1 ==> s[j].id != id);
        } else {
            assert(forall|j: int| 1 <= j < s.len() ==> s[j] == t[j - 1]);
            assert(forall|j: int| 0 <= j < s.len() ==> s[j].id != id);
        }
        if contains_id(s, id) {
            let i = choose|i: int| 0 <= i < s.len() && s[i].id == id;
            if i > 0 {
                assert(t[i - 1] == s[i]);
                assert(contains_id(t, id));
            }
        }
        if contains_id(t, id) {
            let i = choose|i: int| 0 <= i < t.len() && t[i].id == id;
            assert(s[i + 1] == t[i]);
            assert(contains_id(s, id));
        }
    }
}

/// When ids are distinct, the order found by id is the only one with it.
pub proof fn lemma_find_order_idx_unique(s: Seq<Order>, id: u64, i: int)
    requires
        ids_of(s).no_duplicates(),
        0 <= i < s.len(),
        s[i].id == id,
    ensures
        find_order_idx(s, id) == i,
{
    lemma_find_order_idx(s, id);
    let r = find_order_idx(s, id);
    assert(ids_of(s)[i] == id);
    assert(ids_of(s)[r] == id);
    if r != i {
        assert(false);
    }
}

/// Pushing an order adds its quantity to the sum.
pub proof fn lemma_sum_qty_push(s: Seq<Order>, o: Order)
    ensures
        sum_qty(s.push(o)) == sum_qty(s) + o.quantity,
    decreases s.len(),
{
    let p = s.push(o);
    assert(p.len() == s.len() + 1);
    if s.len() == 0 {
        assert(p.drop_first() =~= Seq::<Order>::empty());
        assert(p.first() == o);
        assert(sum_qty(p) == o.quantity + sum_qty(Seq::<Order>::empty()));
    } else {
        assert(p.drop_first() =~= s.drop_first().push(o));
        assert(p.first() == s.first());
        lemma_sum_qty_push(s.drop_first(), o);
        assert(sum_qty(p) == p.first().quantity + sum_qty(p.drop_first()));
        assert(sum_qty(s) == s.first().quantity + sum_qty(s.drop_first()));
    }
}

/// Removing an order subtracts its quantity from the sum.
pub proof fn lemma_sum_qty_remove(s: Seq<Order>, i: int)
    requires
        0 <= i < s.len(),
    ensures
        sum_qty(s.remove(i)) == sum_qty(s) - s[i].quantity,
    decreases s.len(),
{
    if i == 0 {
        assert(s.remove(0) =~= s.drop_first());
    } else {
        assert(s.remove(i).drop_first() =~= s.drop_first().remove(i - 1));
        assert(s.remove(i).first() == s.first());
        lemma_sum_qty_remove(s.drop_first(), i - 1);
    }
}

/// Replacing an order adjusts the sum by the difference in quantity.
pub proof fn lemma_sum_qty_update(s: Seq<Order>, i: int, o: Order)
    requires
        0 <= i < s.len(),
    ensures
        sum_qty(s.update(i, o)) == sum_qty(s) - s[i].quantity + o.quantity,
    decreases s.len(),
{
    if i == 0 {
        assert(s.update(0, o).drop_first() =~= s.drop_first());
    } else {
        assert(s.update(i, o).drop_first() =~= s.drop_first().update(i - 1, o));
        assert(s.update(i, o).first() == s.first());
        lemma_sum_qty_update(s.drop_first(), i - 1, o);
    }
}

/// Every order's quantity is at most the sum of the whole queue.
pub proof fn lemma_sum_qty_ge_element(s: Seq<Order>, i: int)
    requires
        0 <= i < s.len(),
    ensures
        s[i].quantity <= sum_qty(s),
        sum_qty(s) >= 0,
    decreases s.len(),
{
    lemma_sum_qty_nonneg(s);
    if i == 0 {
        lemma_sum_qty_nonneg(s.drop_first());
    } else {
        lemma_sum_qty_ge_element(s.drop_first(), i - 1);
        assert(s.drop_first()[i - 1] == s[i]);
    }
}

/// The sum of a queue of orders is never negative.
pub proof fn lemma_sum_qty_nonneg(s: Seq<Order>)
    ensures
        sum_qty(s) >= 0,
    decreases s.len(),
{
    if s.len() != 0 {
        lemma_sum_qty_nonneg(s.drop_first());
    }
}

/// The sum of a queue is bounded by its length times the largest quantity.
pub proof fn lemma_sum_qty_le_len(s: Seq<Order>)
    ensures
        sum_qty(s) <= s.len() * (u64::MAX as int),
    decreases s.len(),
{
    if s.len() == 0 {
    } else {
        lemma_sum_qty_le_len(s.drop_first());
        assert(s.len() * (u64::MAX as int)
            == (s.drop_first().len() * (u64::MAX as int)) + u64::MAX) by (nonlinear_arith)
            requires s.len() == s.drop_first().len() + 1;
    }
}

/// The same order with its remaining quantity replaced.
pub open spec fn updated_order(o: Order, new_quantity: u64) -> Order {
    Order { quantity: new_quantity, ..o }
}

/// Removing an entry from a duplicate-free sequence keeps it duplicate-free.
pub proof fn lemma_no_dup_remove(t: Seq<u64>, i: int)
    requires
        t.no_duplicates(),
        0 <= i < t.len(),
    ensures
        t.remove(i).no_duplicates(),
{
    let r = t.remove(i);
    assert forall|a: int, b: int| 0 <= a < b < r.len() implies r[a] != r[b] by {
        let a2: int = if a < i { a } else { a + 1 };
        let b2: int = if b < i { b } else { b + 1 };
        assert(r[a] == t[a2]);
        assert(r[b] == t[b2]);
    }
}

/// A level is well formed when it is non-empty, its queue is well formed,
/// and every order in it carries the level's price.
pub open spec fn level_wf(l: LevelModel) -> bool {
    &&& l.orders.len() > 0
    &&& queue_wf(l.orders)
    &&& forall|i: int|
        0 <= i < l.orders.len() ==> (#[trigger] l.orders[i]).price.ticks == l.price
}

/// The total resting quantity of a side: the sum of its levels' sums.
pub open spec fn side_qty(ls: Seq<LevelModel>) -> int
    decreases ls.len(),
{
    if ls.len() == 0 {
        0
    } else {
        sum_qty(ls.first().orders) + side_qty(ls.drop_first())
    }
}

/// The number of live orders on a side.
pub open spec fn side_count(ls: Seq<LevelModel>) -> int
    decreases ls.len(),
{
    if ls.len() == 0 {
        0
    } else {
        ls.first().orders.len() + side_count(ls.drop_first())
    }
}

/// Level prices strictly decrease along the sequence (bid side order).
pub open spec fn sorted_desc(ls: Seq<LevelModel>) -> bool {
    forall|i: int, j: int| 0 <= i < j < ls.len() ==> ls[i].price > ls[j].price
}

/// Level prices strictly increase along the sequence (ask side order).
pub open spec fn sorted_asc(ls: Seq<LevelModel>) -> bool {
    forall|i: int, j: int| 0 <= i < j < ls.len() ==> ls[i].price < ls[j].price
}

/// Every order on the side has the given side tag.
pub open spec fn side_is(ls: Seq<LevelModel>, side: OrderSide) -> bool {
    forall|k: int, j: int|
        0 <= k < ls.len() && 0 <= j < ls[k].orders.len() ==> (#[trigger] ls[k].orders[j]).side
            == side
}

/// The model of the whole book: bid levels best (highest) first, ask
/// levels best (lowest) first, the id allocator, and the statistics.
#[verifier::ext_equal]
pub struct BookModel {
    pub bids: Seq<LevelModel>,
    pub asks: Seq<LevelModel>,
    pub next_order_id: u64,
    pub stats: OrderBookStats,
}

/// No two resting orders on this side share an id.
pub open spec fn ids_distinct(ls: Seq<LevelModel>) -> bool {
    forall|k1: int, j1: int, k2: int, j2: int|
        0 <= k1 < ls.len() && 0 <= j1 < ls[k1].orders.len() && 0 <= k2 < ls.len() && 0 <= j2
            < ls[k2].orders.len() && (k1 != k2 || j1 != j2) ==> (#[trigger] ls[k1].orders[j1].id)
            != (#[trigger] ls[k2].orders[j2].id)
}

/// No order on the first side shares an id with one on the second.
pub open spec fn sides_disjoint(a: Seq<LevelModel>, b: Seq<LevelModel>) -> bool {
    forall|k1: int, j1: int, k2: int, j2: int|
        0 <= k1 < a.len() && 0 <= j1 < a[k1].orders.len() && 0 <= k2 < b.len() && 0 <= j2
            < b[k2].orders.len() ==> (#[trigger] a[k1].orders[j1].id)
            != (#[trigger] b[k2].orders[j2].id)
}

/// Every resting order's id on this side is below the allocator's next id.
pub open spec fn ids_bounded(ls: Seq<LevelModel>, bound: int) -> bool {
    forall|k: int, j: int|
        0 <= k < ls.len() && 0 <= j < ls[k].orders.len() ==> (#[trigger] ls[k].orders[j].id)
            < bound
}

/// The best (highest) bid price, if any bid rests.
pub open spec fn best_bid_ticks(b: BookModel) -> Option<u64> {
    if b.bids.len() > 0 {
        Some(b.bids[0].price)
    } else {
        None
    }
}

/// The best (lowest) ask price, if any ask rests.
pub open spec fn best_ask_ticks(b: BookModel) -> Option<u64> {
    if b.asks.len() > 0 {
        Some(b.asks[0].price)
    } else {
        None
    }
}

/// Whether a match is possible: both sides non-empty and best bid at or
/// above best ask.
pub open spec fn crossed(b: BookModel) -> bool {
    b.bids.len() > 0 && b.asks.len() > 0 && b.bids[0].price >= b.asks[0].price
}

/// The market-data fields of the statistics agree with the book.
pub open spec fn stats_coherent(b: BookModel) -> bool {
    b.stats == with_market(b.stats, best_bid_ticks(b), best_ask_ticks(b))
}

/// The book's invariant: sides sorted strictly in their iteration
/// direction, every level well formed (hence non-empty), orders tagged
/// with the side they rest on, ids distinct and below the allocator, and
/// statistics coherent with the book.
pub open spec fn book_wf(b: BookModel) -> bool {
    &&& book_core_wf(b)
    &&& stats_coherent(b)
}

/// The book's structural invariant alone, leaving the statistics' market
/// data possibly stale: this is what holds between the steps of a
/// matching sweep, before the statistics are recomputed.
pub open spec fn book_core_wf(b: BookModel) -> bool {
    &&& side_wf(b.bids, OrderSide::Bid, true, b.next_order_id as int)
    &&& side_wf(b.asks, OrderSide::Ask, false, b.next_order_id as int)
    &&& sides_disjoint(b.bids, b.asks)
    &&& b.next_order_id >= 1
}

/// The smaller of two quantities.
pub open spec fn min_u64(a: u64, b: u64) -> u64 {
    if a <= b {
        a
    } else {
        b
    }
}

/// The total executed quantity of a list of trades.
pub open spec fn trades_qty(ts: Seq<Trade>) -> int
    decreases ts.len(),
{
    if ts.len() == 0 {
        0
    } else {
        ts.first().quantity + trades_qty(ts.drop_first())
    }
}

/// The total notional (price in ticks times quantity) of a list of trades.
pub open spec fn trades_notional(ts: Seq<Trade>) -> int
    decreases ts.len(),
{
    if ts.len() == 0 {
        0
    } else {
        ts.first().price.ticks * ts.first().quantity + trades_notional(ts.drop_first())
    }
}

/// Appending a trade adds its quantity and notional to the totals.
pub proof fn lemma_trades_push(ts: Seq<Trade>, t: Trade)
    ensures
        trades_qty(ts.push(t)) == trades_qty(ts) + t.quantity,
        trades_notional(ts.push(t)) == trades_notional(ts) + t.price.ticks * t.quantity,
    decreases ts.len(),
{
    let p = ts.push(t);
    assert(p.len() == ts.len() + 1);
    if ts.len() == 0 {
        assert(p.drop_first() =~= Seq::<Trade>::empty());
        assert(p.first() == t);
        assert(trades_qty(p) == t.quantity + trades_qty(Seq::<Trade>::empty()));
        assert(trades_notional(p) == t.price.ticks * t.quantity + trades_notional(
            Seq::<Trade>::empty(),
        ));
    } else {
        assert(p.drop_first() =~= ts.drop_first().push(t));
        assert(p.first() == ts.first());
        lemma_trades_push(ts.drop_first(), t);
        assert(trades_qty(p) == p.first().quantity + trades_qty(p.drop_first()));
        assert(trades_qty(ts) == ts.first().quantity + trades_qty(ts.drop_first()));
        assert(trades_notional(p) == p.first().price.ticks * p.first().quantity
            + trades_notional(p.drop_first()));
        assert(trades_notional(ts) == ts.first().price.ticks * ts.first().quantity
            + trades_notional(ts.drop_first()));
    }
}

/// Trade totals are never negative.
pub proof fn lemma_trades_nonneg(ts: Seq<Trade>)
    ensures
        trades_qty(ts) >= 0,
        trades_notional(ts) >= 0,
    decreases ts.len(),
{
    if ts.len() != 0 {
        assert(ts.first().price.ticks * ts.first().quantity >= 0) by (nonlinear_arith);
        lemma_trades_nonneg(ts.drop_first());
    }
}

/// A side after its head order is fully consumed: the order leaves its
/// level, and the level leaves the side if that was its last order.
pub open spec fn pop_head(ls: Seq<LevelModel>) -> Seq<LevelModel> {
    if ls[0].orders.len() == 1 {
        ls.drop_first()
    } else {
        ls.update(0, LevelModel { price: ls[0].price, orders: ls[0].orders.drop_first() })
    }
}

/// A side after its head order is partially filled: its remaining
/// quantity is decremented in place.
pub open spec fn shrink_head(ls: Seq<LevelModel>, new_quantity: u64) -> Seq<LevelModel> {
    ls.update(
        0,
        LevelModel {
            price: ls[0].price,
            orders: ls[0].orders.update(0, updated_order(ls[0].orders[0], new_quantity)),
        },
    )
}

/// The synthetic order a marketable request is attributed to: it carries
/// the allocated id and the request's size and timestamp, with a sentinel
/// price of zero ticks, and never rests on the book.
pub open spec fn taker_of(id: u64, side: OrderSide, quantity: u64, timestamp: u64) -> Order {
    Order { id, side, price: Price { ticks: 0 }, quantity, timestamp }
}

/// The complete effect of a marketable (taker) order walking one side of
/// resting orders best level first: every trade prints at the resting
/// order's then price for the smaller of the two remaining sizes, a fully
/// consumed resting order leaves its level, a partial fill decrements it
/// in place, an emptied level leaves the side, and the walk stops when
/// the request is filled or the side is exhausted. Returns the trades and
/// the side afterwards. (The guards on an empty or zero-quantity head
/// order keep the function total; a well-formed side never hits them.)
pub open spec fn spec_consume(
    ls: Seq<LevelModel>,
    taker: Order,
    resting_side: OrderSide,
    remaining: u64,
) -> (Seq<Trade>, Seq<LevelModel>)
    decreases remaining,
{
    if ls.len() == 0 || remaining == 0 || ls[0].orders.len() == 0 || ls[0].orders[0].quantity
        == 0 {
        (Seq::empty(), ls)
    } else {
        let resting = ls[0].orders[0];
        let tq = min_u64(remaining, resting.quantity);
        let t = Trade {
            bid_order_id: if resting_side == OrderSide::Ask {
                taker.id
            } else {
                resting.id
            },
            ask_order_id: if resting_side == OrderSide::Ask {
                resting.id
            } else {
                taker.id
            },
            price: Price { ticks: ls[0].price },
            quantity: tq,
            timestamp: min_u64(taker.timestamp, resting.timestamp),
        };
        let ls2 = if resting.quantity <= tq {
            pop_head(ls)
        } else {
            shrink_head(ls, (resting.quantity - tq) as u64)
        };
        let rec = spec_consume(ls2, taker, resting_side, (remaining - tq) as u64);
        (seq![t] + rec.0, rec.1)
    }
}

/// The complete effect of the continuous matching sweep, with `fuel`
/// iterations left of its cap: while a cross exists, the two head orders
/// of the best levels trade the smaller of their remaining quantities at
/// the price of whichever side arrived earlier; fully consumed orders
/// leave their levels, partial fills decrement in place, emptied levels
/// leave their sides. Returns the trades and both sides afterwards.
pub open spec fn spec_sweep(
    bids: Seq<LevelModel>,
    asks: Seq<LevelModel>,
    fuel: int,
) -> (Seq<Trade>, Seq<LevelModel>, Seq<LevelModel>)
    decreases fuel,
{
    if fuel <= 0 || bids.len() == 0 || asks.len() == 0 || bids[0].price < asks[0].price
        || bids[0].orders.len() == 0 || asks[0].orders.len() == 0 {
        (Seq::empty(), bids, asks)
    } else {
        let bo = bids[0].orders[0];
        let ao = asks[0].orders[0];
        let tq = min_u64(bo.quantity, ao.quantity);
        let t = Trade {
            bid_order_id: bo.id,
            ask_order_id: ao.id,
            price: Price {
                ticks: if bo.timestamp <= ao.timestamp {
                    bids[0].price
                } else {
                    asks[0].price
                },
            },
            quantity: tq,
            timestamp: min_u64(bo.timestamp, ao.timestamp),
        };
        let bids2 = if bo.quantity <= ao.quantity {
            pop_head(bids)
        } else {
            shrink_head(bids, (bo.quantity - tq) as u64)
        };
        let asks2 = if ao.quantity <= bo.quantity {
            pop_head(asks)
        } else {
            shrink_head(asks, (ao.quantity - tq) as u64)
        };
        let rec = spec_sweep(bids2, asks2, fuel - 1);
        (seq![t] + rec.0, rec.1, rec.2)
    }
}

/// Consuming a side never puts a new id on it: every order resting
/// afterwards rested before. In particular a marketable order, whose id
/// is fresh, never rests.
pub proof fn lemma_consume_no_new_ids(
    ls: Seq<LevelModel>,
    taker: Order,
    resting_side: OrderSide,
    remaining: u64,
)
    ensures
        forall|id: u64|
            #[trigger] side_contains_id(spec_consume(ls, taker, resting_side, remaining).1, id)
                ==> side_contains_id(ls, id),
    decreases remaining,
{
    if !(ls.len() == 0 || remaining == 0 || ls[0].orders.len() == 0 || ls[0].orders[0].quantity
        == 0) {
        let resting = ls[0].orders[0];
        let tq = min_u64(remaining, resting.quantity);
        let ls2 = if resting.quantity <= tq {
            pop_head(ls)
        } else {
            shrink_head(ls, (resting.quantity - tq) as u64)
        };
        lemma_consume_no_new_ids(ls2, taker, resting_side, (remaining - tq) as u64);
        assert(spec_consume(ls, taker, resting_side, remaining).1 == spec_consume(
            ls2,
            taker,
            resting_side,
            (remaining - tq) as u64,
        ).1);
        assert forall|id: u64| #[trigger] side_contains_id(ls2, id) implies side_contains_id(
            ls,
            id,
        ) by {
            let k = choose|k: int| 0 <= k < ls2.len() && contains_id(ls2[k].orders, id);
            let j = choose|j: int| 0 <= j < ls2[k].orders.len() && ls2[k].orders[j].id == id;
            if resting.quantity <= tq {
                if ls[0].orders.len() == 1 {
                    assert(ls2[k] == ls[k + 1]);
                    assert(contains_id(ls[k + 1].orders, id));
                } else {
                    if k == 0 {
                        assert(ls2[0].orders[j] == ls[0].orders[j + 1]);
                        assert(contains_id(ls[0].orders, id));
                    } else {
                        assert(ls2[k] == ls[k]);
                        assert(contains_id(ls[k].orders, id));
                    }
                }
            } else {
                if k == 0 {
                    if j == 0 {
                        assert(ls[0].orders[0].id == id);
                    } else {
                        assert(ls2[0].orders[j] == ls[0].orders[j]);
                    }
                    assert(contains_id(ls[0].orders, id));
                } else {
                    assert(ls2[k] == ls[k]);
                    assert(contains_id(ls[k].orders, id));
                }
            }
        }
    }
}

/// The first trade a matching sweep prints on a crossed book: between the
/// two head orders of the best levels, for the smaller of their remaining
/// quantities, at the price of whichever side arrived earlier.
pub open spec fn sweep_first_trade(b: BookModel) -> Trade {
    let bo = b.bids[0].orders[0];
    let ao = b.asks[0].orders[0];
    Trade {
        bid_order_id: bo.id,
        ask_order_id: ao.id,
        price: Price {
            ticks: if bo.timestamp <= ao.timestamp {
                b.bids[0].price
            } else {
                b.asks[0].price
            },
        },
        quantity: min_u64(bo.quantity, ao.quantity),
        timestamp: min_u64(bo.timestamp, ao.timestamp),
    }
}

/// The first trade a marketable (taker) order prints against a side of
/// resting orders: against the head order of the best level, at that
/// resting order's price, for the smaller of the two remaining sizes.
pub open spec fn taker_first_trade(
    vs: Seq<LevelModel>,
    taker: Order,
    resting_side: OrderSide,
) -> Trade {
    let resting = vs[0].orders[0];
    Trade {
        bid_order_id: if resting_side == OrderSide::Ask {
            taker.id
        } else {
            resting.id
        },
        ask_order_id: if resting_side == OrderSide::Ask {
            resting.id
        } else {
            taker.id
        },
        price: Price { ticks: vs[0].price },
        quantity: min_u64(taker.quantity, resting.quantity),
        timestamp: min_u64(taker.timestamp, resting.timestamp),
    }
}

/// The first trade a marketable order prints: against the head order of
/// the opposite side's best level, at that resting order's price.
pub open spec fn market_first_trade(
    b: BookModel,
    side: OrderSide,
    taker_id: u64,
    quantity: u64,
    timestamp: u64,
) -> Trade {
    let opp = if side == OrderSide::Bid {
        b.asks
    } else {
        b.bids
    };
    let resting = opp[0].orders[0];
    Trade {
        bid_order_id: if side == OrderSide::Bid {
            taker_id
        } else {
            resting.id
        },
        ask_order_id: if side == OrderSide::Bid {
            resting.id
        } else {
            taker_id
        },
        price: Price { ticks: opp[0].price },
        quantity: min_u64(quantity, resting.quantity),
        timestamp: min_u64(timestamp, resting.timestamp),
    }
}

/// All the per-side structure of one side, in one word: sorted in the
/// side's direction, levels well formed, orders tagged with the side, ids
/// distinct and bounded.
pub open spec fn side_wf(ls: Seq<LevelModel>, side: OrderSide, descending: bool, bound: int) -> bool {
    &&& if descending {
        sorted_desc(ls)
    } else {
        sorted_asc(ls)
    }
    &&& forall|k: int| 0 <= k < ls.len() ==> level_wf(#[trigger] ls[k])
    &&& side_is(ls, side)
    &&& ids_distinct(ls)
    &&& ids_bounded(ls, bound)
}

/// Where a new level at price `ticks` would sit on a side: the number of
/// levels with strictly better price (higher for bids, lower for asks).
pub open spec fn insert_pos(ls: Seq<LevelModel>, ticks: u64, descending: bool) -> int
    decreases ls.len(),
{
    if ls.len() == 0 {
        0
    } else if (descending && ls.first().price > ticks) || (!descending && ls.first().price
        < ticks) {
        1 + insert_pos(ls.drop_first(), ticks, descending)
    } else {
        0
    }
}

/// A side after one order is added: appended to its price's level if that
/// level exists, else a fresh level spliced in at the sorted position.
pub open spec fn add_to_side(ls: Seq<LevelModel>, order: Order, descending: bool) -> Seq<
    LevelModel,
> {
    let p = insert_pos(ls, order.price.ticks, descending);
    if p < ls.len() && ls[p].price == order.price.ticks {
        ls.update(p, LevelModel { price: ls[p].price, orders: ls[p].orders.push(order) })
    } else {
        ls.insert(p, LevelModel { price: order.price.ticks, orders: seq![order] })
    }
}

/// The whole book after `add_order`: the order is placed on its side, the
/// id allocator advances, the created counter steps, and the market data
/// is recomputed.
pub open spec fn spec_add_order(
    b: BookModel,
    side: OrderSide,
    price: u64,
    quantity: u64,
    timestamp: u64,
) -> BookModel {
    let order = Order {
        id: b.next_order_id,
        side,
        price: Price { ticks: price },
        quantity,
        timestamp,
    };
    let bids = if side == OrderSide::Bid {
        add_to_side(b.bids, order, true)
    } else {
        b.bids
    };
    let asks = if side == OrderSide::Ask {
        add_to_side(b.asks, order, false)
    } else {
        b.asks
    };
    let stats1 = OrderBookStats {
        total_orders_created: sat_add_u64(b.stats.total_orders_created, 1),
        ..b.stats
    };
    let b2 = BookModel {
        bids,
        asks,
        next_order_id: (b.next_order_id + 1) as u64,
        stats: stats1,
    };
    BookModel { stats: with_market(stats1, best_bid_ticks(b2), best_ask_ticks(b2)), ..b2 }
}

/// Whether some level on the side holds an order with this id.
pub open spec fn side_contains_id(ls: Seq<LevelModel>, id: u64) -> bool {
    exists|k: int| 0 <= k < ls.len() && contains_id((#[trigger] ls[k]).orders, id)
}

/// Whether an order with this id rests anywhere in the book.
pub open spec fn book_contains_id(b: BookModel, id: u64) -> bool {
    side_contains_id(b.bids, id) || side_contains_id(b.asks, id)
}

/// The index of the first level on the side holding the id, or -1.
pub open spec fn find_level_idx(ls: Seq<LevelModel>, id: u64) -> int
    decreases ls.len(),
{
    if ls.len() == 0 {
        -1
    } else if contains_id(ls.first().orders, id) {
        0
    } else {
        let r = find_level_idx(ls.drop_first(), id);
        if r < 0 {
            -1
        } else {
            r + 1
        }
    }
}

/// The resting order on this side with the given id (meaningful only when
/// the side contains it).
pub open spec fn side_found_order(ls: Seq<LevelModel>, id: u64) -> Order {
    let k = find_level_idx(ls, id);
    ls[k].orders[find_order_idx(ls[k].orders, id)]
}

/// A side after the order with the given id is taken out; its level is
/// pruned if that removal empties it. The side is unchanged when the id is
/// not present.
pub open spec fn remove_from_side(ls: Seq<LevelModel>, id: u64) -> Seq<LevelModel> {
    let k = find_level_idx(ls, id);
    if k < 0 {
        ls
    } else {
        let l = ls[k];
        let rest = l.orders.remove(find_order_idx(l.orders, id));
        if rest.len() == 0 {
            ls.remove(k)
        } else {
            ls.update(k, LevelModel { price: l.price, orders: rest })
        }
    }
}

/// A side after the order with the given id has its quantity replaced.
pub open spec fn update_in_side(ls: Seq<LevelModel>, id: u64, new_quantity: u64) -> Seq<
    LevelModel,
> {
    let k = find_level_idx(ls, id);
    if k < 0 {
        ls
    } else {
        let l = ls[k];
        let i = find_order_idx(l.orders, id);
        ls.update(k, LevelModel { price: l.price, orders: l.orders.update(i, updated_order(l.orders[i], new_quantity)) })
    }
}

/// The resting order with the given id, wherever it sits in the book
/// (meaningful only when the book contains it; under `book_wf` the id is
/// on at most one side).
pub open spec fn book_found_order(b: BookModel, id: u64) -> Order {
    if side_contains_id(b.bids, id) {
        side_found_order(b.bids, id)
    } else {
        side_found_order(b.asks, id)
    }
}

/// The whole book after `remove_order`: the order leaves its side (its
/// level pruned if emptied), the cancelled counter steps, and the market
/// data is recomputed. A miss leaves the book untouched.
pub open spec fn spec_remove_order(b: BookModel, id: u64) -> BookModel {
    if !book_contains_id(b, id) {
        b
    } else {
        let bids = if side_contains_id(b.bids, id) {
            remove_from_side(b.bids, id)
        } else {
            b.bids
        };
        let asks = if side_contains_id(b.bids, id) {
            b.asks
        } else {
            remove_from_side(b.asks, id)
        };
        let stats1 = OrderBookStats {
            total_orders_cancelled: sat_add_u64(b.stats.total_orders_cancelled, 1),
            ..b.stats
        };
        let b2 = BookModel { bids, asks, next_order_id: b.next_order_id, stats: stats1 };
        BookModel { stats: with_market(stats1, best_bid_ticks(b2), best_ask_ticks(b2)), ..b2 }
    }
}

/// The whole book after `update_order`: the order's quantity is replaced
/// in place and the market data recomputed. A miss leaves the book
/// untouched.
pub open spec fn spec_update_order(b: BookModel, id: u64, new_quantity: u64) -> BookModel {
    if !book_contains_id(b, id) {
        b
    } else {
        let bids = if side_contains_id(b.bids, id) {
            update_in_side(b.bids, id, new_quantity)
        } else {
            b.bids
        };
        let asks = if side_contains_id(b.bids, id) {
            b.asks
        } else {
            update_in_side(b.asks, id, new_quantity)
        };
        let b2 = BookModel { bids, asks, next_order_id: b.next_order_id, stats: b.stats };
        BookModel { stats: with_market(b.stats, best_bid_ticks(b2), best_ask_ticks(b2)), ..b2 }
    }
}

/// `find_level_idx` finds a level exactly when the side contains the id.
pub proof fn lemma_find_level_idx(ls: Seq<LevelModel>, id: u64)
    ensures
        find_level_idx(ls, id) < ls.len(),
        side_contains_id(ls, id) <==> 0 <= find_level_idx(ls, id) < ls.len(),
        0 <= find_level_idx(ls, id) ==> contains_id(ls[find_level_idx(ls, id)].orders, id),
        forall|k: int|
            0 <= k < find_level_idx(ls, id) ==> !contains_id(#[trigger] ls[k].orders, id),
        find_level_idx(ls, id) < 0 ==> forall|k: int|
            0 <= k < ls.len() ==> !contains_id(#[trigger] ls[k].orders, id),
    decreases ls.len(),
{
    if ls.len() != 0 && !contains_id(ls.first().orders, id) {
        let t = ls.drop_first();
        lemma_find_level_idx(t, id);
        let r = find_level_idx(t, id);
        assert(forall|k: int| 0 <= k < t.len() ==> t[k] == ls[k + 1]);
        if r >= 0 {
            assert(t[r] == ls[r + 1]);
            assert(forall|k: int| 1 <= k < r + 1 ==> ls[k] == t[k - 1]);
        } else {
            assert(forall|k: int| 1 <= k < ls.len() ==> ls[k] == t[k - 1]);
        }
        if side_contains_id(ls, id) {
            let k = choose|k: int| 0 <= k < ls.len() && contains_id(ls[k].orders, id);
            if k > 0 {
                assert(t[k - 1] == ls[k]);
                assert(side_contains_id(t, id));
            }
        }
        if side_contains_id(t, id) {
            let k = choose|k: int| 0 <= k < t.len() && contains_id(t[k].orders, id);
            assert(ls[k + 1] == t[k]);
            assert(side_contains_id(ls, id));
        }
    }
}

/// Quantity sums after replacing one level.
pub proof fn lemma_side_qty_update(ls: Seq<LevelModel>, k: int, l: LevelModel)
    requires
        0 <= k < ls.len(),
    ensures
        side_qty(ls.update(k, l)) == side_qty(ls) - sum_qty(ls[k].orders) + sum_qty(l.orders),
        side_count(ls.update(k, l)) == side_count(ls) - ls[k].orders.len() + l.orders.len(),
    decreases ls.len(),
{
    if k == 0 {
        assert(ls.update(0, l).drop_first() =~= ls.drop_first());
        assert(ls.update(0, l).first() == l);
    } else {
        assert(ls.update(k, l).drop_first() =~= ls.drop_first().update(k - 1, l));
        assert(ls.update(k, l).first() == ls.first());
        lemma_side_qty_update(ls.drop_first(), k - 1, l);
    }
}

/// Quantity sums after removing one level.
pub proof fn lemma_side_qty_remove(ls: Seq<LevelModel>, k: int)
    requires
        0 <= k < ls.len(),
    ensures
        side_qty(ls.remove(k)) == side_qty(ls) - sum_qty(ls[k].orders),
        side_count(ls.remove(k)) == side_count(ls) - ls[k].orders.len(),
    decreases ls.len(),
{
    if k == 0 {
        assert(ls.remove(0) =~= ls.drop_first());
    } else {
        assert(ls.remove(k).drop_first() =~= ls.drop_first().remove(k - 1));
        assert(ls.remove(k).first() == ls.first());
        lemma_side_qty_remove(ls.drop_first(), k - 1);
    }
}

/// Quantity sums after splicing in one level.
pub proof fn lemma_side_qty_insert(ls: Seq<LevelModel>, k: int, l: LevelModel)
    requires
        0 <= k <= ls.len(),
    ensures
        side_qty(ls.insert(k, l)) == side_qty(ls) + sum_qty(l.orders),
        side_count(ls.insert(k, l)) == side_count(ls) + l.orders.len(),
    decreases ls.len(),
{
    if k == 0 {
        assert(ls.insert(0, l).drop_first() =~= ls);
        assert(ls.insert(0, l).first() == l);
    } else {
        assert(ls.insert(k, l).drop_first() =~= ls.drop_first().insert(k - 1, l));
        assert(ls.insert(k, l).first() == ls.first());
        lemma_side_qty_insert(ls.drop_first(), k - 1, l);
    }
}

/// A side's quantity and order count are never negative.
pub proof fn lemma_side_nonneg(ls: Seq<LevelModel>)
    ensures
        side_qty(ls) >= 0,
        side_count(ls) >= 0,
    decreases ls.len(),
{
    if ls.len() != 0 {
        lemma_sum_qty_nonneg(ls.first().orders);
        lemma_side_nonneg(ls.drop_first());
    }
}

/// `insert_pos` is a valid index bound, everything before it has strictly
/// better price, and the level at it (if any) does not.
pub proof fn lemma_insert_pos_props(ls: Seq<LevelModel>, ticks: u64, descending: bool)
    ensures
        0 <= insert_pos(ls, ticks, descending) <= ls.len(),
        forall|j: int|
            0 <= j < insert_pos(ls, ticks, descending) ==> (if descending {
                (#[trigger] ls[j].price) > ticks
            } else {
                ls[j].price < ticks
            }),
        insert_pos(ls, ticks, descending) < ls.len() ==> !(if descending {
            ls[insert_pos(ls, ticks, descending)].price > ticks
        } else {
            ls[insert_pos(ls, ticks, descending)].price < ticks
        }),
    decreases ls.len(),
{
    if ls.len() != 0 {
        let t = ls.drop_first();
        lemma_insert_pos_props(t, ticks, descending);
        assert(forall|k: int| 0 <= k < t.len() ==> t[k] == ls[k + 1]);
        let p = insert_pos(ls, ticks, descending);
        if p > 0 {
            assert forall|j: int| 0 <= j < p implies (if descending {
                (#[trigger] ls[j].price) > ticks
            } else {
                ls[j].price < ticks
            }) by {
                if j > 0 {
                    assert(ls[j] == t[j - 1]);
                }
            }
        }
    }
}

/// Adding one order to a side keeps the side well formed (with the bound
/// advanced past the fresh id), keeps it disjoint from the other side,
/// grows its quantity and count by the order's, and leaves it non-empty.
pub proof fn lemma_add_to_side_preserves(
    ls: Seq<LevelModel>,
    other: Seq<LevelModel>,
    order: Order,
    descending: bool,
    bound: int,
)
    requires
        side_wf(ls, order.side, descending, bound),
        sides_disjoint(ls, other),
        ids_bounded(other, bound),
        order.id == bound,
        order.quantity > 0,
    ensures
        side_wf(add_to_side(ls, order, descending), order.side, descending, bound + 1),
        sides_disjoint(add_to_side(ls, order, descending), other),
        side_qty(add_to_side(ls, order, descending)) == side_qty(ls) + order.quantity,
        side_count(add_to_side(ls, order, descending)) == side_count(ls) + 1,
        add_to_side(ls, order, descending).len() >= 1,
{
    let t = order.price.ticks;
    let p = insert_pos(ls, t, descending);
    lemma_insert_pos_props(ls, t, descending);
    let ls2 = add_to_side(ls, order, descending);
    if p < ls.len() && ls[p].price == t {
        let l2 = LevelModel { price: ls[p].price, orders: ls[p].orders.push(order) };
        lemma_side_qty_update(ls, p, l2);
        lemma_sum_qty_push(ls[p].orders, order);
        assert(ls2 == ls.update(p, l2));
        assert(forall|k: int| 0 <= k < ls2.len() && k != p ==> ls2[k] == ls[k]);
        assert(forall|j: int| 0 <= j < ls[p].orders.len() ==> l2.orders[j] == ls[p].orders[j]);
        assert(l2.orders[ls[p].orders.len() as int] == order);
        assert(level_wf(l2)) by {
            assert(ids_of(l2.orders) =~= ids_of(ls[p].orders).push(order.id));
            assert(forall|j: int|
                0 <= j < ls[p].orders.len() ==> (#[trigger] ids_of(l2.orders)[j]) == ids_of(
                    ls[p].orders,
                )[j]);
            assert forall|j1: int, j2: int|
                0 <= j1 < j2 < l2.orders.len() implies ids_of(l2.orders)[j1] != ids_of(
                l2.orders,
            )[j2] by {
                if j2 < ls[p].orders.len() {
                    assert(ids_of(ls[p].orders)[j1] != ids_of(ls[p].orders)[j2]);
                } else {
                    assert(ls[p].orders[j1].id < bound);
                }
            }
        }
        assert(side_is(ls2, order.side));
        assert(ids_distinct(ls2)) by {
            assert forall|k1: int, j1: int, k2: int, j2: int|
                0 <= k1 < ls2.len() && 0 <= j1 < ls2[k1].orders.len() && 0 <= k2 < ls2.len()
                    && 0 <= j2 < ls2[k2].orders.len() && (k1 != k2 || j1 != j2) implies (
            #[trigger] ls2[k1].orders[j1].id) != (#[trigger] ls2[k2].orders[j2].id) by {
                let o1_new = k1 == p && j1 == ls[p].orders.len();
                let o2_new = k2 == p && j2 == ls[p].orders.len();
                if o1_new && !o2_new {
                    assert(ls2[k2].orders[j2] == ls[k2].orders[j2]);
                } else if !o1_new && o2_new {
                    assert(ls2[k1].orders[j1] == ls[k1].orders[j1]);
                } else if !o1_new && !o2_new {
                    assert(ls2[k1].orders[j1] == ls[k1].orders[j1]);
                    assert(ls2[k2].orders[j2] == ls[k2].orders[j2]);
                }
            }
        }
        assert(sides_disjoint(ls2, other)) by {
            assert forall|k1: int, j1: int, k2: int, j2: int|
                0 <= k1 < ls2.len() && 0 <= j1 < ls2[k1].orders.len() && 0 <= k2 < other.len()
                    && 0 <= j2 < other[k2].orders.len() implies (
            #[trigger] ls2[k1].orders[j1].id) != (#[trigger] other[k2].orders[j2].id) by {
                if !(k1 == p && j1 == ls[p].orders.len()) {
                    assert(ls2[k1].orders[j1] == ls[k1].orders[j1]);
                }
            }
        }
    } else {
        let l2 = LevelModel { price: t, orders: seq![order] };
        lemma_side_qty_insert(ls, p, l2);
        assert(sum_qty(l2.orders) == order.quantity) by {
            assert(l2.orders.len() == 1);
            assert(l2.orders.first() == order);
            assert(l2.orders.drop_first() =~= Seq::<Order>::empty());
            assert(sum_qty(Seq::<Order>::empty()) == 0);
        }
        assert(ls2 == ls.insert(p, l2));
        assert(forall|k: int| 0 <= k < p ==> ls2[k] == ls[k]);
        assert(forall|k: int| p < k < ls2.len() ==> ls2[k] == ls[k - 1]);
        assert(ls2[p] == l2);
        assert(level_wf(l2)) by {
            assert(ids_of(l2.orders).len() == 1);
        }
        if descending {
            assert forall|i: int, j: int| 0 <= i < j < ls2.len() implies ls2[i].price
                > ls2[j].price by {
                if i != p && j != p {
                    assert(ls2[i] == if i < p {
                        ls[i]
                    } else {
                        ls[i - 1]
                    });
                }
            }
        } else {
            assert forall|i: int, j: int| 0 <= i < j < ls2.len() implies ls2[i].price
                < ls2[j].price by {
                if i != p && j != p {
                    assert(ls2[i] == if i < p {
                        ls[i]
                    } else {
                        ls[i - 1]
                    });
                }
            }
        }
        assert(ids_distinct(ls2)) by {
            assert forall|k1: int, j1: int, k2: int, j2: int|
                0 <= k1 < ls2.len() && 0 <= j1 < ls2[k1].orders.len() && 0 <= k2 < ls2.len()
                    && 0 <= j2 < ls2[k2].orders.len() && (k1 != k2 || j1 != j2) implies (
            #[trigger] ls2[k1].orders[j1].id) != (#[trigger] ls2[k2].orders[j2].id) by {
                if k1 != p {
                    assert(ls2[k1] == if k1 < p {
                        ls[k1]
                    } else {
                        ls[k1 - 1]
                    });
                }
                if k2 != p {
                    assert(ls2[k2] == if k2 < p {
                        ls[k2]
                    } else {
                        ls[k2 - 1]
                    });
                }
            }
        }
        assert(sides_disjoint(ls2, other)) by {
            assert forall|k1: int, j1: int, k2: int, j2: int|
                0 <= k1 < ls2.len() && 0 <= j1 < ls2[k1].orders.len() && 0 <= k2 < other.len()
                    && 0 <= j2 < other[k2].orders.len() implies (
            #[trigger] ls2[k1].orders[j1].id) != (#[trigger] other[k2].orders[j2].id) by {
                if k1 != p {
                    assert(ls2[k1] == if k1 < p {
                        ls[k1]
                    } else {
                        ls[k1 - 1]
                    });
                }
            }
        }
    }
}

/// Taking one order out of a side (pruning its level if emptied) keeps the
/// side well formed and disjoint from the other side, shrinks its quantity
/// and count by the removed order, and removes exactly that id.
#[verifier::rlimit(100)]
#[verifier::spinoff_prover]
pub proof fn lemma_remove_from_side_preserves(
    ls: Seq<LevelModel>,
    other: Seq<LevelModel>,
    id: u64,
    side: OrderSide,
    descending: bool,
    bound: int,
)
    requires
        side_wf(ls, side, descending, bound),
        sides_disjoint(ls, other),
    ensures
        side_wf(remove_from_side(ls, id), side, descending, bound),
        sides_disjoint(remove_from_side(ls, id), other),
        !side_contains_id(remove_from_side(ls, id), id),
        !side_contains_id(ls, id) ==> remove_from_side(ls, id) == ls,
        side_contains_id(ls, id) ==> {
            &&& side_found_order(ls, id).id == id
            &&& side_found_order(ls, id).side == side
            &&& side_found_order(ls, id).quantity > 0
            &&& side_qty(remove_from_side(ls, id)) == side_qty(ls) - side_found_order(
                ls,
                id,
            ).quantity
            &&& side_count(remove_from_side(ls, id)) == side_count(ls) - 1
        },
        forall|id2: u64|
            id2 != id ==> (#[trigger] side_contains_id(remove_from_side(ls, id), id2))
                == side_contains_id(ls, id2),
{
    lemma_find_level_idx(ls, id);
    let k = find_level_idx(ls, id);
    let ls2 = remove_from_side(ls, id);
    if k < 0 {
        assert(!side_contains_id(ls, id));
        assert(ls2 == ls);
    } else {
        assert(side_contains_id(ls, id));
        assert(level_wf(ls[k]));
        let l = ls[k];
        lemma_find_order_idx(l.orders, id);
        let i = find_order_idx(l.orders, id);
        let o = l.orders[i];
        assert(o == side_found_order(ls, id));
        assert(o.side == side);
        let rest = l.orders.remove(i);
        lemma_sum_qty_remove(l.orders, i);
        assert(ids_of(rest) =~= ids_of(l.orders).remove(i));
        lemma_no_dup_remove(ids_of(l.orders), i);
        assert(forall|j: int| 0 <= j < i ==> rest[j] == l.orders[j]);
        assert(forall|j: int| i <= j < rest.len() ==> rest[j] == l.orders[j + 1]);
        // no other position anywhere on the side carries this id
        assert forall|k2: int, j2: int|
            0 <= k2 < ls.len() && 0 <= j2 < ls[k2].orders.len() && (k2 != k || j2 != i) implies (
        #[trigger] ls[k2].orders[j2].id) != id by {
            assert(ls[k].orders[i].id == id);
        }
        if rest.len() == 0 {
            assert(ls2 == ls.remove(k));
            lemma_side_qty_remove(ls, k);
            assert(forall|k2: int| 0 <= k2 < k ==> ls2[k2] == ls[k2]);
            assert(forall|k2: int| k <= k2 < ls2.len() ==> ls2[k2] == ls[k2 + 1]);
            assert(l.orders.len() == 1);
            assert forall|id2: u64|
                id2 != id implies (#[trigger] side_contains_id(ls2, id2)) == side_contains_id(
                ls,
                id2,
            ) by {
                if side_contains_id(ls2, id2) {
                    let k2 = choose|k2: int|
                        0 <= k2 < ls2.len() && contains_id(ls2[k2].orders, id2);
                    if k2 < k {
                        assert(contains_id(ls[k2].orders, id2));
                    } else {
                        assert(contains_id(ls[k2 + 1].orders, id2));
                    }
                    assert(side_contains_id(ls, id2));
                }
                if side_contains_id(ls, id2) {
                    let k2 = choose|k2: int|
                        0 <= k2 < ls.len() && contains_id(ls[k2].orders, id2);
                    let j2 = choose|j2: int|
                        0 <= j2 < ls[k2].orders.len() && ls[k2].orders[j2].id == id2;
                    assert(k2 != k) by {
                        if k2 == k {
                            assert(j2 == i);
                        }
                    }
                    if k2 < k {
                        assert(contains_id(ls2[k2].orders, id2));
                    } else {
                        assert(ls2[k2 - 1] == ls[k2]);
                        assert(contains_id(ls2[k2 - 1].orders, id2));
                    }
                    assert(side_contains_id(ls2, id2));
                }
            }
        } else {
            let l2 = LevelModel { price: l.price, orders: rest };
            assert(ls2 == ls.update(k, l2));
            lemma_side_qty_update(ls, k, l2);
            assert(forall|k2: int| 0 <= k2 < ls2.len() && k2 != k ==> ls2[k2] == ls[k2]);
            assert(level_wf(l2)) by {
                assert forall|j: int|
                    0 <= j < rest.len() implies (#[trigger] rest[j]).quantity > 0 && rest[
                    j].price.ticks == l2.price by {
                    if j < i {
                        assert(rest[j] == l.orders[j]);
                    } else {
                        assert(rest[j] == l.orders[j + 1]);
                    }
                }
            }
            assert forall|id2: u64|
                id2 != id implies (#[trigger] side_contains_id(ls2, id2)) == side_contains_id(
                ls,
                id2,
            ) by {
                if side_contains_id(ls2, id2) {
                    let k2 = choose|k2: int|
                        0 <= k2 < ls2.len() && contains_id(ls2[k2].orders, id2);
                    if k2 != k {
                        assert(contains_id(ls[k2].orders, id2));
                    } else {
                        let j2 = choose|j2: int|
                            0 <= j2 < rest.len() && rest[j2].id == id2;
                        if j2 < i {
                            assert(l.orders[j2].id == id2);
                        } else {
                            assert(l.orders[j2 + 1].id == id2);
                        }
                        assert(contains_id(ls[k].orders, id2));
                    }
                    assert(side_contains_id(ls, id2));
                }
                if side_contains_id(ls, id2) {
                    let k2 = choose|k2: int|
                        0 <= k2 < ls.len() && contains_id(ls[k2].orders, id2);
                    let j2 = choose|j2: int|
                        0 <= j2 < ls[k2].orders.len() && ls[k2].orders[j2].id == id2;
                    if k2 != k {
                        assert(contains_id(ls2[k2].orders, id2));
                    } else {
                        assert(j2 != i);
                        if j2 < i {
                            assert(rest[j2].id == id2);
                        } else {
                            assert(rest[j2 - 1] == l.orders[j2]);
                            assert(rest[j2 - 1].id == id2);
                        }
                        assert(contains_id(ls2[k].orders, id2));
                    }
                    assert(side_contains_id(ls2, id2));
                }
            }
            assert forall|k1: int, j1: int, k2: int, j2: int|
                0 <= k1 < ls2.len() && 0 <= j1 < ls2[k1].orders.len() && 0 <= k2 < ls2.len()
                    && 0 <= j2 < ls2[k2].orders.len() && (k1 != k2 || j1 != j2) implies (
            #[trigger] ls2[k1].orders[j1].id) != (#[trigger] ls2[k2].orders[j2].id) by {
                let jj1: int = if k1 == k && j1 >= i {
                    j1 + 1
                } else {
                    j1
                };
                let jj2: int = if k2 == k && j2 >= i {
                    j2 + 1
                } else {
                    j2
                };
                assert(ls2[k1].orders[j1] == ls[k1].orders[jj1]);
                assert(ls2[k2].orders[j2] == ls[k2].orders[jj2]);
            }
            assert forall|k1: int, j1: int, k2: int, j2: int|
                0 <= k1 < ls2.len() && 0 <= j1 < ls2[k1].orders.len() && 0 <= k2 < other.len()
                    && 0 <= j2 < other[k2].orders.len() implies (
            #[trigger] ls2[k1].orders[j1].id) != (#[trigger] other[k2].orders[j2].id) by {
                let jj1: int = if k1 == k && j1 >= i {
                    j1 + 1
                } else {
                    j1
                };
                assert(ls2[k1].orders[j1] == ls[k1].orders[jj1]);
            }
            assert forall|k1: int, j1: int|
                0 <= k1 < ls2.len() && 0 <= j1 < ls2[k1].orders.len() implies (
            #[trigger] ls2[k1].orders[j1]).side == side && ls2[k1].orders[j1].id < bound by {
                let jj1: int = if k1 == k && j1 >= i {
                    j1 + 1
                } else {
                    j1
                };
                assert(ls2[k1].orders[j1] == ls[k1].orders[jj1]);
            }
        }
        assert(!side_contains_id(ls2, id)) by {
            if side_contains_id(ls2, id) {
                let k2 = choose|k2: int| 0 <= k2 < ls2.len() && contains_id(ls2[k2].orders, id);
                let j2 = choose|j2: int|
                    0 <= j2 < ls2[k2].orders.len() && ls2[k2].orders[j2].id == id;
                if rest.len() == 0 {
                    if k2 < k {
                        assert(ls[k2].orders[j2].id == id);
                    } else {
                        assert(ls[k2 + 1].orders[j2].id == id);
                    }
                } else {
                    let jj2: int = if k2 == k && j2 >= i {
                        j2 + 1
                    } else {
                        j2
                    };
                    assert(ls[k2].orders[jj2].id == id);
                }
            }
        }
    }
}

/// Replacing one order's quantity on a side keeps the side well formed
/// and disjoint, adjusts its quantity by the difference, and moves no id.
pub proof fn lemma_update_in_side_preserves(
    ls: Seq<LevelModel>,
    other: Seq<LevelModel>,
    id: u64,
    new_quantity: u64,
    side: OrderSide,
    descending: bool,
    bound: int,
)
    requires
        side_wf(ls, side, descending, bound),
        sides_disjoint(ls, other),
        new_quantity > 0,
    ensures
        side_wf(update_in_side(ls, id, new_quantity), side, descending, bound),
        sides_disjoint(update_in_side(ls, id, new_quantity), other),
        !side_contains_id(ls, id) ==> update_in_side(ls, id, new_quantity) == ls,
        side_contains_id(ls, id) ==> {
            &&& side_found_order(ls, id).id == id
            &&& side_qty(update_in_side(ls, id, new_quantity)) == side_qty(ls)
                - side_found_order(ls, id).quantity + new_quantity
            &&& side_count(update_in_side(ls, id, new_quantity)) == side_count(ls)
        },
        forall|id2: u64| (#[trigger] side_contains_id(update_in_side(ls, id, new_quantity), id2))
            == side_contains_id(ls, id2),
{
    lemma_find_level_idx(ls, id);
    let k = find_level_idx(ls, id);
    let ls2 = update_in_side(ls, id, new_quantity);
    if k < 0 {
        assert(ls2 == ls);
    } else {
        assert(side_contains_id(ls, id));
        assert(level_wf(ls[k]));
        let l = ls[k];
        lemma_find_order_idx(l.orders, id);
        let i = find_order_idx(l.orders, id);
        let o = l.orders[i];
        let o2 = updated_order(o, new_quantity);
        let rest = l.orders.update(i, o2);
        let l2 = LevelModel { price: l.price, orders: rest };
        assert(ls2 == ls.update(k, l2));
        lemma_sum_qty_update(l.orders, i, o2);
        lemma_side_qty_update(ls, k, l2);
        assert(forall|k2: int| 0 <= k2 < ls2.len() && k2 != k ==> ls2[k2] == ls[k2]);
        assert(forall|j: int| 0 <= j < rest.len() && j != i ==> rest[j] == l.orders[j]);
        assert(level_wf(l2)) by {
            assert(ids_of(rest) =~= ids_of(l.orders));
        }
        assert forall|id2: u64|
            (#[trigger] side_contains_id(ls2, id2)) == side_contains_id(ls, id2) by {
            if side_contains_id(ls2, id2) {
                let k2 = choose|k2: int| 0 <= k2 < ls2.len() && contains_id(ls2[k2].orders, id2);
                let j2 = choose|j2: int|
                    0 <= j2 < ls2[k2].orders.len() && ls2[k2].orders[j2].id == id2;
                assert(ls[k2].orders[j2].id == id2);
                assert(side_contains_id(ls, id2));
            }
            if side_contains_id(ls, id2) {
                let k2 = choose|k2: int| 0 <= k2 < ls.len() && contains_id(ls[k2].orders, id2);
                let j2 = choose|j2: int|
                    0 <= j2 < ls[k2].orders.len() && ls[k2].orders[j2].id == id2;
                assert(ls2[k2].orders[j2].id == id2);
                assert(side_contains_id(ls2, id2));
            }
        }
        assert forall|k1: int, j1: int, k2: int, j2: int|
            0 <= k1 < ls2.len() && 0 <= j1 < ls2[k1].orders.len() && 0 <= k2 < ls2.len() && 0
                <= j2 < ls2[k2].orders.len() && (k1 != k2 || j1 != j2) implies (
        #[trigger] ls2[k1].orders[j1].id) != (#[trigger] ls2[k2].orders[j2].id) by {
            assert(ls2[k1].orders[j1].id == ls[k1].orders[j1].id);
            assert(ls2[k2].orders[j2].id == ls[k2].orders[j2].id);
        }
        assert forall|k1: int, j1: int, k2: int, j2: int|
            0 <= k1 < ls2.len() && 0 <= j1 < ls2[k1].orders.len() && 0 <= k2 < other.len() && 0
                <= j2 < other[k2].orders.len() implies (#[trigger] ls2[k1].orders[j1].id) != (
        #[trigger] other[k2].orders[j2].id) by {
            assert(ls2[k1].orders[j1].id == ls[k1].orders[j1].id);
        }
        assert forall|k1: int, j1: int|
            0 <= k1 < ls2.len() && 0 <= j1 < ls2[k1].orders.len() implies (
        #[trigger] ls2[k1].orders[j1]).side == side && ls2[k1].orders[j1].id < bound by {
            if !(k1 == k && j1 == i) {
                assert(ls2[k1].orders[j1] == ls[k1].orders[j1]);
            }
        }
    }
}

/// A sequence of u64 values that are distinct and all below `hi` cannot
/// have more than `hi` entries.
pub proof fn lemma_unique_bounded_count(s: Seq<u64>, hi: int)
    requires
        s.no_duplicates(),
        forall|i: int| 0 <= i < s.len() ==> (#[trigger] s[i] as int) < hi,
        hi >= 0,
    ensures
        s.len() <= hi,
{
    let t = s.map_values(|x: u64| x as int);
    assert forall|i: int, j: int| 0 <= i < j < t.len() implies t[i] != t[j] by {
        assert(s[i] != s[j]);
    }
    t.unique_seq_to_set();
    let range = vstd::set_lib::set_int_range(0, hi);
    assert forall|e: int| t.to_set().contains(e) implies range.contains(e) by {
        let i = choose|i: int| 0 <= i < t.len() && t[i] == e;
        assert(s[i] as int == e);
    }
    vstd::set_lib::lemma_int_range(0, hi);
    vstd::set_lib::lemma_len_subset(t.to_set(), range);
}

/// Matching order before `b` in a sweep over one side: better price
/// first (higher when `descending`, lower otherwise), then earlier
/// timestamp at the same price.
pub open spec fn ord_leq(a: Order, b: Order, descending: bool) -> bool {
    if a.price.ticks == b.price.ticks {
        a.timestamp <= b.timestamp
    } else if descending {
        a.price.ticks > b.price.ticks
    } else {
        a.price.ticks < b.price.ticks
    }
}

/// Where `o` lands when inserted stably into `s`: after every element
/// that sorts at or before it.
pub open spec fn ins_pos(s: Seq<Order>, o: Order, descending: bool) -> int
    decreases s.len(),
{
    if s.len() == 0 {
        0
    } else if ord_leq(s.first(), o, descending) {
        1 + ins_pos(s.drop_first(), o, descending)
    } else {
        0
    }
}

/// `s` with `o` inserted stably at its sort position.
pub open spec fn insert_sorted(s: Seq<Order>, o: Order, descending: bool) -> Seq<Order> {
    let p = ins_pos(s, o, descending);
    s.take(p) + seq![o] + s.skip(p)
}

/// Stable insertion sort of a queue by price and time priority.
pub open spec fn sort_orders(s: Seq<Order>, descending: bool) -> Seq<Order>
    decreases s.len(),
{
    if s.len() == 0 {
        Seq::empty()
    } else {
        insert_sorted(sort_orders(s.drop_last(), descending), s.last(), descending)
    }
}

/// `ins_pos` is a valid index bound, everything before it sorts at or
/// before `o`, and the element at it (if any) does not.
pub proof fn lemma_ins_pos_props(s: Seq<Order>, o: Order, descending: bool)
    ensures
        0 <= ins_pos(s, o, descending) <= s.len(),
        forall|j: int| 0 <= j < ins_pos(s, o, descending) ==> ord_leq(#[trigger] s[j], o, descending),
        ins_pos(s, o, descending) < s.len() ==> !ord_leq(s[ins_pos(s, o, descending)], o, descending),
    decreases s.len(),
{
    if s.len() != 0 {
        let t = s.drop_first();
        lemma_ins_pos_props(t, o, descending);
        assert(forall|k: int| 0 <= k < t.len() ==> t[k] == s[k + 1]);
        let p = ins_pos(s, o, descending);
        if p > 0 {
            assert forall|j: int| 0 <= j < p implies ord_leq(#[trigger] s[j], o, descending) by {
                if j > 0 {
                    assert(s[j] == t[j - 1]);
                }
            }
        }
    }
}

/// The trades produced by crossing two sorted queues from positions `i`
/// and `j` on: while the prices cross, the pair trades the smaller of the
/// two remaining quantities at the price of the earlier arrival, and the
/// smaller side's pointer advances.
pub open spec fn cross_trades(
    s: Seq<Order>,
    o: Seq<Order>,
    side: OrderSide,
    i: int,
    j: int,
) -> Seq<Trade>
    decreases s.len() + o.len() - i - j,
    when 0 <= i && 0 <= j && i + j <= s.len() + o.len()
{
    if i >= s.len() || j >= o.len() {
        Seq::empty()
    } else {
        let a = s[i];
        let b = o[j];
        let can = if side == OrderSide::Bid {
            a.price.ticks >= b.price.ticks
        } else {
            a.price.ticks <= b.price.ticks
        };
        if !can {
            Seq::empty()
        } else {
            let t = Trade {
                bid_order_id: if side == OrderSide::Bid {
                    a.id
                } else {
                    b.id
                },
                ask_order_id: if side == OrderSide::Bid {
                    b.id
                } else {
                    a.id
                },
                price: Price {
                    ticks: if a.timestamp <= b.timestamp {
                        a.price.ticks
                    } else {
                        b.price.ticks
                    },
                },
                quantity: min_u64(a.quantity, b.quantity),
                timestamp: min_u64(a.timestamp, b.timestamp),
            };
            if a.quantity <= b.quantity {
                seq![t] + cross_trades(s, o, side, i + 1, j)
            } else {
                seq![t] + cross_trades(s, o, side, i, j + 1)
            }
        }
    }
}

/// The trades `match_orders_with` reports: both queues sorted by price
/// and time priority in this side's favour, then crossed pairwise.
pub open spec fn spec_match_with(s: Seq<Order>, o: Seq<Order>, side: OrderSide) -> Seq<Trade> {
    cross_trades(
        sort_orders(s, side == OrderSide::Bid),
        sort_orders(o, side == OrderSide::Ask),
        side,
        0,
        0,
    )
}

/// A level whose orders have distinct ids below `bound` has at most
/// `bound` orders, so its quantity sum stays far below the u128 limit.
#[verifier::rlimit(50)]
pub proof fn lemma_level_sum_bound(l: LevelModel, bound: int)
    requires
        queue_wf(l.orders),
        forall|j: int| 0 <= j < l.orders.len() ==> (#[trigger] l.orders[j].id) < bound,
        0 <= bound <= u64::MAX,
    ensures
        sum_qty(l.orders) <= bound * (u64::MAX as int),
        sum_qty(l.orders) + u64::MAX < u128::MAX,
{
    let cap = u64::MAX as int;
    let n = l.orders.len() as int;
    lemma_sum_qty_le_len(l.orders);
    assert(sum_qty(l.orders) <= n * cap);
    assert(forall|j: int|
        0 <= j < ids_of(l.orders).len() ==> (#[trigger] ids_of(l.orders)[j] as int) < bound);
    lemma_unique_bounded_count(ids_of(l.orders), bound);
    assert(n <= bound);
    assert(n * cap <= bound * cap) by (nonlinear_arith)
        requires
            n <= bound,
            cap >= 0,
    ;
    assert(bound * cap + cap < u128::MAX as int) by (nonlinear_arith)
        requires
            0 <= bound <= cap,
            cap == u64::MAX as int,
    ;
}

} // verus!
