//! Laws of the book, proved over its model.
//!
//! These facts relate the operations' specifications to each other; the
//! operations themselves promise in their contracts that their results
//! follow these specifications.

use vstd::prelude::*;
use crate::model::{
    best_ask_ticks, best_bid_ticks, book_contains_id, book_wf, contains_id, crossed,
    find_level_idx, find_order_idx, insert_pos, lemma_find_level_idx, lemma_find_order_idx,
    lemma_insert_pos_props, lemma_remove_from_side_preserves, level_wf, remove_from_side,
    side_contains_id, spec_add_order, spec_consume, spec_remove_order, sweep_first_trade,
    BookModel,
};
use crate::order::OrderSide;

verus! {

/// Every level present on either side of a well-formed book holds at
/// least one live order, and every live order has strictly positive
/// remaining quantity.
pub proof fn lemma_levels_nonempty(b: BookModel)
    requires
        book_wf(b),
    ensures
        forall|k: int| 0 <= k < b.bids.len() ==> (#[trigger] b.bids[k]).orders.len() > 0,
        forall|k: int| 0 <= k < b.asks.len() ==> (#[trigger] b.asks[k]).orders.len() > 0,
        forall|k: int, j: int|
            0 <= k < b.bids.len() && 0 <= j < b.bids[k].orders.len() ==> (
            #[trigger] b.bids[k].orders[j]).quantity > 0,
        forall|k: int, j: int|
            0 <= k < b.asks.len() && 0 <= j < b.asks[k].orders.len() ==> (
            #[trigger] b.asks[k].orders[j]).quantity > 0,
{
    assert forall|k: int| 0 <= k < b.bids.len() implies (#[trigger] b.bids[k]).orders.len()
        > 0 by {
        assert(level_wf(b.bids[k]));
    }
    assert forall|k: int| 0 <= k < b.asks.len() implies (#[trigger] b.asks[k]).orders.len()
        > 0 by {
        assert(level_wf(b.asks[k]));
    }
    assert forall|k: int, j: int|
        0 <= k < b.bids.len() && 0 <= j < b.bids[k].orders.len() implies (
    #[trigger] b.bids[k].orders[j]).quantity > 0 by {
        assert(level_wf(b.bids[k]));
    }
    assert forall|k: int, j: int|
        0 <= k < b.asks.len() && 0 <= j < b.asks[k].orders.len() implies (
    #[trigger] b.asks[k].orders[j]).quantity > 0 by {
        assert(level_wf(b.asks[k]));
    }
}

/// Removing the last order of a bid level removes the level itself: no
/// empty level survives a removal, and no level with that price remains.
pub proof fn lemma_remove_prunes_emptied_level(b: BookModel, id: u64)
    requires
        book_wf(b),
        side_contains_id(b.bids, id),
        b.bids[find_level_idx(b.bids, id)].orders.len() == 1,
    ensures
        spec_remove_order(b, id).bids == b.bids.remove(find_level_idx(b.bids, id)),
        forall|k: int|
            0 <= k < spec_remove_order(b, id).bids.len() ==> (
            #[trigger] spec_remove_order(b, id).bids[k]).price != b.bids[find_level_idx(
                b.bids,
                id,
            )].price,
{
    lemma_find_level_idx(b.bids, id);
    let k = find_level_idx(b.bids, id);
    let l = b.bids[k];
    lemma_find_order_idx(l.orders, id);
    let i = find_order_idx(l.orders, id);
    assert(l.orders.remove(i).len() == 0);
    assert(remove_from_side(b.bids, id) == b.bids.remove(k));
    let rest = b.bids.remove(k);
    assert forall|k2: int| 0 <= k2 < rest.len() implies (#[trigger] rest[k2]).price
        != l.price by {
        if k2 < k {
            assert(rest[k2] == b.bids[k2]);
        } else {
            assert(rest[k2] == b.bids[k2 + 1]);
        }
    }
}

/// Cancellation is idempotent: after one removal the id is gone, and a
/// second removal with the same id leaves the book — its cumulative
/// statistics included — exactly as it was.
pub proof fn lemma_remove_idempotent(b: BookModel, id: u64)
    requires
        book_wf(b),
    ensures
        !book_contains_id(spec_remove_order(b, id), id),
        spec_remove_order(spec_remove_order(b, id), id) == spec_remove_order(b, id),
{
    let b1 = spec_remove_order(b, id);
    lemma_remove_from_side_preserves(
        b.bids,
        b.asks,
        id,
        OrderSide::Bid,
        true,
        b.next_order_id as int,
    );
    assert(crate::model::sides_disjoint(b.asks, b.bids)) by {
        assert forall|k1: int, j1: int, k2: int, j2: int|
            0 <= k1 < b.asks.len() && 0 <= j1 < b.asks[k1].orders.len() && 0 <= k2 < b.bids.len()
                && 0 <= j2 < b.bids[k2].orders.len() implies (
        #[trigger] b.asks[k1].orders[j1].id) != (#[trigger] b.bids[k2].orders[j2].id) by {
            assert(crate::model::sides_disjoint(b.bids, b.asks));
        }
    }
    lemma_remove_from_side_preserves(
        b.asks,
        b.bids,
        id,
        OrderSide::Ask,
        false,
        b.next_order_id as int,
    );
    if book_contains_id(b, id) {
        if side_contains_id(b.bids, id) {
            assert(b1.asks == b.asks);
            assert(!side_contains_id(b1.bids, id));
            assert(!side_contains_id(b1.asks, id)) by {
                if side_contains_id(b.asks, id) {
                    let k1 = choose|k1: int|
                        0 <= k1 < b.bids.len() && contains_id(b.bids[k1].orders, id);
                    let j1 = choose|j1: int|
                        0 <= j1 < b.bids[k1].orders.len() && b.bids[k1].orders[j1].id == id;
                    let k2 = choose|k2: int|
                        0 <= k2 < b.asks.len() && contains_id(b.asks[k2].orders, id);
                    let j2 = choose|j2: int|
                        0 <= j2 < b.asks[k2].orders.len() && b.asks[k2].orders[j2].id == id;
                    assert(b.bids[k1].orders[j1].id != b.asks[k2].orders[j2].id);
                }
            }
        } else {
            assert(b1.bids == b.bids);
            assert(!side_contains_id(b1.asks, id));
            assert(!side_contains_id(b1.bids, id));
        }
    } else {
        assert(b1 == b);
    }
    assert(!book_contains_id(b1, id));
}

/// Price priority: the first trade of a sweep on a crossed book takes
/// the head order of the highest bid level, whose price strictly exceeds
/// every other bid level's.
pub proof fn lemma_price_priority(b: BookModel)
    requires
        book_wf(b),
        crossed(b),
    ensures
        sweep_first_trade(b).bid_order_id == b.bids[0].orders[0].id,
        sweep_first_trade(b).ask_order_id == b.asks[0].orders[0].id,
        forall|k: int| 1 <= k < b.bids.len() ==> (#[trigger] b.bids[k]).price < b.bids[0].price,
        forall|k: int| 1 <= k < b.asks.len() ==> (#[trigger] b.asks[k]).price > b.asks[0].price,
{
}

/// Time priority: of two bids placed at the same fresh price, the one
/// placed first stands ahead in the level, and a sweep on a book where
/// that price is the crossing best bid matches it first.
pub proof fn lemma_time_priority(b: BookModel, p: u64, q1: u64, t1: u64, q2: u64, t2: u64)
    requires
        book_wf(b),
        q1 > 0,
        q2 > 0,
        b.next_order_id < u64::MAX - 1,
        forall|k: int| 0 <= k < b.bids.len() ==> (#[trigger] b.bids[k]).price != p,
    ensures
        ({
            let b2 = spec_add_order(
                spec_add_order(b, OrderSide::Bid, p, q1, t1),
                OrderSide::Bid,
                p,
                q2,
                t2,
            );
            let pos = insert_pos(b.bids, p, true);
            &&& b2.bids[pos].price == p
            &&& b2.bids[pos].orders.len() == 2
            &&& b2.bids[pos].orders[0].id == b.next_order_id
            &&& b2.bids[pos].orders[0].timestamp == t1
            &&& b2.bids[pos].orders[1].id == b.next_order_id + 1
            &&& b2.bids[pos].orders[1].timestamp == t2
            &&& (crossed(b2) && b2.bids[0].price == p && pos == 0 ==> sweep_first_trade(
                b2,
            ).bid_order_id == b.next_order_id)
        }),
{
    let b1 = spec_add_order(b, OrderSide::Bid, p, q1, t1);
    let pos = insert_pos(b.bids, p, true);
    lemma_insert_pos_props(b.bids, p, true);
    assert(!(pos < b.bids.len() && b.bids[pos].price == p));
    assert(b1.bids == b.bids.insert(pos, crate::model::LevelModel { price: p, orders: seq![crate::order::Order { id: b.next_order_id, side: OrderSide::Bid, price: crate::price::Price { ticks: p }, quantity: q1, timestamp: t1 }] }));
    assert(b1.bids[pos].price == p);
    assert(b1.bids[pos].orders.len() == 1);
    lemma_insert_pos_props(b1.bids, p, true);
    let pos1 = insert_pos(b1.bids, p, true);
    assert(pos1 == pos) by {
        assert(forall|k: int| 0 <= k < pos ==> b1.bids[k] == b.bids[k]);
        assert(forall|k: int| pos < k < b1.bids.len() ==> b1.bids[k] == b.bids[k - 1]);
        if pos1 < pos {
            assert(b1.bids[pos1].price > p);
            assert(b.bids[pos1].price > p);
        }
        if pos1 > pos {
            assert(b1.bids[pos].price > p);
        }
    }
    assert(b1.bids[pos1].price == p);
    let b2 = spec_add_order(b1, OrderSide::Bid, p, q2, t2);
    assert(b2.bids[pos].orders == b1.bids[pos].orders.push(
        crate::order::Order {
            id: b1.next_order_id,
            side: OrderSide::Bid,
            price: crate::price::Price { ticks: p },
            quantity: q2,
            timestamp: t2,
        },
    ));
}

/// Price priority across a whole marketable fill: against a side sorted
/// best price first, the trades of `spec_consume` print best price
/// first — the first trade at the best level's price, and every later
/// trade at a price no better for the taker (non-increasing on a bid
/// side, non-decreasing on an ask side).
pub proof fn lemma_consume_prices_best_first(
    ls: Seq<crate::model::LevelModel>,
    taker: crate::order::Order,
    resting_side: OrderSide,
    remaining: u64,
)
    requires
        if resting_side == OrderSide::Bid {
            crate::model::sorted_desc(ls)
        } else {
            crate::model::sorted_asc(ls)
        },
    ensures
        spec_consume(ls, taker, resting_side, remaining).0.len() > 0 ==> spec_consume(
            ls,
            taker,
            resting_side,
            remaining,
        ).0[0].price.ticks == ls[0].price,
        forall|i: int, j: int|
            0 <= i <= j < spec_consume(ls, taker, resting_side, remaining).0.len() ==> (
            if resting_side == OrderSide::Bid {
                (#[trigger] spec_consume(ls, taker, resting_side, remaining).0[j]).price.ticks <= (
                #[trigger] spec_consume(ls, taker, resting_side, remaining).0[i]).price.ticks
            } else {
                spec_consume(ls, taker, resting_side, remaining).0[i].price.ticks <= spec_consume(
                    ls,
                    taker,
                    resting_side,
                    remaining,
                ).0[j].price.ticks
            }),
    decreases remaining,
{
    if !(ls.len() == 0 || remaining == 0 || ls[0].orders.len() == 0 || ls[0].orders[0].quantity
        == 0) {
        let resting = ls[0].orders[0];
        let tq = crate::model::min_u64(remaining, resting.quantity);
        let ls2 = if resting.quantity <= tq {
            crate::model::pop_head(ls)
        } else {
            crate::model::shrink_head(ls, (resting.quantity - tq) as u64)
        };
        let t = spec_consume(ls, taker, resting_side, remaining).0;
        let t2 = spec_consume(ls2, taker, resting_side, (remaining - tq) as u64).0;
        assert(forall|k: int| 0 <= k < t2.len() ==> t[k + 1] == t2[k]);
        // the successor side keeps its sort order and starts at a price no
        // better than the head it replaced
        if resting.quantity <= tq && ls[0].orders.len() == 1 {
            assert(forall|k: int| 0 <= k < ls2.len() ==> ls2[k] == ls[k + 1]);
            if ls2.len() > 0 {
                assert(ls2[0] == ls[1]);
            }
        } else {
            assert(forall|k: int| 1 <= k < ls2.len() ==> ls2[k] == ls[k]);
            assert(ls2[0].price == ls[0].price);
        }
        if resting_side == OrderSide::Bid {
            assert forall|i: int, j: int| 0 <= i < j < ls2.len() implies ls2[i].price
                > ls2[j].price by {
                if resting.quantity <= tq && ls[0].orders.len() == 1 {
                    assert(ls2[i] == ls[i + 1] && ls2[j] == ls[j + 1]);
                } else {
                    if i > 0 {
                        assert(ls2[i] == ls[i]);
                    }
                    assert(ls2[j] == ls[j]);
                }
            }
        } else {
            assert forall|i: int, j: int| 0 <= i < j < ls2.len() implies ls2[i].price
                < ls2[j].price by {
                if resting.quantity <= tq && ls[0].orders.len() == 1 {
                    assert(ls2[i] == ls[i + 1] && ls2[j] == ls[j + 1]);
                } else {
                    if i > 0 {
                        assert(ls2[i] == ls[i]);
                    }
                    assert(ls2[j] == ls[j]);
                }
            }
        }
        lemma_consume_prices_best_first(ls2, taker, resting_side, (remaining - tq) as u64);
        assert forall|i: int, j: int|
            0 <= i <= j < t.len() implies (if resting_side == OrderSide::Bid {
            (#[trigger] t[j]).price.ticks <= (#[trigger] t[i]).price.ticks
        } else {
            t[i].price.ticks <= t[j].price.ticks
        }) by {
            if i == 0 && j > 0 {
                assert(t[j] == t2[j - 1]);
                if t2.len() > 0 {
                    assert(t2[0].price.ticks == ls2[0].price);
                    assert(if resting_side == OrderSide::Bid {
                        t2[j - 1].price.ticks <= t2[0].price.ticks
                    } else {
                        t2[0].price.ticks <= t2[j - 1].price.ticks
                    });
                }
            } else if i > 0 {
                assert(t[i] == t2[i - 1]);
                assert(t[j] == t2[j - 1]);
            }
        }
    }
}

/// Time priority through a whole sweep: with two bids resting in arrival
/// order at one price and a crossing ask no larger than the first bid,
/// the sweep trades only against the first bid and leaves the second
/// still resting, the ask side empty.
pub proof fn lemma_sweep_leaves_later_bid(
    p: u64,
    o1: crate::order::Order,
    o2: crate::order::Order,
    pa: u64,
    oa: crate::order::Order,
)
    requires
        o1.quantity > 0,
        o2.quantity > 0,
        oa.quantity > 0,
        oa.quantity <= o1.quantity,
        pa <= p,
    ensures
        ({
            let bids = seq![crate::model::LevelModel { price: p, orders: seq![o1, o2] }];
            let asks = seq![crate::model::LevelModel { price: pa, orders: seq![oa] }];
            let r = crate::model::spec_sweep(bids, asks, 1000);
            &&& r.0.len() == 1
            &&& r.0[0].bid_order_id == o1.id
            &&& r.0[0].ask_order_id == oa.id
            &&& side_contains_id(r.1, o2.id)
            &&& r.2.len() == 0
        }),
{
    let bids = seq![crate::model::LevelModel { price: p, orders: seq![o1, o2] }];
    let asks = seq![crate::model::LevelModel { price: pa, orders: seq![oa] }];
    let tq = crate::model::min_u64(o1.quantity, oa.quantity);
    assert(tq == oa.quantity);
    let bids2 = if o1.quantity <= oa.quantity {
        crate::model::pop_head(bids)
    } else {
        crate::model::shrink_head(bids, (o1.quantity - tq) as u64)
    };
    let asks2 = crate::model::pop_head(asks);
    assert(asks2 =~= Seq::<crate::model::LevelModel>::empty());
    let r = crate::model::spec_sweep(bids, asks, 1000);
    assert(r.0 == seq![r.0[0]] + crate::model::spec_sweep(bids2, asks2, 999).0);
    assert(crate::model::spec_sweep(bids2, asks2, 999).0 =~= Seq::<crate::trade::Trade>::empty());
    assert(r.1 == bids2);
    if o1.quantity <= oa.quantity {
        assert(bids[0].orders.drop_first() =~= seq![o2]);
        assert(bids2[0].orders[0] == o2);
    } else {
        assert(bids2[0].orders[1] == o2);
    }
    assert(side_contains_id(bids2, o2.id));
}

/// When a well-formed book is not crossed and both sides rest, the best
/// bid sits strictly below the best ask, and the cached spread is
/// strictly positive.
pub proof fn lemma_uncrossed_spread_positive(b: BookModel)
    requires
        book_wf(b),
        !crossed(b),
        b.bids.len() > 0,
        b.asks.len() > 0,
    ensures
        best_bid_ticks(b)->0 < best_ask_ticks(b)->0,
        b.stats.spread == Some((best_ask_ticks(b)->0 - best_bid_ticks(b)->0) as i128),
        b.stats.spread->0 > 0,
{
}

} // verus!
