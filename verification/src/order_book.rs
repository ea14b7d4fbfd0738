//! The order book: per-level order queues, the two-sided sorted structure,
//! and the matching algorithms.

use vstd::prelude::*;
use crate::model::{
    add_to_side, best_ask_ticks, best_bid_ticks, book_contains_id, book_core_wf, book_found_order,
    book_wf, contains_id, cross_trades, crossed, find_level_idx, find_order_idx, ids_distinct,
    ids_of, ins_pos, insert_sorted, lemma_add_to_side_preserves, lemma_find_level_idx,
    lemma_find_order_idx, lemma_find_order_idx_unique, lemma_ins_pos_props,
    lemma_insert_pos_props, lemma_level_sum_bound, lemma_no_dup_remove,
    lemma_remove_from_side_preserves, lemma_sum_qty_ge_element, lemma_sum_qty_nonneg,
    lemma_sum_qty_push, lemma_sum_qty_remove, lemma_sum_qty_update, lemma_trades_nonneg,
    lemma_trades_push, lemma_update_in_side_preserves, level_wf, market_first_trade, min_u64,
    ord_leq, pop_head, queue_wf, remove_from_side, shrink_head, side_contains_id, side_count,
    side_found_order, side_qty, side_wf, sides_disjoint, sort_orders, spec_add_order,
    spec_consume, spec_match_with, spec_remove_order, spec_sweep, taker_of,
    lemma_consume_no_new_ids,
    spec_update_order, sum_qty, sweep_first_trade, taker_first_trade, trades_notional, trades_qty,
    update_in_side, updated_order, BookModel, LevelModel,
};
use crate::order::{Order, OrderSide};
use crate::price::Price;
use crate::stats::{sat_add64, sat_add128, sat_add_u64, with_market, zero_stats, OrderBookStats};
use crate::trade::Trade;

verus! {

/// The set of orders resting at one exact price.
///
/// Orders are held in arrival order, so the front of the queue is the order
/// with time priority. A running total of the remaining quantities is kept
/// in lockstep with every insert, removal and update, so per-level quantity
/// queries need no summation.
pub struct OrderQueue {
    orders: Vec<Order>,
    total_quantity: u128,
}

impl View for OrderQueue {
    type V = Seq<Order>;

    closed spec fn view(&self) -> Seq<Order> {
        self.orders@
    }
}

impl OrderQueue {
    /// The queue's invariant: the running total equals the sum of the live
    /// orders' quantities, ids are distinct, and quantities are positive.
    pub closed spec fn wf(&self) -> bool {
        &&& self.total_quantity as int == sum_qty(self.orders@)
        &&& queue_wf(self.orders@)
    }

    /// The running aggregate quantity, as a spec value.
    pub closed spec fn total(&self) -> int {
        self.total_quantity as int
    }

    /// What well-formedness gives a caller: the queue's model is well
    /// formed (distinct ids, positive quantities) and the running total
    /// equals the sum of the live orders' quantities.
    pub proof fn lemma_wf(&self)
        requires
            self.wf(),
        ensures
            queue_wf(self@),
            self.total() == sum_qty(self@),
    {
    }

    /// Makes an empty queue.
    pub fn new() -> (r: OrderQueue)
        ensures
            r.wf(),
            r@ == Seq::<Order>::empty(),
    {
        let r = OrderQueue { orders: Vec::new(), total_quantity: 0 };
        proof {
            assert(r.orders@ =~= Seq::<Order>::empty());
        }
        r
    }

    /// Appends an order. Ids are caller-allocated and must be fresh here.
    pub fn add_order(&mut self, order: Order)
        requires
            old(self).wf(),
            order.quantity > 0,
            !contains_id(old(self)@, order.id),
            sum_qty(old(self)@) + order.quantity <= u128::MAX,
        ensures
            final(self).wf(),
            final(self)@ == old(self)@.push(order),
    {
        proof {
            lemma_sum_qty_nonneg(self.orders@);
            lemma_sum_qty_push(self.orders@, order);
        }
        self.total_quantity = self.total_quantity + order.quantity as u128;
        self.orders.push(order);
        proof {
            let s = old(self).orders@;
            assert(ids_of(s.push(order)) =~= ids_of(s).push(order.id));
            assert forall|i: int, j: int|
                0 <= i < j < ids_of(s.push(order)).len() implies ids_of(s.push(order))[i]
                != ids_of(s.push(order))[j] by {
                if j < s.len() {
                    assert(ids_of(s)[i] != ids_of(s)[j]);
                } else {
                    assert(!(s[i].id == order.id));
                }
            }
        }
    }

    /// Removes the order with the given id, if present; idempotent.
    pub fn remove_order(&mut self, order_id: u64) -> (r: Option<Order>)
        requires
            old(self).wf(),
        ensures
            final(self).wf(),
            contains_id(old(self)@, order_id) ==> r == Some(
                old(self)@[find_order_idx(old(self)@, order_id)],
            ) && final(self)@ == old(self)@.remove(find_order_idx(old(self)@, order_id)),
            !contains_id(old(self)@, order_id) ==> r == None::<Order> && final(self)@ == old(self)@,
    {
        let ghost s = self.orders@;
        let mut i: usize = 0;
        while i < self.orders.len()
            invariant
                *self == *old(self),
                self.wf(),
                s == self.orders@,
                0 <= i <= s.len(),
                forall|j: int| 0 <= j < i ==> s[j].id != order_id,
            decreases s.len() - i,
        {
            if self.orders[i].id == order_id {
                let o = self.orders[i];
                proof {
                    lemma_find_order_idx(s, order_id);
                    lemma_find_order_idx_unique(s, order_id, i as int);
                    lemma_sum_qty_ge_element(s, i as int);
                    lemma_sum_qty_remove(s, i as int);
                }
                self.orders.remove(i);
                self.total_quantity = self.total_quantity - o.quantity as u128;
                proof {
                    assert(ids_of(s.remove(i as int)) =~= ids_of(s).remove(i as int));
                    lemma_no_dup_remove(ids_of(s), i as int);
                }
                return Some(o);
            }
            i = i + 1;
        }
        proof {
            lemma_find_order_idx(s, order_id);
        }
        None
    }

    /// Replaces an existing order's remaining quantity; reports whether the
    /// order was present.
    pub fn update_order(&mut self, order_id: u64, new_quantity: u64) -> (r: bool)
        requires
            old(self).wf(),
            new_quantity > 0,
            sum_qty(old(self)@) + new_quantity <= u128::MAX,
        ensures
            final(self).wf(),
            r == contains_id(old(self)@, order_id),
            contains_id(old(self)@, order_id) ==> final(self)@ == old(self)@.update(
                find_order_idx(old(self)@, order_id),
                updated_order(old(self)@[find_order_idx(old(self)@, order_id)], new_quantity),
            ),
            !contains_id(old(self)@, order_id) ==> final(self)@ == old(self)@,
    {
        let ghost s = self.orders@;
        let mut i: usize = 0;
        while i < self.orders.len()
            invariant
                *self == *old(self),
                self.wf(),
                s == self.orders@,
                new_quantity > 0,
                sum_qty(s) + new_quantity <= u128::MAX,
                0 <= i <= s.len(),
                forall|j: int| 0 <= j < i ==> s[j].id != order_id,
            decreases s.len() - i,
        {
            if self.orders[i].id == order_id {
                let o = self.orders[i];
                let replacement = Order {
                    id: o.id,
                    side: o.side,
                    price: o.price,
                    quantity: new_quantity,
                    timestamp: o.timestamp,
                };
                proof {
                    lemma_find_order_idx(s, order_id);
                    lemma_find_order_idx_unique(s, order_id, i as int);
                    lemma_sum_qty_ge_element(s, i as int);
                    lemma_sum_qty_update(s, i as int, replacement);
                }
                self.orders.set(i, replacement);
                self.total_quantity = self.total_quantity + new_quantity as u128
                    - o.quantity as u128;
                proof {
                    let s2 = s.update(i as int, replacement);
                    assert(ids_of(s2) =~= ids_of(s));
                    assert forall|j: int|
                        0 <= j < s2.len() implies (#[trigger] s2[j]).quantity > 0 by {
                        if j != i {
                            assert(s2[j] == s[j]);
                        }
                    }
                }
                return true;
            }
            i = i + 1;
        }
        proof {
            lemma_find_order_idx(s, order_id);
        }
        false
    }

    /// The aggregate remaining quantity at this level, kept in lockstep
    /// with mutations rather than recomputed.
    pub fn get_total_quantity(&self) -> (r: u128)
        requires
            self.wf(),
        ensures
            r == sum_qty(self@),
    {
        self.total_quantity
    }

    /// Whether no order rests here.
    pub fn is_empty(&self) -> (r: bool)
        ensures
            r == (self@.len() == 0),
    {
        self.orders.len() == 0
    }

    /// The number of live orders at this level.
    pub fn len(&self) -> (r: usize)
        ensures
            r == self@.len(),
    {
        self.orders.len()
    }

    /// The live order with time priority, without removing it.
    pub fn get_first_order(&self) -> (r: Option<Order>)
        ensures
            self@.len() == 0 ==> r == None::<Order>,
            self@.len() > 0 ==> r == Some(self@[0]),
    {
        if self.orders.len() == 0 {
            None
        } else {
            Some(self.orders[0])
        }
    }

    /// Removes and returns the live order with time priority.
    pub fn remove_first_order(&mut self) -> (r: Option<Order>)
        requires
            old(self).wf(),
        ensures
            final(self).wf(),
            old(self)@.len() == 0 ==> r == None::<Order> && final(self)@ == old(self)@,
            old(self)@.len() > 0 ==> r == Some(old(self)@[0]) && final(self)@ == old(self)@.drop_first(),
    {
        let ghost s = self.orders@;
        if self.orders.len() == 0 {
            None
        } else {
            let o = self.orders[0];
            proof {
                lemma_sum_qty_ge_element(s, 0);
                lemma_sum_qty_remove(s, 0);
            }
            self.orders.remove(0);
            self.total_quantity = self.total_quantity - o.quantity as u128;
            proof {
                assert(s.remove(0) =~= s.drop_first());
                assert(ids_of(s.remove(0)) =~= ids_of(s).remove(0));
                lemma_no_dup_remove(ids_of(s), 0);
            }
            Some(o)
        }
    }

    /// A copy of the order with the given id, if it rests here.
    pub fn get_order(&self, order_id: u64) -> (r: Option<Order>)
        ensures
            contains_id(self@, order_id) ==> r == Some(
                self@[find_order_idx(self@, order_id)],
            ),
            !contains_id(self@, order_id) ==> r == None::<Order>,
    {
        let ghost s = self.orders@;
        let mut i: usize = 0;
        while i < self.orders.len()
            invariant
                s == self.orders@,
                0 <= i <= s.len(),
                forall|j: int| 0 <= j < i ==> s[j].id != order_id,
            decreases s.len() - i,
        {
            if self.orders[i].id == order_id {
                proof {
                    lemma_find_order_idx(s, order_id);
                    if find_order_idx(s, order_id) < i {
                        assert(false);
                    }
                }
                return Some(self.orders[i]);
            }
            i = i + 1;
        }
        proof {
            lemma_find_order_idx(s, order_id);
        }
        None
    }

    /// A copy of every live order at this level, in arrival order.
    pub fn get_all_orders(&self) -> (r: Vec<Order>)
        ensures
            r@ == self@,
    {
        let mut r: Vec<Order> = Vec::new();
        let mut i: usize = 0;
        while i < self.orders.len()
            invariant
                0 <= i <= self.orders@.len(),
                r@ == self.orders@.take(i as int),
            decreases self.orders@.len() - i,
        {
            r.push(self.orders[i]);
            proof {
                assert(self.orders@.take(i + 1 as int) =~= self.orders@.take(i as int).push(
                    self.orders@[i as int],
                ));
            }
            i = i + 1;
        }
        proof {
            assert(self.orders@.take(self.orders@.len() as int) =~= self.orders@);
        }
        r
    }

    /// Reports the trades that would cross this queue against another:
    /// both queues are sorted by price and time priority in this side's
    /// favour and walked pairwise while the prices cross, each pair
    /// trading the smaller remaining quantity at the price of the earlier
    /// arrival. Nothing is mutated; quantities are not decremented
    /// between the reported trades.
    pub fn match_orders_with(&self, other_queue: &OrderQueue, side: OrderSide) -> (trades: Vec<
        Trade,
    >)
        ensures
            trades@ == (if self@.len() == 0 || other_queue@.len() == 0 {
                Seq::<Trade>::empty()
            } else {
                spec_match_with(self@, other_queue@, side)
            }),
    {
        let mut trades: Vec<Trade> = Vec::new();
        let self_orders = self.get_all_orders();
        let other_orders = other_queue.get_all_orders();
        if self_orders.len() == 0 || other_orders.len() == 0 {
            proof {
                assert(trades@ =~= Seq::<Trade>::empty());
            }
            return trades;
        }
        let descending_self = match side {
            OrderSide::Bid => true,
            OrderSide::Ask => false,
        };
        let self_sorted = sorted_copy(&self_orders, descending_self);
        let other_sorted = sorted_copy(&other_orders, !descending_self);
        let ghost ss = self_sorted@;
        let ghost os = other_sorted@;
        let mut self_idx: usize = 0;
        let mut other_idx: usize = 0;
        loop
            invariant
                ss == self_sorted@,
                os == other_sorted@,
                descending_self == (side == OrderSide::Bid),
                0 <= self_idx <= ss.len(),
                0 <= other_idx <= os.len(),
                cross_trades(ss, os, side, 0, 0) == trades@ + cross_trades(
                    ss,
                    os,
                    side,
                    self_idx as int,
                    other_idx as int,
                ),
            ensures
                cross_trades(ss, os, side, 0, 0) == trades@ + cross_trades(
                    ss,
                    os,
                    side,
                    self_idx as int,
                    other_idx as int,
                ),
                cross_trades(ss, os, side, self_idx as int, other_idx as int)
                    == Seq::<Trade>::empty(),
            decreases ss.len() + os.len() - self_idx - other_idx,
        {
            if self_idx >= self_sorted.len() || other_idx >= other_sorted.len() {
                break ;
            }
            let a = self_sorted[self_idx];
            let b = other_sorted[other_idx];
            let can_match = match side {
                OrderSide::Bid => a.price.ticks >= b.price.ticks,
                OrderSide::Ask => a.price.ticks <= b.price.ticks,
            };
            if !can_match {
                break ;
            }
            let trade_quantity = if a.quantity <= b.quantity {
                a.quantity
            } else {
                b.quantity
            };
            let trade_price = if a.timestamp <= b.timestamp {
                a.price.ticks
            } else {
                b.price.ticks
            };
            let trade = Trade {
                bid_order_id: if descending_self {
                    a.id
                } else {
                    b.id
                },
                ask_order_id: if descending_self {
                    b.id
                } else {
                    a.id
                },
                price: Price { ticks: trade_price },
                quantity: trade_quantity,
                timestamp: if a.timestamp <= b.timestamp {
                    a.timestamp
                } else {
                    b.timestamp
                },
            };
            let ghost pre = trades@;
            let ghost rec = cross_trades(ss, os, side, self_idx as int, other_idx as int);
            proof {
                assert(a == ss[self_idx as int]);
                assert(b == os[other_idx as int]);
                assert(descending_self == (side == OrderSide::Bid));
                let rest = if a.quantity <= b.quantity {
                    cross_trades(ss, os, side, self_idx as int + 1, other_idx as int)
                } else {
                    cross_trades(ss, os, side, self_idx as int, other_idx as int + 1)
                };
                assert(rec == seq![trade] + rest);
            }
            trades.push(trade);
            if a.quantity <= b.quantity {
                self_idx = self_idx + 1;
            } else {
                other_idx = other_idx + 1;
            }
            proof {
                let rest = cross_trades(ss, os, side, self_idx as int, other_idx as int);
                assert(rec == seq![trade] + rest);
                assert(pre + rec =~= trades@ + rest);
            }
        }
        proof {
            assert(trades@ + Seq::<Trade>::empty() =~= trades@);
            assert(trades@ == cross_trades(ss, os, side, 0, 0));
        }
        trades
    }
}

/// Whether `a` sorts at or before `b` in a sweep over one side: better
/// price first, then earlier timestamp.
fn ord_leq_exec(a: &Order, b: &Order, descending: bool) -> (r: bool)
    ensures
        r == ord_leq(*a, *b, descending),
{
    if a.price.ticks == b.price.ticks {
        a.timestamp <= b.timestamp
    } else if descending {
        a.price.ticks > b.price.ticks
    } else {
        a.price.ticks < b.price.ticks
    }
}

/// A stably sorted copy of the orders, by price and time priority.
fn sorted_copy(v: &Vec<Order>, descending: bool) -> (r: Vec<Order>)
    ensures
        r@ == sort_orders(v@, descending),
{
    let mut r: Vec<Order> = Vec::new();
    let mut i: usize = 0;
    while i < v.len()
        invariant
            0 <= i <= v@.len(),
            r@ == sort_orders(v@.take(i as int), descending),
            r@.len() == i,
        decreases v@.len() - i,
    {
        let o = v[i];
        let ghost s = r@;
        let mut p: usize = 0;
        while p < r.len()
            invariant_except_break
                s == r@,
                0 <= p <= s.len(),
                forall|j: int| 0 <= j < p ==> ord_leq(#[trigger] s[j], o, descending),
            ensures
                s == r@,
                0 <= p <= s.len(),
                forall|j: int| 0 <= j < p ==> ord_leq(#[trigger] s[j], o, descending),
                p < s.len() ==> !ord_leq(s[p as int], o, descending),
            decreases s.len() - p,
        {
            if !ord_leq_exec(&r[p], &o, descending) {
                break ;
            }
            p = p + 1;
        }
        proof {
            lemma_ins_pos_props(s, o, descending);
            assert(p == ins_pos(s, o, descending)) by {
                let q = ins_pos(s, o, descending);
                if q < p {
                    assert(ord_leq(s[q], o, descending));
                } else if q > p {
                    assert(ord_leq(s[p as int], o, descending));
                }
            }
        }
        r.insert(p, o);
        proof {
            assert(r@ =~= s.take(p as int) + seq![o] + s.skip(p as int));
            assert(r@ == insert_sorted(s, o, descending));
            assert(v@.take(i + 1).drop_last() =~= v@.take(i as int));
            assert(v@.take(i + 1).last() == v@[i as int]);
        }
        i = i + 1;
    }
    proof {
        assert(v@.take(v@.len() as int) =~= v@);
    }
    r
}

/// A price tag with its queue of resting orders.
pub struct PriceLevel {
    pub price: Price,
    orders: OrderQueue,
}

impl View for PriceLevel {
    type V = LevelModel;

    closed spec fn view(&self) -> LevelModel {
        LevelModel { price: self.price.ticks, orders: self.orders@ }
    }
}

impl PriceLevel {
    /// The level's invariant: its queue is well formed and every order in
    /// it carries the level's price. Emptiness is governed by the book,
    /// which prunes a level the instant it empties.
    pub closed spec fn wf(&self) -> bool {
        &&& self.orders.wf()
        &&& forall|i: int|
            0 <= i < self.orders@.len() ==> (#[trigger] self.orders@[i]).price.ticks
                == self.price.ticks
    }

    /// Makes an empty level at the given price.
    pub fn new(price: Price) -> (r: PriceLevel)
        ensures
            r.wf(),
            r@.price == price.ticks,
            r@.orders == Seq::<Order>::empty(),
    {
        PriceLevel { price, orders: OrderQueue::new() }
    }

    /// Adds an order resting at this level's price.
    pub fn add_order(&mut self, order: Order)
        requires
            old(self).wf(),
            order.quantity > 0,
            order.price.ticks == old(self)@.price,
            !contains_id(old(self)@.orders, order.id),
            sum_qty(old(self)@.orders) + order.quantity <= u128::MAX,
        ensures
            final(self).wf(),
            final(self)@.price == old(self)@.price,
            final(self)@.orders == old(self)@.orders.push(order),
    {
        self.orders.add_order(order);
    }

    /// Removes the order with the given id, if present.
    pub fn remove_order(&mut self, order_id: u64) -> (r: Option<Order>)
        requires
            old(self).wf(),
        ensures
            final(self).wf(),
            final(self)@.price == old(self)@.price,
            contains_id(old(self)@.orders, order_id) ==> r == Some(
                old(self)@.orders[find_order_idx(old(self)@.orders, order_id)],
            ) && final(self)@.orders == old(self)@.orders.remove(
                find_order_idx(old(self)@.orders, order_id),
            ),
            !contains_id(old(self)@.orders, order_id) ==> r == None::<Order> && final(self)@
                == old(self)@,
    {
        let ghost s = self.orders@;
        let r = self.orders.remove_order(order_id);
        proof {
            if contains_id(s, order_id) {
                lemma_find_order_idx(s, order_id);
                let i = find_order_idx(s, order_id);
                let t = s.remove(i);
                assert forall|j: int|
                    0 <= j < t.len() implies (#[trigger] t[j]).price.ticks
                    == self.price.ticks by {
                    if j < i {
                        assert(t[j] == s[j]);
                    } else {
                        assert(t[j] == s[j + 1]);
                    }
                }
            }
        }
        r
    }

    /// Replaces an existing order's quantity.
    pub fn update_order(&mut self, order_id: u64, new_quantity: u64) -> (r: bool)
        requires
            old(self).wf(),
            new_quantity > 0,
            sum_qty(old(self)@.orders) + new_quantity <= u128::MAX,
        ensures
            final(self).wf(),
            final(self)@.price == old(self)@.price,
            r == contains_id(old(self)@.orders, order_id),
            contains_id(old(self)@.orders, order_id) ==> final(self)@.orders == old(self)@.orders.update(
                find_order_idx(old(self)@.orders, order_id),
                updated_order(
                    old(self)@.orders[find_order_idx(old(self)@.orders, order_id)],
                    new_quantity,
                ),
            ),
            !contains_id(old(self)@.orders, order_id) ==> final(self)@ == old(self)@,
    {
        let ghost s = self.orders@;
        let r = self.orders.update_order(order_id, new_quantity);
        proof {
            if contains_id(s, order_id) {
                lemma_find_order_idx(s, order_id);
                let i = find_order_idx(s, order_id);
                let t = s.update(i, updated_order(s[i], new_quantity));
                assert forall|j: int|
                    0 <= j < t.len() implies (#[trigger] t[j]).price.ticks
                    == self.price.ticks by {
                    if j != i {
                        assert(t[j] == s[j]);
                    }
                }
            }
        }
        r
    }

    /// The aggregate remaining quantity at this level.
    pub fn get_total_quantity(&self) -> (r: u128)
        requires
            self.wf(),
        ensures
            r == sum_qty(self@.orders),
    {
        self.orders.get_total_quantity()
    }

    /// Whether the level holds no orders.
    pub fn is_empty(&self) -> (r: bool)
        ensures
            r == (self@.orders.len() == 0),
    {
        self.orders.is_empty()
    }

    /// The number of live orders at this level.
    pub fn len(&self) -> (r: usize)
        ensures
            r == self@.orders.len(),
    {
        self.orders.len()
    }

    /// The order with time priority at this level, without removing it.
    pub fn get_first_order(&self) -> (r: Option<Order>)
        ensures
            self@.orders.len() == 0 ==> r == None::<Order>,
            self@.orders.len() > 0 ==> r == Some(self@.orders[0]),
    {
        self.orders.get_first_order()
    }

    /// Removes and returns the order with time priority at this level.
    pub fn remove_first_order(&mut self) -> (r: Option<Order>)
        requires
            old(self).wf(),
        ensures
            final(self).wf(),
            final(self)@.price == old(self)@.price,
            old(self)@.orders.len() == 0 ==> r == None::<Order> && final(self)@ == old(self)@,
            old(self)@.orders.len() > 0 ==> r == Some(old(self)@.orders[0]) && final(self)@.orders == old(self)@.orders.drop_first(),
    {
        self.orders.remove_first_order()
    }

    /// A copy of the order with the given id, if it rests here.
    pub fn get_order(&self, order_id: u64) -> (r: Option<Order>)
        ensures
            contains_id(self@.orders, order_id) ==> r == Some(
                self@.orders[find_order_idx(self@.orders, order_id)],
            ),
            !contains_id(self@.orders, order_id) ==> r == None::<Order>,
    {
        self.orders.get_order(order_id)
    }
}

/// The views of a side's levels, in the same arrangement.
pub open spec fn level_views(s: Seq<PriceLevel>) -> Seq<LevelModel> {
    s.map_values(|l: PriceLevel| l@)
}

/// The limit order book: two sorted sides of price levels (bids highest
/// first, asks lowest first), a monotonic order-id allocator, and a cache
/// of derived statistics recomputed after every mutating call.
pub struct OrderBook {
    bids: Vec<PriceLevel>,
    asks: Vec<PriceLevel>,
    next_order_id: u64,
    stats: OrderBookStats,
}

impl View for OrderBook {
    type V = BookModel;

    closed spec fn view(&self) -> BookModel {
        BookModel {
            bids: level_views(self.bids@),
            asks: level_views(self.asks@),
            next_order_id: self.next_order_id,
            stats: self.stats,
        }
    }
}

impl OrderBook {
    /// The book's invariant: each level's concrete representation is well
    /// formed, and the model satisfies `book_wf`.
    pub closed spec fn wf(&self) -> bool {
        &&& forall|i: int| 0 <= i < self.bids@.len() ==> (#[trigger] self.bids@[i]).wf()
        &&& forall|i: int| 0 <= i < self.asks@.len() ==> (#[trigger] self.asks@[i]).wf()
        &&& book_wf(self@)
    }

    /// A well-formed book's model satisfies `book_wf`.
    pub proof fn lemma_wf(&self)
        requires
            self.wf(),
        ensures
            book_wf(self@),
    {
    }

    /// Makes an empty book. The id allocator starts at 1.
    pub fn new() -> (r: OrderBook)
        ensures
            r.wf(),
            r@.bids.len() == 0,
            r@.asks.len() == 0,
            r@.next_order_id == 1,
            r@.stats == zero_stats(),
    {
        let r = OrderBook {
            bids: Vec::new(),
            asks: Vec::new(),
            next_order_id: 1,
            stats: OrderBookStats::new(),
        };
        proof {
            assert(level_views(r.bids@) =~= Seq::<LevelModel>::empty());
            assert(level_views(r.asks@) =~= Seq::<LevelModel>::empty());
        }
        r
    }

    /// Recomputes the statistics' market-data fields from the book.
    fn update_stats_internal(&mut self)
        ensures
            final(self).bids == old(self).bids,
            final(self).asks == old(self).asks,
            final(self).next_order_id == old(self).next_order_id,
            final(self).stats == with_market(
                old(self).stats,
                best_bid_ticks(old(self)@),
                best_ask_ticks(old(self)@),
            ),
    {
        let best_bid = if self.bids.len() > 0 {
            Some(self.bids[0].price)
        } else {
            None
        };
        let best_ask = if self.asks.len() > 0 {
            Some(self.asks[0].price)
        } else {
            None
        };
        proof {
            if self.bids@.len() > 0 {
                assert(self@.bids[0] == self.bids@[0]@);
            }
            if self.asks@.len() > 0 {
                assert(self@.asks[0] == self.asks@[0]@);
            }
        }
        self.stats.update_market_data(best_bid, best_ask);
    }

    /// Places one order on a side: appended to its price's level if that
    /// level exists, else a fresh level spliced in at the sorted position.
    fn insert_into_side(
        side_vec: &mut Vec<PriceLevel>,
        order: Order,
        descending: bool,
        Ghost(bound): Ghost<int>,
    )
        requires
            forall|i: int| 0 <= i < old(side_vec)@.len() ==> (#[trigger] old(side_vec)@[i]).wf(),
            side_wf(level_views(old(side_vec)@), order.side, descending, bound),
            order.id == bound,
            bound < u64::MAX,
            order.quantity > 0,
        ensures
            forall|i: int| 0 <= i < final(side_vec)@.len() ==> (#[trigger] final(side_vec)@[i]).wf(),
            level_views(final(side_vec)@) == add_to_side(
                level_views(old(side_vec)@),
                order,
                descending,
            ),
    {
        let ghost vs = level_views(old(side_vec)@);
        let t = order.price.ticks;
        let mut p: usize = 0;
        while p < side_vec.len()
            invariant_except_break
                *side_vec == *old(side_vec),
                vs == level_views(side_vec@),
                vs.len() == side_vec@.len(),
                0 <= p <= vs.len(),
                forall|j: int|
                    0 <= j < p ==> (if descending {
                        (#[trigger] vs[j].price) > t
                    } else {
                        vs[j].price < t
                    }),
            ensures
                *side_vec == *old(side_vec),
                vs == level_views(side_vec@),
                vs.len() == side_vec@.len(),
                0 <= p <= vs.len(),
                forall|j: int|
                    0 <= j < p ==> (if descending {
                        (#[trigger] vs[j].price) > t
                    } else {
                        vs[j].price < t
                    }),
                p < vs.len() ==> !(if descending {
                    vs[p as int].price > t
                } else {
                    vs[p as int].price < t
                }),
            decreases vs.len() - p,
        {
            let is_better = if descending {
                side_vec[p].price.ticks > t
            } else {
                side_vec[p].price.ticks < t
            };
            proof {
                assert(vs[p as int] == side_vec@[p as int]@);
            }
            if !is_better {
                break ;
            }
            p = p + 1;
        }
        proof {
            lemma_insert_pos_props(vs, t, descending);
            assert(p == crate::model::insert_pos(vs, t, descending)) by {
                let q = crate::model::insert_pos(vs, t, descending);
                if q < p {
                    assert(vs[q].price == vs[q].price);
                } else if q > p {
                    assert(vs[p as int].price == vs[p as int].price);
                }
            }
        }
        if p < side_vec.len() && side_vec[p].price.ticks == t {
            proof {
                assert(vs[p as int] == side_vec@[p as int]@);
                assert(level_wf(vs[p as int]));
                lemma_level_sum_bound(vs[p as int], bound);
                assert(!contains_id(vs[p as int].orders, order.id)) by {
                    if contains_id(vs[p as int].orders, order.id) {
                        let j = choose|j: int|
                            0 <= j < vs[p as int].orders.len() && vs[p as int].orders[j].id
                                == order.id;
                        assert(vs[p as int].orders[j].id < bound);
                    }
                }
            }
            let lvl = &mut side_vec[p];
            lvl.add_order(order);
            proof {
                assert(level_views(side_vec@) =~= add_to_side(vs, order, descending));
            }
        } else {
            let mut lvl = PriceLevel::new(order.price);
            proof {
                lemma_sum_qty_nonneg(lvl@.orders);
            }
            lvl.add_order(order);
            side_vec.insert(p, lvl);
            proof {
                assert(lvl@.orders =~= seq![order]);
                assert(level_views(side_vec@) =~= level_views(old(side_vec)@).insert(
                    p as int,
                    lvl@,
                ));
                assert(level_views(side_vec@) =~= add_to_side(vs, order, descending));
            }
        }
    }

    /// Allocates an id and places a resting order on the given side at the
    /// given price. No matching happens here: placing and matching are
    /// deliberately separate calls.
    pub fn add_order(&mut self, side: OrderSide, price: Price, quantity: u64, timestamp: u64) -> (id:
        u64)
        requires
            old(self).wf(),
            quantity > 0,
            old(self)@.next_order_id < u64::MAX,
        ensures
            final(self).wf(),
            id == old(self)@.next_order_id,
            final(self)@ == spec_add_order(old(self)@, side, price.ticks, quantity, timestamp),
    {
        let order_id = self.next_order_id;
        self.next_order_id = self.next_order_id + 1;
        let order = Order { id: order_id, side, price, quantity, timestamp };
        let ghost b0 = old(self)@;
        match side {
            OrderSide::Bid => {
                proof {
                    lemma_add_to_side_preserves(
                        b0.bids,
                        b0.asks,
                        order,
                        true,
                        b0.next_order_id as int,
                    );
                }
                Self::insert_into_side(&mut self.bids, order, true, Ghost(order_id as int));
            },
            OrderSide::Ask => {
                proof {
                    lemma_add_to_side_preserves(
                        b0.asks,
                        b0.bids,
                        order,
                        false,
                        b0.next_order_id as int,
                    );
                }
                Self::insert_into_side(&mut self.asks, order, false, Ghost(order_id as int));
            },
        }
        self.stats.total_orders_created = sat_add64(self.stats.total_orders_created, 1);
        self.update_stats_internal();
        proof {
            assert(self@ =~= spec_add_order(b0, side, price.ticks, quantity, timestamp));
            assert(sides_disjoint(self@.bids, self@.asks))
        }
        order_id
    }

    /// The best (highest) bid price, if any bid rests.
    pub fn get_best_bid(&self) -> (r: Option<Price>)
        ensures
            r == match best_bid_ticks(self@) {
                Some(t) => Some(Price { ticks: t }),
                None => None,
            },
    {
        if self.bids.len() > 0 {
            proof {
                assert(self@.bids[0] == self.bids@[0]@);
            }
            Some(self.bids[0].price)
        } else {
            None
        }
    }

    /// The best (lowest) ask price, if any ask rests.
    pub fn get_best_ask(&self) -> (r: Option<Price>)
        ensures
            r == match best_ask_ticks(self@) {
                Some(t) => Some(Price { ticks: t }),
                None => None,
            },
    {
        if self.asks.len() > 0 {
            proof {
                assert(self@.asks[0] == self.asks@[0]@);
            }
            Some(self.asks[0].price)
        } else {
            None
        }
    }

    /// The cached spread (best ask minus best bid).
    pub fn get_spread(&self) -> (r: Option<i128>)
        ensures
            r == self@.stats.spread,
    {
        self.stats.spread
    }

    /// The cached mid price (floor average of best bid and ask).
    pub fn get_mid_price(&self) -> (r: Option<Price>)
        ensures
            r == self@.stats.mid_price,
    {
        self.stats.mid_price
    }

    /// A snapshot of the statistics.
    pub fn get_stats(&self) -> (r: OrderBookStats)
        ensures
            r == self@.stats,
    {
        self.stats
    }

    /// The number of live orders resting on both sides together. Sticks at
    /// `usize::MAX` if the true count cannot be represented.
    pub fn get_total_orders(&self) -> (r: usize)
        requires
            self.wf(),
        ensures
            r == (if side_count(self@.bids) + side_count(self@.asks) <= usize::MAX {
                side_count(self@.bids) + side_count(self@.asks)
            } else {
                usize::MAX as int
            }),
    {
        let ghost b = self@;
        proof {
            crate::model::lemma_side_nonneg(b.bids);
            crate::model::lemma_side_nonneg(b.asks);
        }
        let mut total: usize = 0;
        let mut k: usize = 0;
        while k < self.bids.len()
            invariant
                b == self@,
                self.wf(),
                0 <= k <= b.bids.len(),
                side_count(b.bids.take(k as int)) >= 0,
                total == (if side_count(b.bids.take(k as int)) <= usize::MAX {
                    side_count(b.bids.take(k as int))
                } else {
                    usize::MAX as int
                }),
            decreases b.bids.len() - k,
        {
            proof {
                assert(b.bids[k as int] == self.bids@[k as int]@);
                assert(b.bids.take(k + 1) =~= b.bids.take(k as int).insert(
                    k as int,
                    b.bids[k as int],
                ));
                crate::model::lemma_side_qty_insert(b.bids.take(k as int), k as int, b.bids[k as int]);
            }
            let l = self.bids[k].len();
            total = if usize::MAX - total < l {
                usize::MAX
            } else {
                total + l
            };
            k = k + 1;
        }
        proof {
            assert(b.bids.take(b.bids.len() as int) =~= b.bids);
        }
        let mut k: usize = 0;
        while k < self.asks.len()
            invariant
                b == self@,
                self.wf(),
                0 <= k <= b.asks.len(),
                side_count(b.bids) >= 0,
                side_count(b.asks.take(k as int)) >= 0,
                total == (if side_count(b.bids) + side_count(b.asks.take(k as int)) <= usize::MAX {
                    side_count(b.bids) + side_count(b.asks.take(k as int))
                } else {
                    usize::MAX as int
                }),
            decreases b.asks.len() - k,
        {
            proof {
                assert(b.asks[k as int] == self.asks@[k as int]@);
                assert(b.asks.take(k + 1) =~= b.asks.take(k as int).insert(
                    k as int,
                    b.asks[k as int],
                ));
                crate::model::lemma_side_qty_insert(b.asks.take(k as int), k as int, b.asks[k as int]);
            }
            let l = self.asks[k].len();
            total = if usize::MAX - total < l {
                usize::MAX
            } else {
                total + l
            };
            k = k + 1;
        }
        proof {
            assert(b.asks.take(b.asks.len() as int) =~= b.asks);
        }
        total
    }

    /// The number of levels on each side, bids first.
    pub fn get_total_price_levels(&self) -> (r: (usize, usize))
        ensures
            r.0 == self@.bids.len(),
            r.1 == self@.asks.len(),
    {
        (self.bids.len(), self.asks.len())
    }

    /// Empties both sides and resets the statistics to their zero state.
    /// The id allocator keeps its position: ids are never reused.
    pub fn clear(&mut self)
        requires
            old(self).wf(),
        ensures
            final(self).wf(),
            final(self)@.bids.len() == 0,
            final(self)@.asks.len() == 0,
            final(self)@.next_order_id == old(self)@.next_order_id,
            final(self)@.stats == zero_stats(),
    {
        self.bids.clear();
        self.asks.clear();
        self.stats = OrderBookStats::new();
        proof {
            assert(level_views(self.bids@) =~= Seq::<LevelModel>::empty());
            assert(level_views(self.asks@) =~= Seq::<LevelModel>::empty());
        }
    }

    /// Scans a side's levels for the order with the given id, removing it
    /// and pruning its level if that empties it.
    fn remove_scan(side_vec: &mut Vec<PriceLevel>, order_id: u64) -> (r: Option<Order>)
        requires
            forall|i: int| 0 <= i < old(side_vec)@.len() ==> (#[trigger] old(side_vec)@[i]).wf(),
            forall|k: int|
                0 <= k < old(side_vec)@.len() ==> level_wf(#[trigger] level_views(old(side_vec)@)[k]),
            ids_distinct(level_views(old(side_vec)@)),
        ensures
            forall|i: int| 0 <= i < final(side_vec)@.len() ==> (#[trigger] final(side_vec)@[i]).wf(),
            level_views(final(side_vec)@) == remove_from_side(level_views(old(side_vec)@), order_id),
            r == (if side_contains_id(level_views(old(side_vec)@), order_id) {
                Some(side_found_order(level_views(old(side_vec)@), order_id))
            } else {
                None::<Order>
            }),
    {
        let ghost vs = level_views(old(side_vec)@);
        let mut k: usize = 0;
        while k < side_vec.len()
            invariant
                vs == level_views(old(side_vec)@),
                vs == level_views(side_vec@),
                vs.len() == side_vec@.len(),
                forall|i: int| 0 <= i < side_vec@.len() ==> (#[trigger] side_vec@[i]).wf(),
                forall|k2: int| 0 <= k2 < vs.len() ==> level_wf(#[trigger] vs[k2]),
                ids_distinct(vs),
                0 <= k <= vs.len(),
                forall|k2: int| 0 <= k2 < k ==> !contains_id(#[trigger] vs[k2].orders, order_id),
            decreases vs.len() - k,
        {
            let ghost pre = side_vec@;
            let found = side_vec[k].remove_order(order_id);
            match found {
                Some(o) => {
                    proof {
                        assert(vs[k as int] == pre[k as int]@);
                        assert(contains_id(vs[k as int].orders, order_id));
                        lemma_find_level_idx(vs, order_id);
                        if find_level_idx(vs, order_id) < k {
                            assert(false);
                        }
                        if find_level_idx(vs, order_id) > k {
                            assert(!contains_id(vs[k as int].orders, order_id));
                        }
                        assert(find_level_idx(vs, order_id) == k);
                        assert(o == side_found_order(vs, order_id));
                    }
                    let emptied = side_vec[k].is_empty();
                    if emptied {
                        side_vec.remove(k);
                        proof {
                            assert(level_views(side_vec@) =~= remove_from_side(vs, order_id));
                            assert forall|i: int|
                                0 <= i < side_vec@.len() implies (
                            #[trigger] side_vec@[i]).wf() by {
                                if i < k {
                                    assert(side_vec@[i] == pre[i]);
                                } else {
                                    assert(side_vec@[i] == pre[i + 1]);
                                }
                            }
                        }
                    } else {
                        proof {
                            assert(level_views(side_vec@) =~= remove_from_side(vs, order_id));
                        }
                    }
                    return Some(o);
                },
                None => {
                    proof {
                        assert(vs[k as int] == pre[k as int]@);
                        assert(!contains_id(vs[k as int].orders, order_id));
                        assert(level_views(side_vec@) =~= vs);
                    }
                },
            }
            k = k + 1;
        }
        proof {
            lemma_find_level_idx(vs, order_id);
            assert(!side_contains_id(vs, order_id));
        }
        None
    }

    /// Scans a side's levels for the order with the given id, replacing
    /// its remaining quantity.
    fn update_scan(side_vec: &mut Vec<PriceLevel>, order_id: u64, new_quantity: u64) -> (r: bool)
        requires
            forall|i: int| 0 <= i < old(side_vec)@.len() ==> (#[trigger] old(side_vec)@[i]).wf(),
            forall|k: int|
                0 <= k < old(side_vec)@.len() ==> level_wf(#[trigger] level_views(old(side_vec)@)[k]),
            ids_distinct(level_views(old(side_vec)@)),
            new_quantity > 0,
            forall|k: int|
                0 <= k < old(side_vec)@.len() ==> sum_qty(
                    (#[trigger] level_views(old(side_vec)@)[k]).orders,
                ) + new_quantity <= u128::MAX,
        ensures
            forall|i: int| 0 <= i < final(side_vec)@.len() ==> (#[trigger] final(side_vec)@[i]).wf(),
            level_views(final(side_vec)@) == update_in_side(
                level_views(old(side_vec)@),
                order_id,
                new_quantity,
            ),
            r == side_contains_id(level_views(old(side_vec)@), order_id),
    {
        let ghost vs = level_views(old(side_vec)@);
        let mut k: usize = 0;
        while k < side_vec.len()
            invariant
                vs == level_views(old(side_vec)@),
                vs == level_views(side_vec@),
                vs.len() == side_vec@.len(),
                forall|i: int| 0 <= i < side_vec@.len() ==> (#[trigger] side_vec@[i]).wf(),
                forall|k2: int| 0 <= k2 < vs.len() ==> level_wf(#[trigger] vs[k2]),
                ids_distinct(vs),
                new_quantity > 0,
                forall|k2: int|
                    0 <= k2 < vs.len() ==> sum_qty((#[trigger] vs[k2]).orders) + new_quantity
                        <= u128::MAX,
                0 <= k <= vs.len(),
                forall|k2: int| 0 <= k2 < k ==> !contains_id(#[trigger] vs[k2].orders, order_id),
            decreases vs.len() - k,
        {
            let ghost pre = side_vec@;
            proof {
                assert(vs[k as int] == pre[k as int]@);
            }
            let found = side_vec[k].update_order(order_id, new_quantity);
            if found {
                proof {
                    assert(contains_id(vs[k as int].orders, order_id));
                    lemma_find_level_idx(vs, order_id);
                    if find_level_idx(vs, order_id) < k {
                        assert(false);
                    }
                    if find_level_idx(vs, order_id) > k {
                        assert(!contains_id(vs[k as int].orders, order_id));
                    }
                    assert(find_level_idx(vs, order_id) == k);
                    assert(level_views(side_vec@) =~= update_in_side(vs, order_id, new_quantity));
                }
                return true;
            }
            proof {
                assert(!contains_id(vs[k as int].orders, order_id));
                assert(level_views(side_vec@) =~= vs);
            }
            k = k + 1;
        }
        proof {
            lemma_find_level_idx(vs, order_id);
            assert(!side_contains_id(vs, order_id));
        }
        false
    }

    /// Removes the order with the given id from whichever side holds it,
    /// pruning its level if emptied and counting the cancellation.
    /// Idempotent: a second call with the same id is a no-op returning
    /// nothing, and moves no statistic.
    pub fn remove_order(&mut self, order_id: u64) -> (r: Option<Order>)
        requires
            old(self).wf(),
        ensures
            final(self).wf(),
            final(self)@ == spec_remove_order(old(self)@, order_id),
            r == (if book_contains_id(old(self)@, order_id) {
                Some(book_found_order(old(self)@, order_id))
            } else {
                None::<Order>
            }),
            !book_contains_id(final(self)@, order_id),
    {
        let ghost b0 = self@;
        proof {
            lemma_remove_from_side_preserves(
                b0.bids,
                b0.asks,
                order_id,
                OrderSide::Bid,
                true,
                b0.next_order_id as int,
            );
        }
        let mut r = Self::remove_scan(&mut self.bids, order_id);
        if r.is_none() {
            proof {
                lemma_remove_from_side_preserves(
                    b0.asks,
                    b0.bids,
                    order_id,
                    OrderSide::Ask,
                    false,
                    b0.next_order_id as int,
                );
            }
            r = Self::remove_scan(&mut self.asks, order_id);
        }
        if r.is_some() {
            self.stats.total_orders_cancelled = sat_add64(self.stats.total_orders_cancelled, 1);
            self.update_stats_internal();
        }
        proof {
            if side_contains_id(b0.bids, order_id) {
                assert(self@ =~= spec_remove_order(b0, order_id));
            } else if side_contains_id(b0.asks, order_id) {
                assert(self@ =~= spec_remove_order(b0, order_id));
                assert(sides_disjoint(self@.bids, self@.asks)) by {
                    assert forall|k1: int, j1: int, k2: int, j2: int|
                        0 <= k1 < self@.bids.len() && 0 <= j1 < self@.bids[k1].orders.len() && 0
                            <= k2 < self@.asks.len() && 0 <= j2
                            < self@.asks[k2].orders.len() implies (
                    #[trigger] self@.bids[k1].orders[j1].id) != (
                    #[trigger] self@.asks[k2].orders[j2].id) by {
                        assert(sides_disjoint(self@.asks, self@.bids));
                    }
                }
            } else {
                assert(self@ =~= b0);
            }
            if book_contains_id(self@, order_id) {
                if side_contains_id(b0.bids, order_id) {
                    assert(!side_contains_id(self@.bids, order_id));
                    assert(side_contains_id(b0.asks, order_id)) by {
                        let k = choose|k: int|
                            0 <= k < self@.asks.len() && contains_id(self@.asks[k].orders, order_id);
                        assert(contains_id(b0.asks[k].orders, order_id));
                    }
                    assert(false) by {
                        let k1 = choose|k1: int|
                            0 <= k1 < b0.bids.len() && contains_id(b0.bids[k1].orders, order_id);
                        let j1 = choose|j1: int|
                            0 <= j1 < b0.bids[k1].orders.len() && b0.bids[k1].orders[j1].id
                                == order_id;
                        let k2 = choose|k2: int|
                            0 <= k2 < b0.asks.len() && contains_id(b0.asks[k2].orders, order_id);
                        let j2 = choose|j2: int|
                            0 <= j2 < b0.asks[k2].orders.len() && b0.asks[k2].orders[j2].id
                                == order_id;
                        assert(b0.bids[k1].orders[j1].id != b0.asks[k2].orders[j2].id);
                    }
                } else if side_contains_id(b0.asks, order_id) {
                    assert(!side_contains_id(self@.asks, order_id));
                    assert(!side_contains_id(self@.bids, order_id)) by {
                        if side_contains_id(self@.bids, order_id) {
                            assert(side_contains_id(b0.bids, order_id));
                        }
                    }
                } else {
                    assert(self@.bids == b0.bids && self@.asks == b0.asks);
                }
            }
        }
        r
    }

    /// Replaces the remaining quantity of the order with the given id,
    /// wherever it rests; reports whether the order was found.
    pub fn update_order(&mut self, order_id: u64, new_quantity: u64) -> (r: bool)
        requires
            old(self).wf(),
            new_quantity > 0,
        ensures
            final(self).wf(),
            final(self)@ == spec_update_order(old(self)@, order_id, new_quantity),
            r == book_contains_id(old(self)@, order_id),
    {
        let ghost b0 = self@;
        proof {
            assert forall|k: int|
                0 <= k < b0.bids.len() implies sum_qty((#[trigger] b0.bids[k]).orders)
                + new_quantity <= u128::MAX by {
                assert(level_wf(b0.bids[k]));
                assert forall|j: int|
                    0 <= j < b0.bids[k].orders.len() implies (
                #[trigger] b0.bids[k].orders[j].id) < b0.next_order_id as int by {}
                lemma_level_sum_bound(b0.bids[k], b0.next_order_id as int);
            }
            assert forall|k: int|
                0 <= k < b0.asks.len() implies sum_qty((#[trigger] b0.asks[k]).orders)
                + new_quantity <= u128::MAX by {
                assert(level_wf(b0.asks[k]));
                lemma_level_sum_bound(b0.asks[k], b0.next_order_id as int);
            }
            lemma_update_in_side_preserves(
                b0.bids,
                b0.asks,
                order_id,
                new_quantity,
                OrderSide::Bid,
                true,
                b0.next_order_id as int,
            );
        }
        let mut r = Self::update_scan(&mut self.bids, order_id, new_quantity);
        if !r {
            proof {
                lemma_update_in_side_preserves(
                    b0.asks,
                    b0.bids,
                    order_id,
                    new_quantity,
                    OrderSide::Ask,
                    false,
                    b0.next_order_id as int,
                );
            }
            r = Self::update_scan(&mut self.asks, order_id, new_quantity);
        }
        if r {
            self.update_stats_internal();
        }
        proof {
            if side_contains_id(b0.bids, order_id) {
                assert(self@ =~= spec_update_order(b0, order_id, new_quantity));
            } else if side_contains_id(b0.asks, order_id) {
                assert(self@ =~= spec_update_order(b0, order_id, new_quantity));
                assert(sides_disjoint(self@.bids, self@.asks)) by {
                    assert forall|k1: int, j1: int, k2: int, j2: int|
                        0 <= k1 < self@.bids.len() && 0 <= j1 < self@.bids[k1].orders.len() && 0
                            <= k2 < self@.asks.len() && 0 <= j2
                            < self@.asks[k2].orders.len() implies (
                    #[trigger] self@.bids[k1].orders[j1].id) != (
                    #[trigger] self@.asks[k2].orders[j2].id) by {
                        assert(sides_disjoint(self@.asks, self@.bids));
                    }
                }
            } else {
                assert(self@ =~= b0);
            }
        }
        r
    }

    /// A copy of the resting order with the given id, if any.
    pub fn get_order(&self, order_id: u64) -> (r: Option<Order>)
        requires
            self.wf(),
        ensures
            r == (if book_contains_id(self@, order_id) {
                Some(book_found_order(self@, order_id))
            } else {
                None::<Order>
            }),
    {
        let ghost b = self@;
        let mut k: usize = 0;
        while k < self.bids.len()
            invariant
                b == self@,
                self.wf(),
                0 <= k <= b.bids.len(),
                forall|k2: int| 0 <= k2 < k ==> !contains_id(#[trigger] b.bids[k2].orders, order_id),
            decreases b.bids.len() - k,
        {
            proof {
                assert(b.bids[k as int] == self.bids@[k as int]@);
            }
            let found = self.bids[k].get_order(order_id);
            if let Some(o) = found {
                proof {
                    lemma_find_level_idx(b.bids, order_id);
                    if find_level_idx(b.bids, order_id) < k {
                        assert(false);
                    }
                    if find_level_idx(b.bids, order_id) > k {
                        assert(!contains_id(b.bids[k as int].orders, order_id));
                    }
                }
                return Some(o);
            }
            k = k + 1;
        }
        proof {
            lemma_find_level_idx(b.bids, order_id);
            assert(!side_contains_id(b.bids, order_id));
        }
        let mut k: usize = 0;
        while k < self.asks.len()
            invariant
                b == self@,
                self.wf(),
                !side_contains_id(b.bids, order_id),
                0 <= k <= b.asks.len(),
                forall|k2: int| 0 <= k2 < k ==> !contains_id(#[trigger] b.asks[k2].orders, order_id),
            decreases b.asks.len() - k,
        {
            proof {
                assert(b.asks[k as int] == self.asks@[k as int]@);
            }
            let found = self.asks[k].get_order(order_id);
            if let Some(o) = found {
                proof {
                    lemma_find_level_idx(b.asks, order_id);
                    if find_level_idx(b.asks, order_id) < k {
                        assert(false);
                    }
                    if find_level_idx(b.asks, order_id) > k {
                        assert(!contains_id(b.asks[k as int].orders, order_id));
                    }
                }
                return Some(o);
            }
            k = k + 1;
        }
        proof {
            lemma_find_level_idx(b.asks, order_id);
            assert(!side_contains_id(b.asks, order_id));
        }
        None
    }

    /// Up to `levels` levels of (price, aggregate quantity) per side, bids
    /// highest first, asks lowest first.
    pub fn get_market_depth(&self, levels: usize) -> (r: (Vec<(Price, u128)>, Vec<(Price, u128)>))
        requires
            self.wf(),
        ensures
            r.0@.len() == (if levels <= self@.bids.len() {
                levels as int
            } else {
                self@.bids.len() as int
            }),
            r.1@.len() == (if levels <= self@.asks.len() {
                levels as int
            } else {
                self@.asks.len() as int
            }),
            forall|i: int|
                0 <= i < r.0@.len() ==> (#[trigger] r.0@[i]) == (
                Price { ticks: self@.bids[i].price },
                sum_qty(self@.bids[i].orders) as u128,
            ),
            forall|i: int|
                0 <= i < r.1@.len() ==> (#[trigger] r.1@[i]) == (
                Price { ticks: self@.asks[i].price },
                sum_qty(self@.asks[i].orders) as u128,
            ),
    {
        let ghost b = self@;
        let mut bids_out: Vec<(Price, u128)> = Vec::new();
        let mut i: usize = 0;
        while i < levels && i < self.bids.len()
            invariant
                b == self@,
                self.wf(),
                0 <= i <= b.bids.len(),
                i <= levels,
                bids_out@.len() == i,
                forall|j: int|
                    0 <= j < i ==> (#[trigger] bids_out@[j]) == (
                    Price { ticks: b.bids[j].price },
                    sum_qty(b.bids[j].orders) as u128,
                ),
            decreases b.bids.len() - i,
        {
            proof {
                assert(b.bids[i as int] == self.bids@[i as int]@);
                assert(level_wf(b.bids[i as int]));
                lemma_sum_qty_nonneg(b.bids[i as int].orders);
            }
            let q = self.bids[i].get_total_quantity();
            bids_out.push((self.bids[i].price, q));
            i = i + 1;
        }
        let mut asks_out: Vec<(Price, u128)> = Vec::new();
        let mut i: usize = 0;
        while i < levels && i < self.asks.len()
            invariant
                b == self@,
                self.wf(),
                0 <= i <= b.asks.len(),
                i <= levels,
                asks_out@.len() == i,
                forall|j: int|
                    0 <= j < i ==> (#[trigger] asks_out@[j]) == (
                    Price { ticks: b.asks[j].price },
                    sum_qty(b.asks[j].orders) as u128,
                ),
            decreases b.asks.len() - i,
        {
            proof {
                assert(b.asks[i as int] == self.asks@[i as int]@);
                assert(level_wf(b.asks[i as int]));
                lemma_sum_qty_nonneg(b.asks[i as int].orders);
            }
            let q = self.asks[i].get_total_quantity();
            asks_out.push((self.asks[i].price, q));
            i = i + 1;
        }
        (bids_out, asks_out)
    }

    /// The cumulative traded volume after a list of trades, each adding
    /// its notional (price in ticks times quantity), saturating at the
    /// counter's maximum.
    fn volume_after(vol0: u128, trades: &Vec<Trade>) -> (r: u128)
        ensures
            r as int == (if vol0 + trades_notional(trades@) > u128::MAX {
                u128::MAX as int
            } else {
                vol0 + trades_notional(trades@)
            }),
    {
        let mut vol = vol0;
        let mut i: usize = 0;
        while i < trades.len()
            invariant
                0 <= i <= trades@.len(),
                trades_notional(trades@.take(i as int)) >= 0,
                vol as int == (if vol0 + trades_notional(trades@.take(i as int)) > u128::MAX {
                    u128::MAX as int
                } else {
                    vol0 + trades_notional(trades@.take(i as int))
                }),
            decreases trades@.len() - i,
        {
            let t = trades[i];
            proof {
                assert(t.price.ticks * t.quantity <= (u64::MAX as int) * (u64::MAX as int)
                    && t.price.ticks * t.quantity >= 0 && (u64::MAX as int) * (u64::MAX as int)
                    < u128::MAX as int) by (nonlinear_arith)
                    requires
                        t.price.ticks <= u64::MAX,
                        t.quantity <= u64::MAX,
                ;
                assert(trades@.take(i + 1) =~= trades@.take(i as int).push(t));
                lemma_trades_push(trades@.take(i as int), t);
                lemma_trades_nonneg(trades@.take(i as int));
            }
            let notional: u128 = (t.price.ticks as u128) * (t.quantity as u128);
            vol = sat_add128(vol, notional);
            i = i + 1;
        }
        proof {
            assert(trades@.take(trades@.len() as int) =~= trades@);
        }
        vol
    }

    /// Runs the continuous matching sweep: while a cross exists (best bid
    /// at or above best ask) and an iteration cap of 1000 trades has not
    /// been reached, the head orders of the two best levels trade for the
    /// smaller of their remaining quantities, at the price of whichever
    /// side arrived earlier. Fully consumed orders leave their level and
    /// emptied levels leave the book. The cap is a liveness backstop: a
    /// sweep that stops below it leaves the book uncrossed.
    #[verifier::rlimit(100)]
    #[verifier::spinoff_prover]
    pub fn match_orders(&mut self) -> (trades: Vec<Trade>)
        requires
            old(self).wf(),
        ensures
            final(self).wf(),
            trades@.len() <= 1000,
            trades@.len() < 1000 ==> !crossed(final(self)@),
            (trades@.len() == 0) <==> !crossed(old(self)@),
            trades@.len() == 0 ==> final(self)@ == old(self)@,
            trades@.len() > 0 ==> trades@[0] == sweep_first_trade(old(self)@),
            forall|i: int| 0 <= i < trades@.len() ==> (#[trigger] trades@[i]).quantity > 0,
            final(self)@.next_order_id == old(self)@.next_order_id,
            side_qty(old(self)@.bids) - side_qty(final(self)@.bids) == trades_qty(trades@),
            side_qty(old(self)@.asks) - side_qty(final(self)@.asks) == trades_qty(trades@),
            final(self)@.stats.total_orders_created == old(self)@.stats.total_orders_created,
            final(self)@.stats.total_orders_cancelled == old(self)@.stats.total_orders_cancelled,
            trades@.len() > 0 ==> final(self)@.stats.total_orders_matched == sat_add_u64(
                old(self)@.stats.total_orders_matched,
                trades@.len() as u64,
            ),
            trades@.len() > 0 ==> final(self)@.stats.total_volume_traded as int == (if old(
                self,
            )@.stats.total_volume_traded + trades_notional(trades@) > u128::MAX {
                u128::MAX as int
            } else {
                old(self)@.stats.total_volume_traded + trades_notional(trades@)
            }),
            trades@.len() > 0 ==> final(self)@.stats.last_match_time is Some,
            trades@ == spec_sweep(old(self)@.bids, old(self)@.asks, 1000).0,
            final(self)@.bids == spec_sweep(old(self)@.bids, old(self)@.asks, 1000).1,
            final(self)@.asks == spec_sweep(old(self)@.bids, old(self)@.asks, 1000).2,
    {
        let ghost b0 = old(self)@;
        let mut trades: Vec<Trade> = Vec::new();
        let mut iteration_count: usize = 0;
        loop
            invariant_except_break
                iteration_count == trades@.len(),
                iteration_count <= 1000,
            invariant
                forall|i: int| 0 <= i < self.bids@.len() ==> (#[trigger] self.bids@[i]).wf(),
                forall|i: int| 0 <= i < self.asks@.len() ==> (#[trigger] self.asks@[i]).wf(),
                book_core_wf(self@),
                self@.next_order_id == b0.next_order_id,
                self@.stats == b0.stats,
                side_qty(b0.bids) - side_qty(self@.bids) == trades_qty(trades@),
                side_qty(b0.asks) - side_qty(self@.asks) == trades_qty(trades@),
                trades@.len() == 0 ==> self@ == b0,
                trades@.len() > 0 ==> crossed(b0) && trades@[0] == sweep_first_trade(b0),
                forall|i: int| 0 <= i < trades@.len() ==> (#[trigger] trades@[i]).quantity > 0,
                trades@.len() <= 1000,
                spec_sweep(b0.bids, b0.asks, 1000).0 == trades@ + spec_sweep(
                    self@.bids,
                    self@.asks,
                    1000 - trades@.len(),
                ).0,
                spec_sweep(b0.bids, b0.asks, 1000).1 == spec_sweep(
                    self@.bids,
                    self@.asks,
                    1000 - trades@.len(),
                ).1,
                spec_sweep(b0.bids, b0.asks, 1000).2 == spec_sweep(
                    self@.bids,
                    self@.asks,
                    1000 - trades@.len(),
                ).2,
            ensures
                forall|i: int| 0 <= i < self.bids@.len() ==> (#[trigger] self.bids@[i]).wf(),
                forall|i: int| 0 <= i < self.asks@.len() ==> (#[trigger] self.asks@[i]).wf(),
                book_core_wf(self@),
                self@.next_order_id == b0.next_order_id,
                self@.stats == b0.stats,
                side_qty(b0.bids) - side_qty(self@.bids) == trades_qty(trades@),
                side_qty(b0.asks) - side_qty(self@.asks) == trades_qty(trades@),
                trades@.len() == 0 ==> self@ == b0,
                trades@.len() > 0 ==> crossed(b0) && trades@[0] == sweep_first_trade(b0),
                forall|i: int| 0 <= i < trades@.len() ==> (#[trigger] trades@[i]).quantity > 0,
                trades@.len() <= 1000,
                trades@.len() < 1000 ==> !crossed(self@),
                spec_sweep(b0.bids, b0.asks, 1000).0 == trades@ + spec_sweep(
                    self@.bids,
                    self@.asks,
                    1000 - trades@.len(),
                ).0,
                spec_sweep(b0.bids, b0.asks, 1000).1 == spec_sweep(
                    self@.bids,
                    self@.asks,
                    1000 - trades@.len(),
                ).1,
                spec_sweep(b0.bids, b0.asks, 1000).2 == spec_sweep(
                    self@.bids,
                    self@.asks,
                    1000 - trades@.len(),
                ).2,
            decreases 1001 - iteration_count,
        {
            iteration_count = iteration_count + 1;
            if iteration_count > 1000 {
                break ;
            }
            if self.bids.len() == 0 || self.asks.len() == 0 {
                break ;
            }
            let ghost cur = self@;
            let bid_ticks = self.bids[0].price.ticks;
            let ask_ticks = self.asks[0].price.ticks;
            proof {
                assert(cur.bids[0] == self.bids@[0]@);
                assert(cur.asks[0] == self.asks@[0]@);
                assert(level_wf(cur.bids[0]));
                assert(level_wf(cur.asks[0]));
            }
            if bid_ticks < ask_ticks {
                break ;
            }
            let bid_first = self.bids[0].get_first_order();
            let ask_first = self.asks[0].get_first_order();
            let (bo, ao) = match (bid_first, ask_first) {
                (Some(bo), Some(ao)) => (bo, ao),
                _ => {
                    proof {
                        assert(false);
                    }
                    break ;
                },
            };
            let trade_quantity = if bo.quantity <= ao.quantity {
                bo.quantity
            } else {
                ao.quantity
            };
            let trade_price = if bo.timestamp <= ao.timestamp {
                bid_ticks
            } else {
                ask_ticks
            };
            let trade = Trade {
                bid_order_id: bo.id,
                ask_order_id: ao.id,
                price: Price { ticks: trade_price },
                quantity: trade_quantity,
                timestamp: if bo.timestamp <= ao.timestamp {
                    bo.timestamp
                } else {
                    ao.timestamp
                },
            };
            proof {
                assert(bo == cur.bids[0].orders[0]);
                assert(ao == cur.asks[0].orders[0]);
                if trades@.len() == 0 {
                    assert(cur == b0);
                    assert(trade == sweep_first_trade(b0));
                }
                lemma_trades_push(trades@, trade);
            }
            let ghost pre_trades = trades@;
            trades.push(trade);
            let ghost bound = cur.next_order_id as int;
            // consume or shrink the bid head
            proof {
                assert(contains_id(cur.bids[0].orders, bo.id));
                lemma_find_level_idx(cur.bids, bo.id);
                if find_level_idx(cur.bids, bo.id) != 0 {
                    assert(!contains_id(cur.bids[0].orders, bo.id));
                }
                lemma_find_order_idx_unique(cur.bids[0].orders, bo.id, 0);
                lemma_remove_from_side_preserves(
                    cur.bids,
                    cur.asks,
                    bo.id,
                    OrderSide::Bid,
                    true,
                    bound,
                );
                if bo.quantity > trade_quantity {
                    lemma_update_in_side_preserves(
                        cur.bids,
                        cur.asks,
                        bo.id,
                        (bo.quantity - trade_quantity) as u64,
                        OrderSide::Bid,
                        true,
                        bound,
                    );
                }
                lemma_level_sum_bound(cur.bids[0], bound);
            }
            if bo.quantity <= ao.quantity {
                let lvl = &mut self.bids[0];
                lvl.remove_first_order();
                let emptied = self.bids[0].is_empty();
                if emptied {
                    self.bids.remove(0);
                }
                proof {
                    assert(cur.bids[0].orders.remove(0) =~= cur.bids[0].orders.drop_first());
                    assert(level_views(self.bids@) =~= remove_from_side(cur.bids, bo.id));
                    if cur.bids[0].orders.len() == 1 {
                        assert(cur.bids.remove(0) =~= cur.bids.drop_first());
                    }
                    assert(level_views(self.bids@) == pop_head(cur.bids));
                    assert forall|i: int|
                        0 <= i < self.bids@.len() implies (#[trigger] self.bids@[i]).wf() by {}
                }
            } else {
                let new_q = bo.quantity - trade_quantity;
                let lvl = &mut self.bids[0];
                lvl.update_order(bo.id, new_q);
                proof {
                    assert(level_views(self.bids@) =~= update_in_side(cur.bids, bo.id, new_q));
                    assert(level_views(self.bids@) == shrink_head(cur.bids, new_q));
                }
            }
            let ghost mid = self@;
            proof {
                assert(mid.asks == cur.asks);
                assert(side_qty(mid.bids) == side_qty(cur.bids) - trade_quantity);
                assert(side_wf(mid.bids, OrderSide::Bid, true, bound));
                assert(sides_disjoint(mid.asks, mid.bids)) by {
                    assert forall|k1: int, j1: int, k2: int, j2: int|
                        0 <= k1 < mid.asks.len() && 0 <= j1 < mid.asks[k1].orders.len() && 0 <= k2
                            < mid.bids.len() && 0 <= j2 < mid.bids[k2].orders.len() implies (
                    #[trigger] mid.asks[k1].orders[j1].id) != (
                    #[trigger] mid.bids[k2].orders[j2].id) by {
                        assert(sides_disjoint(mid.bids, mid.asks));
                    }
                }
                // now the ask head
                assert(contains_id(mid.asks[0].orders, ao.id));
                lemma_find_level_idx(mid.asks, ao.id);
                if find_level_idx(mid.asks, ao.id) != 0 {
                    assert(!contains_id(mid.asks[0].orders, ao.id));
                }
                lemma_find_order_idx_unique(mid.asks[0].orders, ao.id, 0);
                lemma_remove_from_side_preserves(
                    mid.asks,
                    mid.bids,
                    ao.id,
                    OrderSide::Ask,
                    false,
                    bound,
                );
                if ao.quantity > trade_quantity {
                    lemma_update_in_side_preserves(
                        mid.asks,
                        mid.bids,
                        ao.id,
                        (ao.quantity - trade_quantity) as u64,
                        OrderSide::Ask,
                        false,
                        bound,
                    );
                }
                lemma_level_sum_bound(mid.asks[0], bound);
            }
            if ao.quantity <= bo.quantity {
                let lvl = &mut self.asks[0];
                lvl.remove_first_order();
                let emptied = self.asks[0].is_empty();
                if emptied {
                    self.asks.remove(0);
                }
                proof {
                    assert(mid.asks[0].orders.remove(0) =~= mid.asks[0].orders.drop_first());
                    assert(level_views(self.asks@) =~= remove_from_side(mid.asks, ao.id));
                    if mid.asks[0].orders.len() == 1 {
                        assert(mid.asks.remove(0) =~= mid.asks.drop_first());
                    }
                    assert(level_views(self.asks@) == pop_head(cur.asks));
                }
            } else {
                let new_q = ao.quantity - trade_quantity;
                let lvl = &mut self.asks[0];
                lvl.update_order(ao.id, new_q);
                proof {
                    assert(level_views(self.asks@) =~= update_in_side(mid.asks, ao.id, new_q));
                    assert(level_views(self.asks@) == shrink_head(cur.asks, new_q));
                }
            }
            proof {
                assert(self@.bids == mid.bids);
                assert(side_qty(self@.asks) == side_qty(mid.asks) - trade_quantity);
                assert(side_wf(self@.asks, OrderSide::Ask, false, bound));
                assert(sides_disjoint(self@.bids, self@.asks)) by {
                    assert forall|k1: int, j1: int, k2: int, j2: int|
                        0 <= k1 < self@.bids.len() && 0 <= j1 < self@.bids[k1].orders.len() && 0
                            <= k2 < self@.asks.len() && 0 <= j2
                            < self@.asks[k2].orders.len() implies (
                    #[trigger] self@.bids[k1].orders[j1].id) != (
                    #[trigger] self@.asks[k2].orders[j2].id) by {
                        assert(sides_disjoint(self@.asks, self@.bids));
                    }
                }
                // one step of the full-sweep specification
                let fuel0 = 1000 - pre_trades.len();
                assert(fuel0 >= 1);
                let step = spec_sweep(cur.bids, cur.asks, fuel0 as int);
                assert(cur.bids[0].orders[0].quantity > 0);
                assert(min_u64(bo.quantity, ao.quantity) == trade_quantity);
                let rest = spec_sweep(self@.bids, self@.asks, fuel0 as int - 1);
                assert(step.0 == seq![trade] + rest.0);
                assert(step.1 == rest.1);
                assert(step.2 == rest.2);
                assert(pre_trades + (seq![trade] + rest.0) =~= trades@ + rest.0);
            }
        }
        proof {
            let fuel = 1000 - trades@.len();
            assert(spec_sweep(self@.bids, self@.asks, fuel as int) == (
                Seq::<Trade>::empty(),
                self@.bids,
                self@.asks,
            ));
            assert(trades@ + Seq::<Trade>::empty() =~= trades@);
        }
        if trades.len() > 0 {
            let n = trades.len();
            self.stats.total_orders_matched = sat_add64(
                self.stats.total_orders_matched,
                n as u64,
            );
            self.stats.total_volume_traded = Self::volume_after(
                self.stats.total_volume_traded,
                &trades,
            );
            self.stats.last_match_time = Some(crate::clock::now_millis());
            self.update_stats_internal();
        }
        trades
    }

    /// Walks one side of resting orders from its best level outward,
    /// trading the taker order against head orders at their resting
    /// prices, until the taker is filled or the side is exhausted.
    /// Returns the trades and the unfilled remainder.
    fn consume_levels(
        side_vec: &mut Vec<PriceLevel>,
        taker: Order,
        resting_side: OrderSide,
        Ghost(other): Ghost<Seq<LevelModel>>,
        Ghost(bound): Ghost<int>,
    ) -> (res: (Vec<Trade>, u64))
        requires
            forall|i: int| 0 <= i < old(side_vec)@.len() ==> (#[trigger] old(side_vec)@[i]).wf(),
            side_wf(
                level_views(old(side_vec)@),
                resting_side,
                resting_side == OrderSide::Bid,
                bound,
            ),
            sides_disjoint(level_views(old(side_vec)@), other),
            0 <= bound <= u64::MAX,
        ensures
            forall|i: int| 0 <= i < final(side_vec)@.len() ==> (#[trigger] final(side_vec)@[i]).wf(),
            side_wf(
                level_views(final(side_vec)@),
                resting_side,
                resting_side == OrderSide::Bid,
                bound,
            ),
            sides_disjoint(level_views(final(side_vec)@), other),
            res.1 <= taker.quantity,
            trades_qty(res.0@) == taker.quantity - res.1,
            side_qty(level_views(old(side_vec)@)) - side_qty(level_views(final(side_vec)@))
                == trades_qty(res.0@),
            res.1 == 0 || level_views(final(side_vec)@).len() == 0,
            (res.0@.len() == 0) <==> (taker.quantity == 0 || level_views(old(side_vec)@).len()
                == 0),
            res.0@.len() == 0 ==> level_views(final(side_vec)@) == level_views(old(side_vec)@),
            res.0@.len() > 0 ==> res.0@[0] == taker_first_trade(
                level_views(old(side_vec)@),
                taker,
                resting_side,
            ),
            forall|i: int| 0 <= i < res.0@.len() ==> (#[trigger] res.0@[i]).quantity > 0,
            forall|i: int|
                0 <= i < res.0@.len() ==> (if resting_side == OrderSide::Ask {
                    (#[trigger] res.0@[i]).bid_order_id == taker.id
                } else {
                    res.0@[i].ask_order_id == taker.id
                }),
            res.0@ == spec_consume(
                level_views(old(side_vec)@),
                taker,
                resting_side,
                taker.quantity,
            ).0,
            level_views(final(side_vec)@) == spec_consume(
                level_views(old(side_vec)@),
                taker,
                resting_side,
                taker.quantity,
            ).1,
    {
        let ghost vs0 = level_views(old(side_vec)@);
        let mut trades: Vec<Trade> = Vec::new();
        let mut remaining: u64 = taker.quantity;
        loop
            invariant
                forall|i: int| 0 <= i < side_vec@.len() ==> (#[trigger] side_vec@[i]).wf(),
                vs0 == level_views(old(side_vec)@),
                0 <= bound <= u64::MAX,
                side_wf(
                    level_views(side_vec@),
                    resting_side,
                    resting_side == OrderSide::Bid,
                    bound,
                ),
                sides_disjoint(level_views(side_vec@), other),
                remaining <= taker.quantity,
                trades_qty(trades@) == taker.quantity - remaining,
                side_qty(vs0) - side_qty(level_views(side_vec@)) == trades_qty(trades@),
                trades@.len() == 0 ==> level_views(side_vec@) == vs0 && remaining
                    == taker.quantity,
                trades@.len() > 0 ==> vs0.len() > 0 && taker.quantity > 0 && trades@[0]
                    == taker_first_trade(vs0, taker, resting_side),
                forall|i: int| 0 <= i < trades@.len() ==> (#[trigger] trades@[i]).quantity > 0,
                forall|i: int|
                    0 <= i < trades@.len() ==> (if resting_side == OrderSide::Ask {
                        (#[trigger] trades@[i]).bid_order_id == taker.id
                    } else {
                        trades@[i].ask_order_id == taker.id
                    }),
                spec_consume(vs0, taker, resting_side, taker.quantity).0 == trades@
                    + spec_consume(level_views(side_vec@), taker, resting_side, remaining).0,
                spec_consume(vs0, taker, resting_side, taker.quantity).1 == spec_consume(
                    level_views(side_vec@),
                    taker,
                    resting_side,
                    remaining,
                ).1,
            ensures
                forall|i: int| 0 <= i < side_vec@.len() ==> (#[trigger] side_vec@[i]).wf(),
                side_wf(
                    level_views(side_vec@),
                    resting_side,
                    resting_side == OrderSide::Bid,
                    bound,
                ),
                sides_disjoint(level_views(side_vec@), other),
                remaining <= taker.quantity,
                trades_qty(trades@) == taker.quantity - remaining,
                side_qty(vs0) - side_qty(level_views(side_vec@)) == trades_qty(trades@),
                trades@.len() == 0 ==> level_views(side_vec@) == vs0 && remaining
                    == taker.quantity,
                trades@.len() > 0 ==> vs0.len() > 0 && taker.quantity > 0 && trades@[0]
                    == taker_first_trade(vs0, taker, resting_side),
                forall|i: int| 0 <= i < trades@.len() ==> (#[trigger] trades@[i]).quantity > 0,
                forall|i: int|
                    0 <= i < trades@.len() ==> (if resting_side == OrderSide::Ask {
                        (#[trigger] trades@[i]).bid_order_id == taker.id
                    } else {
                        trades@[i].ask_order_id == taker.id
                    }),
                remaining == 0 || level_views(side_vec@).len() == 0,
                remaining == taker.quantity || trades@.len() > 0,
                spec_consume(vs0, taker, resting_side, taker.quantity).0 == trades@
                    + spec_consume(level_views(side_vec@), taker, resting_side, remaining).0,
                spec_consume(vs0, taker, resting_side, taker.quantity).1 == spec_consume(
                    level_views(side_vec@),
                    taker,
                    resting_side,
                    remaining,
                ).1,
            decreases remaining,
        {
            if side_vec.len() == 0 {
                break ;
            }
            if remaining == 0 {
                break ;
            }
            let ghost cur = level_views(side_vec@);
            let price_ticks = side_vec[0].price.ticks;
            proof {
                assert(cur[0] == side_vec@[0]@);
                assert(level_wf(cur[0]));
            }
            let first = side_vec[0].get_first_order();
            let ro = match first {
                Some(o) => o,
                None => {
                    proof {
                        assert(false);
                    }
                    break ;
                },
            };
            let trade_quantity = if remaining <= ro.quantity {
                remaining
            } else {
                ro.quantity
            };
            let trade = Trade {
                bid_order_id: if resting_side == OrderSide::Ask {
                    taker.id
                } else {
                    ro.id
                },
                ask_order_id: if resting_side == OrderSide::Ask {
                    ro.id
                } else {
                    taker.id
                },
                price: Price { ticks: price_ticks },
                quantity: trade_quantity,
                timestamp: if taker.timestamp <= ro.timestamp {
                    taker.timestamp
                } else {
                    ro.timestamp
                },
            };
            proof {
                assert(ro == cur[0].orders[0]);
                if trades@.len() == 0 {
                    assert(cur == vs0);
                    assert(trade == taker_first_trade(vs0, taker, resting_side));
                }
                lemma_trades_push(trades@, trade);
            }
            let ghost pre_trades = trades@;
            let ghost rem0 = remaining;
            trades.push(trade);
            remaining = remaining - trade_quantity;
            proof {
                assert(contains_id(cur[0].orders, ro.id));
                lemma_find_level_idx(cur, ro.id);
                if find_level_idx(cur, ro.id) != 0 {
                    assert(!contains_id(cur[0].orders, ro.id));
                }
                lemma_find_order_idx_unique(cur[0].orders, ro.id, 0);
                lemma_remove_from_side_preserves(
                    cur,
                    other,
                    ro.id,
                    resting_side,
                    resting_side == OrderSide::Bid,
                    bound,
                );
                if ro.quantity > trade_quantity {
                    lemma_update_in_side_preserves(
                        cur,
                        other,
                        ro.id,
                        (ro.quantity - trade_quantity) as u64,
                        resting_side,
                        resting_side == OrderSide::Bid,
                        bound,
                    );
                }
                lemma_level_sum_bound(cur[0], bound);
            }
            if ro.quantity <= trade_quantity {
                let lvl = &mut side_vec[0];
                lvl.remove_first_order();
                let emptied = side_vec[0].is_empty();
                if emptied {
                    side_vec.remove(0);
                }
                proof {
                    assert(cur[0].orders.remove(0) =~= cur[0].orders.drop_first());
                    assert(level_views(side_vec@) =~= remove_from_side(cur, ro.id));
                    if cur[0].orders.len() == 1 {
                        assert(cur.remove(0) =~= cur.drop_first());
                    }
                    assert(level_views(side_vec@) == pop_head(cur));
                }
            } else {
                let new_q = ro.quantity - trade_quantity;
                let lvl = &mut side_vec[0];
                lvl.update_order(ro.id, new_q);
                proof {
                    assert(level_views(side_vec@) =~= update_in_side(cur, ro.id, new_q));
                    assert(level_views(side_vec@) == shrink_head(cur, new_q));
                }
            }
            proof {
                let step = spec_consume(cur, taker, resting_side, rem0);
                assert(cur[0].orders[0].quantity > 0);
                assert(min_u64(rem0, ro.quantity) == trade_quantity);
                let rest = spec_consume(
                    level_views(side_vec@),
                    taker,
                    resting_side,
                    remaining as u64,
                );
                assert(step.0 == seq![trade] + rest.0);
                assert(step.1 == rest.1);
                assert(pre_trades + (seq![trade] + rest.0) =~= trades@ + rest.0);
            }
        }
        proof {
            let cur = level_views(side_vec@);
            assert(spec_consume(cur, taker, resting_side, remaining) == (
                Seq::<Trade>::empty(),
                cur,
            ));
            assert(trades@ + Seq::<Trade>::empty() =~= trades@);
        }
        (trades, remaining)
    }

    /// Matches a marketable order against the opposite side, walking from
    /// the best price outward; every trade prints at the resting order's
    /// price. The marketable order itself never rests, and the statistics
    /// are left for the caller to settle.
    fn match_market_order(&mut self, order: Order, is_buy: bool) -> (trades: Vec<Trade>)
        requires
            old(self).wf(),
        ensures
            forall|i: int| 0 <= i < final(self).bids@.len() ==> (#[trigger] final(self).bids@[i]).wf(),
            forall|i: int| 0 <= i < final(self).asks@.len() ==> (#[trigger] final(self).asks@[i]).wf(),
            book_core_wf(final(self)@),
            final(self)@.next_order_id == old(self)@.next_order_id,
            final(self)@.stats == old(self)@.stats,
            is_buy ==> final(self)@.bids == old(self)@.bids,
            !is_buy ==> final(self)@.asks == old(self)@.asks,
            is_buy ==> trades_qty(trades@) == (if order.quantity <= side_qty(old(self)@.asks) {
                order.quantity as int
            } else {
                side_qty(old(self)@.asks)
            }) && side_qty(old(self)@.asks) - side_qty(final(self)@.asks) == trades_qty(trades@),
            !is_buy ==> trades_qty(trades@) == (if order.quantity <= side_qty(old(self)@.bids) {
                order.quantity as int
            } else {
                side_qty(old(self)@.bids)
            }) && side_qty(old(self)@.bids) - side_qty(final(self)@.bids) == trades_qty(trades@),
            (trades@.len() == 0) <==> (order.quantity == 0 || (if is_buy {
                old(self)@.asks.len() == 0
            } else {
                old(self)@.bids.len() == 0
            })),
            trades@.len() == 0 ==> final(self)@ == old(self)@,
            trades@.len() > 0 ==> trades@[0] == taker_first_trade(
                if is_buy {
                    old(self)@.asks
                } else {
                    old(self)@.bids
                },
                order,
                if is_buy {
                    OrderSide::Ask
                } else {
                    OrderSide::Bid
                },
            ),
            forall|i: int| 0 <= i < trades@.len() ==> (#[trigger] trades@[i]).quantity > 0,
            forall|i: int|
                0 <= i < trades@.len() ==> (if is_buy {
                    (#[trigger] trades@[i]).bid_order_id == order.id
                } else {
                    trades@[i].ask_order_id == order.id
                }),
            is_buy ==> trades@ == spec_consume(
                old(self)@.asks,
                order,
                OrderSide::Ask,
                order.quantity,
            ).0 && final(self)@.asks == spec_consume(
                old(self)@.asks,
                order,
                OrderSide::Ask,
                order.quantity,
            ).1,
            !is_buy ==> trades@ == spec_consume(
                old(self)@.bids,
                order,
                OrderSide::Bid,
                order.quantity,
            ).0 && final(self)@.bids == spec_consume(
                old(self)@.bids,
                order,
                OrderSide::Bid,
                order.quantity,
            ).1,
    {
        let ghost b0 = old(self)@;
        proof {
            crate::model::lemma_side_nonneg(b0.bids);
            crate::model::lemma_side_nonneg(b0.asks);
        }
        if is_buy {
            let (trades, remaining) = Self::consume_levels(
                &mut self.asks,
                order,
                OrderSide::Ask,
                Ghost(b0.bids),
                Ghost(b0.next_order_id as int),
            );
            proof {
                if remaining == 0 {
                    crate::model::lemma_side_nonneg(self@.asks);
                }
                if self@.asks.len() == 0 {
                    assert(side_qty(self@.asks) == 0);
                }
                assert(sides_disjoint(self@.bids, self@.asks)) by {
                    assert forall|k1: int, j1: int, k2: int, j2: int|
                        0 <= k1 < self@.bids.len() && 0 <= j1 < self@.bids[k1].orders.len() && 0
                            <= k2 < self@.asks.len() && 0 <= j2
                            < self@.asks[k2].orders.len() implies (
                    #[trigger] self@.bids[k1].orders[j1].id) != (
                    #[trigger] self@.asks[k2].orders[j2].id) by {
                        assert(sides_disjoint(self@.asks, self@.bids));
                    }
                }
                if trades@.len() == 0 {
                    assert(self@ =~= b0);
                }
            }
            trades
        } else {
            let ghost pre_disjoint = sides_disjoint(b0.bids, b0.asks);
            proof {
                assert(sides_disjoint(b0.bids, b0.asks));
            }
            let (trades, remaining) = Self::consume_levels(
                &mut self.bids,
                order,
                OrderSide::Bid,
                Ghost(b0.asks),
                Ghost(b0.next_order_id as int),
            );
            proof {
                if remaining == 0 {
                    crate::model::lemma_side_nonneg(self@.bids);
                }
                if self@.bids.len() == 0 {
                    assert(side_qty(self@.bids) == 0);
                }
                if trades@.len() == 0 {
                    assert(self@ =~= b0);
                }
            }
            trades
        }
    }

    /// Places a marketable order of the given size: it matches immediately
    /// against the opposite side from the best price outward, each trade
    /// at the resting order's price, and any unfilled remainder is
    /// dropped. An id is allocated for trade attribution only; the order
    /// never rests on the book. The total executed quantity is the
    /// smaller of the requested size and the opposite side's liquidity.
    pub fn add_market_order(&mut self, side: OrderSide, quantity: u64, timestamp: u64) -> (trades:
        Vec<Trade>)
        requires
            old(self).wf(),
            old(self)@.next_order_id < u64::MAX,
        ensures
            final(self).wf(),
            final(self)@.next_order_id == old(self)@.next_order_id + 1,
            side == OrderSide::Bid ==> final(self)@.bids == old(self)@.bids && trades_qty(trades@)
                == (if quantity <= side_qty(old(self)@.asks) {
                quantity as int
            } else {
                side_qty(old(self)@.asks)
            }) && side_qty(old(self)@.asks) - side_qty(final(self)@.asks) == trades_qty(trades@),
            side == OrderSide::Ask ==> final(self)@.asks == old(self)@.asks && trades_qty(trades@)
                == (if quantity <= side_qty(old(self)@.bids) {
                quantity as int
            } else {
                side_qty(old(self)@.bids)
            }) && side_qty(old(self)@.bids) - side_qty(final(self)@.bids) == trades_qty(trades@),
            (trades@.len() == 0) <==> (quantity == 0 || (if side == OrderSide::Bid {
                old(self)@.asks.len() == 0
            } else {
                old(self)@.bids.len() == 0
            })),
            trades@.len() > 0 ==> trades@[0] == market_first_trade(
                old(self)@,
                side,
                old(self)@.next_order_id,
                quantity,
                timestamp,
            ),
            forall|i: int| 0 <= i < trades@.len() ==> (#[trigger] trades@[i]).quantity > 0,
            forall|i: int|
                0 <= i < trades@.len() ==> (if side == OrderSide::Bid {
                    (#[trigger] trades@[i]).bid_order_id == old(self)@.next_order_id
                } else {
                    trades@[i].ask_order_id == old(self)@.next_order_id
                }),
            side == OrderSide::Bid ==> trades@ == spec_consume(
                old(self)@.asks,
                taker_of(old(self)@.next_order_id, side, quantity, timestamp),
                OrderSide::Ask,
                quantity,
            ).0 && final(self)@.asks == spec_consume(
                old(self)@.asks,
                taker_of(old(self)@.next_order_id, side, quantity, timestamp),
                OrderSide::Ask,
                quantity,
            ).1,
            side == OrderSide::Ask ==> trades@ == spec_consume(
                old(self)@.bids,
                taker_of(old(self)@.next_order_id, side, quantity, timestamp),
                OrderSide::Bid,
                quantity,
            ).0 && final(self)@.bids == spec_consume(
                old(self)@.bids,
                taker_of(old(self)@.next_order_id, side, quantity, timestamp),
                OrderSide::Bid,
                quantity,
            ).1,
            !book_contains_id(final(self)@, old(self)@.next_order_id),
            trades@.len() == 0 ==> final(self)@.stats == old(self)@.stats,
            final(self)@.stats.total_orders_cancelled == old(self)@.stats.total_orders_cancelled,
            trades@.len() > 0 ==> {
                &&& final(self)@.stats.total_orders_created == sat_add_u64(
                    old(self)@.stats.total_orders_created,
                    1,
                )
                &&& final(self)@.stats.total_orders_matched == sat_add_u64(
                    old(self)@.stats.total_orders_matched,
                    trades@.len() as u64,
                )
                &&& final(self)@.stats.total_volume_traded as int == (if old(
                    self,
                )@.stats.total_volume_traded + trades_notional(trades@) > u128::MAX {
                    u128::MAX as int
                } else {
                    old(self)@.stats.total_volume_traded + trades_notional(trades@)
                })
                &&& final(self)@.stats.last_match_time == Some(timestamp)
            },
    {
        let ghost b0 = old(self)@;
        let order_id = self.next_order_id;
        self.next_order_id = self.next_order_id + 1;
        let order = Order { id: order_id, side, price: Price { ticks: 0 }, quantity, timestamp };
        let is_buy = match side {
            OrderSide::Bid => true,
            OrderSide::Ask => false,
        };
        let trades = self.match_market_order(order, is_buy);
        if trades.len() > 0 {
            let n = trades.len();
            self.stats.total_orders_created = sat_add64(self.stats.total_orders_created, 1);
            self.stats.total_orders_matched = sat_add64(
                self.stats.total_orders_matched,
                n as u64,
            );
            self.stats.total_volume_traded = Self::volume_after(
                self.stats.total_volume_traded,
                &trades,
            );
            self.stats.last_match_time = Some(timestamp);
            self.update_stats_internal();
        }
        proof {
            if trades@.len() > 0 {
                assert(trades@[0] == market_first_trade(b0, side, order_id, quantity, timestamp));
            }
            assert(order == taker_of(order_id, side, quantity, timestamp));
            // the allocated id never rests: the consumed side gained no new
            // ids, and the untouched side never held it
            if side == OrderSide::Bid {
                lemma_consume_no_new_ids(b0.asks, order, OrderSide::Ask, quantity);
            } else {
                lemma_consume_no_new_ids(b0.bids, order, OrderSide::Bid, quantity);
            }
            assert(!book_contains_id(self@, order_id)) by {
                if side_contains_id(b0.bids, order_id) || side_contains_id(b0.asks, order_id) {
                    if side_contains_id(b0.bids, order_id) {
                        let k = choose|k: int|
                            0 <= k < b0.bids.len() && contains_id(b0.bids[k].orders, order_id);
                        let j = choose|j: int|
                            0 <= j < b0.bids[k].orders.len() && b0.bids[k].orders[j].id
                                == order_id;
                        assert(b0.bids[k].orders[j].id < b0.next_order_id);
                    } else {
                        let k = choose|k: int|
                            0 <= k < b0.asks.len() && contains_id(b0.asks[k].orders, order_id);
                        let j = choose|j: int|
                            0 <= j < b0.asks[k].orders.len() && b0.asks[k].orders[j].id
                                == order_id;
                        assert(b0.asks[k].orders[j].id < b0.next_order_id);
                    }
                }
                if side_contains_id(self@.bids, order_id) {
                    assert(side_contains_id(b0.bids, order_id));
                }
                if side_contains_id(self@.asks, order_id) {
                    assert(side_contains_id(b0.asks, order_id));
                }
            }
        }
        trades
    }

    /// Diagnostic check: each side's levels strictly monotonic in the
    /// side's iteration direction, and best bid below best ask when both
    /// sides rest. Under this book's invariant only the crossing check can
    /// fail, so the result reports exactly whether the book is uncrossed.
    pub fn validate_consistency(&self) -> (r: bool)
        requires
            self.wf(),
        ensures
            r == !crossed(self@),
    {
        let ghost b = self@;
        let mut i: usize = 1;
        while i < self.bids.len()
            invariant
                b == self@,
                self.wf(),
                1 <= i,
            decreases b.bids.len() - i,
        {
            proof {
                assert(b.bids[i - 1] == self.bids@[i - 1]@);
                assert(b.bids[i as int] == self.bids@[i as int]@);
            }
            if self.bids[i - 1].price.ticks <= self.bids[i].price.ticks {
                proof {
                    assert(false);
                }
                return false;
            }
            i = i + 1;
        }
        let mut i: usize = 1;
        while i < self.asks.len()
            invariant
                b == self@,
                self.wf(),
                1 <= i,
            decreases b.asks.len() - i,
        {
            proof {
                assert(b.asks[i - 1] == self.asks@[i - 1]@);
                assert(b.asks[i as int] == self.asks@[i as int]@);
            }
            if self.asks[i - 1].price.ticks >= self.asks[i].price.ticks {
                proof {
                    assert(false);
                }
                return false;
            }
            i = i + 1;
        }
        if self.bids.len() > 0 && self.asks.len() > 0 {
            proof {
                assert(b.bids[0] == self.bids@[0]@);
                assert(b.asks[0] == self.asks@[0]@);
            }
            if self.bids[0].price.ticks >= self.asks[0].price.ticks {
                return false;
            }
        }
        true
    }
}

impl Default for OrderBook {
    /// An empty book, as `new` makes it.
    fn default() -> (r: OrderBook)
        ensures
            r.wf(),
            r@.bids.len() == 0,
            r@.asks.len() == 0,
            r@.next_order_id == 1,
            r@.stats == zero_stats(),
    {
        OrderBook::new()
    }
}

} // verus!
