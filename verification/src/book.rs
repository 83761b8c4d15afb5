//! The executable order book: side indexes of price levels, the order
//! locator, the trade log, and the matching engine entry points.

use vstd::prelude::*;
use crate::types::{Side, Order, Trade, Loc, OrderError};
use crate::model::{
    LevelView, BookView, crosses, better, match_levels, insert_order, queue_has,
    side_has, book_has, find_in_queue, remove_order, order_in_book, queue_qty,
    side_orders, total_orders, level_ok, side_sorted, side_ok, trades_ok,
    loc_has_id, loc_has, entry_at, entries_ok_side, covered, loc_distinct, wf_book,
    opp_levels, own_levels,
};

verus! {

/// One price level: a price and the FIFO queue of orders resting at it,
/// oldest first.
pub struct Level {
    price: u64,
    queue: Vec<Order>,
}

pub closed spec fn lv_view(l: Level) -> LevelView {
    LevelView { price: l.price, queue: l.queue@ }
}

pub open spec fn side_view(v: Seq<Level>) -> Seq<LevelView> {
    v.map_values(|l: Level| lv_view(l))
}

/// The order book aggregate: both side indexes, the locator, the trade log,
/// and the id counter. All mutation goes through `submit` and `cancel`.
pub struct OrderBook {
    bids: Vec<Level>,
    asks: Vec<Level>,
    locator: Vec<Loc>,
    trades: Vec<Trade>,
    next_id: u128,
}

impl View for OrderBook {
    type V = BookView;

    closed spec fn view(&self) -> BookView {
        BookView {
            bids: side_view(self.bids@),
            asks: side_view(self.asks@),
            loc: self.locator@,
            trades: self.trades@,
            next_id: self.next_id,
        }
    }
}

impl OrderBook {
    /// The book's invariant, stated over its abstract view.
    pub open spec fn wf(&self) -> bool {
        wf_book(self@)
    }

    /// An empty book. Ids start at 1 so that 0 never names an order.
    pub fn new() -> (b: OrderBook)
        ensures
            b.wf(),
            b@.bids.len() == 0,
            b@.asks.len() == 0,
            b@.loc.len() == 0,
            b@.trades.len() == 0,
            b@.next_id == 1,
    {
        OrderBook {
            bids: Vec::new(),
            asks: Vec::new(),
            locator: Vec::new(),
            trades: Vec::new(),
            next_id: 1,
        }
    }

    /// How many trades have been recorded so far. Because sequence numbers
    /// are gap-free starting at 1, this is also the newest sequence number.
    pub fn trade_count(&self) -> (r: u64)
        requires
            self.wf(),
        ensures
            r == self@.trades.len(),
    {
        proof {
            crate::model::lemma_trades_len_bound(self@.trades);
        }
        self.trades.len() as u64
    }

    /// All trades with sequence number strictly greater than `since`, in
    /// ascending sequence order. `trades_since(trade_count())` is empty.
    pub fn trades_since(&self, since: u64) -> (r: Vec<Trade>)
        requires
            self.wf(),
        ensures
            r@.len() == if (since as int) < self@.trades.len() {
                self@.trades.len() - since
            } else {
                0
            },
            forall|i: int| 0 <= i < r@.len() ==> r@[i] == self@.trades[since + i],
            forall|i: int| 0 <= i < r@.len() ==> (#[trigger] r@[i]).sequence > since,
            forall|i: int, j: int| 0 <= i < j < r@.len() ==> r@[i].sequence < r@[j].sequence,
    {
        proof {
            crate::model::lemma_trades_len_bound(self@.trades);
        }
        let n = self.trades.len();
        let mut out: Vec<Trade> = Vec::new();
        if since >= n as u64 {
            return out;
        }
        let mut i: usize = since as usize;
        while i < n
            invariant
                trades_ok(self@.trades),
                n == self@.trades.len(),
                since < n,
                since <= i <= n,
                out@.len() == i - since,
                forall|k: int| 0 <= k < out@.len() ==> out@[k] == self@.trades[since + k],
            decreases n - i,
        {
            out.push(self.trades[i]);
            i = i + 1;
        }
        out
    }

    /// Read-only status of a resting order: its side, price, and remaining
    /// quantity. An id that never existed, was fully filled, or was
    /// cancelled reports `OrderNotFound`; a resting order always reports a
    /// positive remaining quantity.
    pub fn lookup(&self, id: u128) -> (r: Result<(Side, u64, u64), OrderError>)
        requires
            self.wf(),
        ensures
            book_has(self@, id) ==> ({
                let o = order_in_book(self@, id);
                o.quantity > 0 && r == Ok::<(Side, u64, u64), OrderError>(
                    (o.side, o.price, o.quantity),
                )
            }),
            !book_has(self@, id) ==> r == Err::<(Side, u64, u64), OrderError>(
                OrderError::OrderNotFound,
            ),
    {
        match find_loc(&self.locator, id) {
            Option::None => {
                proof {
                    crate::model::lemma_not_in_loc_not_in_book(self@, id);
                }
                Err(OrderError::OrderNotFound)
            },
            Option::Some(k) => {
                let e = self.locator[k];
                proof {
                    crate::model::lemma_wf_unique(self@, id);
                }
                match e.side {
                    Side::Buy => {
                        assert(entry_at(self@.bids, e.price, id));
                        let o = lookup_in_side(&self.bids, Side::Buy, e.price, id);
                        proof {
                            let (i, j) = choose|i: int, j: int|
                                0 <= i < self@.bids.len() && 0 <= j
                                    < self@.bids[i].queue.len() && self@.bids[i].queue[j]
                                    == o && o.id == id;
                            crate::model::lemma_order_on_side(self@.bids, id, i, j);
                        }
                        Ok((o.side, o.price, o.quantity))
                    },
                    Side::Sell => {
                        assert(entry_at(self@.asks, e.price, id));
                        let o = lookup_in_side(&self.asks, Side::Sell, e.price, id);
                        proof {
                            let (i, j) = choose|i: int, j: int|
                                0 <= i < self@.asks.len() && 0 <= j
                                    < self@.asks[i].queue.len() && self@.asks[i].queue[j]
                                    == o && o.id == id;
                            crate::model::lemma_order_on_side(self@.asks, id, i, j);
                            assert(!side_has(self@.bids, id));
                        }
                        Ok((o.side, o.price, o.quantity))
                    },
                }
            },
        }
    }

    /// Submit a limit order: validate, assign the next id, match against
    /// the opposing side under price-time priority, and rest any leftover
    /// quantity at the order's own price. Returns the new order's id
    /// whether it was fully filled, partially filled, or rested untouched.
    /// A non-positive price or quantity is rejected with `InvalidOrder` and
    /// no state change; id-counter and trade-log headroom is the caller's
    /// capacity precondition.
    pub fn submit(&mut self, side: Side, price: u64, quantity: u64, timestamp: u64) -> (r: Result<
        u128,
        OrderError,
    >)
        requires
            old(self).wf(),
            old(self)@.next_id < u128::MAX,
            old(self)@.trades.len() + total_orders(old(self)@) + 1 <= u64::MAX,
        ensures
            final(self).wf(),
            price == 0 || quantity == 0 ==> r == Err::<u128, OrderError>(OrderError::InvalidOrder)
                && *final(self) == *old(self),
            price > 0 && quantity > 0 ==> ({
                let b0 = old(self)@;
                let b1 = final(self)@;
                let m = match_levels(quantity as int, side, price, opp_levels(b0, side));
                let ord = Order {
                    id: b0.next_id,
                    side: side,
                    price: price,
                    quantity: m.left as u64,
                };
                &&& r == Ok::<u128, OrderError>(b0.next_id)
                &&& b1.next_id == b0.next_id + 1
                &&& opp_levels(b1, side) == m.levels
                &&& (m.left > 0 ==> own_levels(b1, side) == insert_order(
                    own_levels(b0, side),
                    ord,
                ))
                &&& (m.left == 0 ==> own_levels(b1, side) == own_levels(b0, side))
                &&& (m.left == 0 ==> !book_has(b1, b0.next_id))
                &&& (m.left > 0 ==> book_has(b1, b0.next_id) && order_in_book(b1, b0.next_id)
                    == ord)
                &&& 0 <= m.left <= quantity
                &&& b1.trades.len() == b0.trades.len() + m.trades.len()
                &&& (forall|i: int| 0 <= i < b0.trades.len() ==> b1.trades[i] == b0.trades[i])
                &&& (forall|kk: int|
                    0 <= kk < m.trades.len() ==> ({
                        let t = b1.trades[b0.trades.len() + kk];
                        &&& t.price == (#[trigger] m.trades[kk]).0
                        &&& t.quantity == m.trades[kk].1
                        &&& t.sequence == b0.trades.len() + kk + 1
                        &&& t.timestamp == timestamp
                    }))
            }),
    {
        if price == 0 || quantity == 0 {
            return Err(OrderError::InvalidOrder);
        }
        let id = self.next_id;
        let ghost b0 = self@;
        proof {
            crate::model::lemma_side_orders_nonneg(b0.bids);
            crate::model::lemma_side_orders_nonneg(b0.asks);
        }
        match side {
            Side::Buy => {
                let left = match_against(
                    &mut self.asks,
                    &self.bids,
                    &mut self.locator,
                    &mut self.trades,
                    side,
                    price,
                    quantity,
                    timestamp,
                    Ghost(id),
                );
                if left > 0 {
                    proof {
                        crate::model::lemma_loc_ids_bounded(
                            self.locator@,
                            side_view(self.bids@),
                            side_view(self.asks@),
                            id,
                        );
                    }
                    let ord = Order { id: id, side: side, price: price, quantity: left };
                    insert_resting(
                        &mut self.bids,
                        &mut self.locator,
                        ord,
                        &self.asks,
                        Ghost(Side::Sell),
                        Ghost((id + 1) as u128),
                    );
                }
                self.next_id = id + 1;
                proof {
                    let b1 = self@;
                    crate::model::lemma_side_ok_mono(Side::Sell, id, (id + 1) as u128, b1.asks);
                    if left == 0 {
                        crate::model::lemma_side_ok_mono(Side::Buy, id, (id + 1) as u128, b1.bids);
                        assert(wf_book(b1));
                        crate::model::lemma_side_no_id(Side::Buy, id, b1.bids, id);
                        crate::model::lemma_match_ids_subset(
                            quantity as int,
                            side,
                            price,
                            b0.asks,
                            id,
                        );
                        if side_has(b1.asks, id) {
                            crate::model::lemma_side_no_id(Side::Sell, id, b0.asks, id);
                        }
                        assert(!book_has(b1, id));
                    } else {
                        assert(wf_book(b1));
                        let ord = Order { id: id, side: side, price: price, quantity: left };
                        let (i, j) = choose|i: int, j: int|
                            0 <= i < b1.bids.len() && 0 <= j < b1.bids[i].queue.len()
                                && b1.bids[i].queue[j] == ord;
                        crate::model::lemma_wf_unique(b1, id);
                        crate::model::lemma_order_on_side(b1.bids, id, i, j);
                        assert(book_has(b1, id));
                    }
                }
                Ok(id)
            },
            Side::Sell => {
                let left = match_against(
                    &mut self.bids,
                    &self.asks,
                    &mut self.locator,
                    &mut self.trades,
                    side,
                    price,
                    quantity,
                    timestamp,
                    Ghost(id),
                );
                if left > 0 {
                    proof {
                        crate::model::lemma_loc_ids_bounded(
                            self.locator@,
                            side_view(self.bids@),
                            side_view(self.asks@),
                            id,
                        );
                    }
                    let ord = Order { id: id, side: side, price: price, quantity: left };
                    insert_resting(
                        &mut self.asks,
                        &mut self.locator,
                        ord,
                        &self.bids,
                        Ghost(Side::Buy),
                        Ghost((id + 1) as u128),
                    );
                }
                self.next_id = id + 1;
                proof {
                    let b1 = self@;
                    crate::model::lemma_side_ok_mono(Side::Buy, id, (id + 1) as u128, b1.bids);
                    crate::model::lemma_match_ids_subset(
                        quantity as int,
                        side,
                        price,
                        b0.bids,
                        id,
                    );
                    if left == 0 {
                        crate::model::lemma_side_ok_mono(Side::Sell, id, (id + 1) as u128, b1.asks);
                        assert(wf_book(b1));
                        if side_has(b1.bids, id) {
                            crate::model::lemma_side_no_id(Side::Buy, id, b0.bids, id);
                        }
                        if side_has(b1.asks, id) {
                            crate::model::lemma_side_no_id(Side::Sell, id, b0.asks, id);
                        }
                        assert(!book_has(b1, id));
                    } else {
                        assert(wf_book(b1));
                        let ord = Order { id: id, side: side, price: price, quantity: left };
                        let (i, j) = choose|i: int, j: int|
                            0 <= i < b1.asks.len() && 0 <= j < b1.asks[i].queue.len()
                                && b1.asks[i].queue[j] == ord;
                        crate::model::lemma_wf_unique(b1, id);
                        crate::model::lemma_order_on_side(b1.asks, id, i, j);
                        if side_has(b1.bids, id) {
                            crate::model::lemma_side_no_id(Side::Buy, id, b0.bids, id);
                        }
                        assert(book_has(b1, id));
                        assert(order_in_book(b1, id) == ord);
                    }
                }
                Ok(id)
            },
        }
    }

    /// Cancel the resting order with `id`: its remaining quantity leaves
    /// the book, its level disappears if it empties, and the trade log is
    /// untouched. Returns the removed order's side, price, and remaining
    /// quantity, or `OrderNotFound` (with no state change) when the id
    /// never existed, was fully filled, or was already cancelled.
    pub fn cancel(&mut self, id: u128) -> (r: Result<(Side, u64, u64), OrderError>)
        requires
            old(self).wf(),
        ensures
            final(self).wf(),
            !book_has(old(self)@, id) ==> r == Err::<(Side, u64, u64), OrderError>(
                OrderError::OrderNotFound,
            ) && *final(self) == *old(self),
            book_has(old(self)@, id) ==> ({
                let b0 = old(self)@;
                let b1 = final(self)@;
                let o = order_in_book(b0, id);
                &&& r == Ok::<(Side, u64, u64), OrderError>((o.side, o.price, o.quantity))
                &&& own_levels(b1, o.side) == remove_order(own_levels(b0, o.side), id)
                &&& own_levels(b1, o.side.opposite_spec()) == own_levels(
                    b0,
                    o.side.opposite_spec(),
                )
                &&& b1.trades == b0.trades
                &&& b1.next_id == b0.next_id
                &&& !book_has(b1, id)
            }),
    {
        let ghost b0 = self@;
        match find_loc(&self.locator, id) {
            Option::None => {
                proof {
                    crate::model::lemma_not_in_loc_not_in_book(self@, id);
                }
                Err(OrderError::OrderNotFound)
            },
            Option::Some(k) => {
                let e = self.locator[k];
                proof {
                    crate::model::lemma_wf_unique(b0, id);
                    assert(loc_has(b0.loc, id, e.side, e.price));
                }
                match e.side {
                    Side::Buy => {
                        let o = remove_resting(
                            &mut self.bids,
                            &self.asks,
                            &mut self.locator,
                            e.price,
                            id,
                            Side::Buy,
                            Ghost(Side::Sell),
                            Ghost(self.next_id),
                        );
                        proof {
                            let b1 = self@;
                            let (i, j) = choose|i: int, j: int|
                                0 <= i < b0.bids.len() && 0 <= j < b0.bids[i].queue.len()
                                    && b0.bids[i].queue[j] == o;
                            crate::model::lemma_order_on_side(b0.bids, id, i, j);
                            assert(order_in_book(b0, id) == o);
                            assert(wf_book(b1));
                            assert(!side_has(b1.asks, id)) by {
                                if side_has(b1.asks, id) {
                                    assert(side_has(b0.asks, id));
                                    assert(false);
                                }
                            }
                            assert(!book_has(b1, id));
                        }
                        Ok((o.side, o.price, o.quantity))
                    },
                    Side::Sell => {
                        let o = remove_resting(
                            &mut self.asks,
                            &self.bids,
                            &mut self.locator,
                            e.price,
                            id,
                            Side::Sell,
                            Ghost(Side::Buy),
                            Ghost(self.next_id),
                        );
                        proof {
                            let b1 = self@;
                            let (i, j) = choose|i: int, j: int|
                                0 <= i < b0.asks.len() && 0 <= j < b0.asks[i].queue.len()
                                    && b0.asks[i].queue[j] == o;
                            crate::model::lemma_order_on_side(b0.asks, id, i, j);
                            assert(!side_has(b0.bids, id));
                            assert(order_in_book(b0, id) == o);
                            assert(wf_book(b1));
                            assert(!side_has(b1.bids, id)) by {
                                if side_has(b1.bids, id) {
                                    assert(false);
                                }
                            }
                            assert(!book_has(b1, id));
                        }
                        Ok((o.side, o.price, o.quantity))
                    },
                }
            },
        }
    }
}

/// One line of a book snapshot: a price level and its total resting
/// quantity.
pub struct LevelSummary {
    pub price: u64,
    pub quantity: u128,
}

/// A read-only full-book view for reporting: both sides' levels with their
/// totals, the trade count, and the id counter.
pub struct BookSnapshot {
    pub bids: Vec<LevelSummary>,
    pub asks: Vec<LevelSummary>,
    pub trade_count: u64,
    pub next_order_id: u128,
}

impl OrderBook {
    /// A full-book snapshot: per level its price and summed remaining
    /// quantity, best levels first on each side, plus the counters.
    pub fn snapshot(&self) -> (s: BookSnapshot)
        requires
            self.wf(),
        ensures
            s.bids@.len() == self@.bids.len(),
            forall|i: int|
                0 <= i < s.bids@.len() ==> (#[trigger] s.bids@[i]).price == self@.bids[i].price
                    && s.bids@[i].quantity == queue_qty(self@.bids[i].queue),
            s.asks@.len() == self@.asks.len(),
            forall|i: int|
                0 <= i < s.asks@.len() ==> (#[trigger] s.asks@[i]).price == self@.asks[i].price
                    && s.asks@[i].quantity == queue_qty(self@.asks[i].queue),
            s.trade_count == self@.trades.len(),
            s.next_order_id == self@.next_id,
    {
        BookSnapshot {
            bids: side_totals(&self.bids),
            asks: side_totals(&self.asks),
            trade_count: self.trade_count(),
            next_order_id: self.next_id,
        }
    }

    /// Runtime check of `submit`'s capacity preconditions: id-counter and
    /// trade-log headroom. While this returns true, `submit` may be called.
    pub fn can_accept(&self) -> (b: bool)
        requires
            self.wf(),
        ensures
            b == (self@.next_id < u128::MAX && self@.trades.len() + total_orders(self@) + 1
                <= u64::MAX),
    {
        proof {
            crate::model::lemma_trades_len_bound(self@.trades);
        }
        let nb = side_order_count(&self.bids);
        let na = side_order_count(&self.asks);
        if self.next_id == u128::MAX {
            return false;
        }
        if nb > u64::MAX as u128 || na > u64::MAX as u128 {
            return false;
        }
        let t = self.trades.len() as u128;
        nb + na <= u64::MAX as u128 && t + nb + na + 1 <= u64::MAX as u128
    }
}

/// Total resting quantity of one queue.
fn queue_total(q: &Vec<Order>) -> (t: u128)
    ensures
        t == queue_qty(q@),
{
    let mut acc: u128 = 0;
    let mut i: usize = 0;
    proof {
        assert(q@.take(0) =~= Seq::<Order>::empty());
    }
    while i < q.len()
        invariant
            i <= q@.len(),
            acc == queue_qty(q@.take(i as int)),
            acc <= (i as int) * (u64::MAX as int),
        decreases q@.len() - i,
    {
        proof {
            assert(q@.take(i as int + 1).drop_last() =~= q@.take(i as int));
            assert(q@.take(i as int + 1).last() == q@[i as int]);
            assert((i as int) + 1 <= u64::MAX as int + 1);
            assert(((i as int) + 1) * (u64::MAX as int) <= u128::MAX as int
                && acc + q@[i as int].quantity <= ((i as int) + 1) * (u64::MAX as int))
                by (nonlinear_arith)
                requires
                    acc <= (i as int) * (u64::MAX as int),
                    0 <= q@[i as int].quantity <= u64::MAX as int,
                    0 <= i as int,
                    (i as int) + 1 <= u64::MAX as int + 1,
            ;
        }
        acc = acc + q[i].quantity as u128;
        i = i + 1;
    }
    proof {
        assert(q@.take(q@.len() as int) =~= q@);
    }
    acc
}

/// Per-level totals of one side, best levels first.
fn side_totals(levels: &Vec<Level>) -> (out: Vec<LevelSummary>)
    ensures
        out@.len() == side_view(levels@).len(),
        forall|i: int|
            0 <= i < out@.len() ==> (#[trigger] out@[i]).price == side_view(levels@)[i].price
                && out@[i].quantity == queue_qty(side_view(levels@)[i].queue),
{
    let mut out: Vec<LevelSummary> = Vec::new();
    let mut i: usize = 0;
    while i < levels.len()
        invariant
            i <= levels@.len(),
            out@.len() == i,
            forall|m: int|
                0 <= m < i ==> (#[trigger] out@[m]).price == side_view(levels@)[m].price
                    && out@[m].quantity == queue_qty(side_view(levels@)[m].queue),
        decreases levels@.len() - i,
    {
        let lv = &levels[i];
        let t = queue_total(&lv.queue);
        out.push(LevelSummary { price: lv.price, quantity: t });
        i = i + 1;
    }
    out
}

/// Number of resting orders on one side.
fn side_order_count(levels: &Vec<Level>) -> (n: u128)
    ensures
        n == side_orders(side_view(levels@)),
{
    let mut acc: u128 = 0;
    let mut i: usize = 0;
    proof {
        assert(side_view(levels@).take(0) =~= Seq::<LevelView>::empty());
    }
    while i < levels.len()
        invariant
            i <= levels@.len(),
            acc == side_orders(side_view(levels@).take(i as int)),
            acc <= (i as int) * (u64::MAX as int),
        decreases levels@.len() - i,
    {
        let ghost sv = side_view(levels@);
        let lv = &levels[i];
        let ql = lv.queue.len();
        proof {
            assert(sv.take(i as int + 1).drop_last() =~= sv.take(i as int));
            assert(sv.take(i as int + 1).last() == sv[i as int]);
            assert(ql as int == sv[i as int].queue.len());
            assert((i as int) + 1 <= u64::MAX as int + 1);
            assert(((i as int) + 1) * (u64::MAX as int) <= u128::MAX as int
                && acc + ql as int <= ((i as int) + 1) * (u64::MAX as int))
                by (nonlinear_arith)
                requires
                    acc <= (i as int) * (u64::MAX as int),
                    0 <= ql as int <= u64::MAX as int,
                    0 <= i as int,
                    (i as int) + 1 <= u64::MAX as int + 1,
            ;
        }
        acc = acc + ql as u128;
        i = i + 1;
    }
    proof {
        assert(side_view(levels@).take(levels@.len() as int) =~= side_view(levels@));
    }
    acc
}

/// The matching loop: fill an incoming order against the opposing side's
/// best levels, best price first and oldest order first within a level,
/// recording one trade per fill. Returns the incoming order's leftover
/// quantity. The result is pinned to the `match_levels` recursion.
#[verifier::rlimit(100)]
fn match_against(
    opposing: &mut Vec<Level>,
    other: &Vec<Level>,
    loc: &mut Vec<Loc>,
    trades: &mut Vec<Trade>,
    inc_side: Side,
    limit: u64,
    quantity: u64,
    timestamp: u64,
    Ghost(next_id): Ghost<u128>,
) -> (left: u64)
    requires
        side_ok(inc_side.opposite_spec(), next_id, side_view(old(opposing)@)),
        entries_ok_side(old(loc)@, inc_side.opposite_spec(), side_view(old(opposing)@)),
        entries_ok_side(old(loc)@, inc_side, side_view(other@)),
        covered(old(loc)@, inc_side.opposite_spec(), side_view(old(opposing)@)),
        covered(old(loc)@, inc_side, side_view(other@)),
        loc_distinct(old(loc)@),
        trades_ok(old(trades)@),
        old(trades)@.len() + side_orders(side_view(old(opposing)@)) + 1 <= u64::MAX,
    ensures
        ({
            let m = match_levels(quantity as int, inc_side, limit, side_view(old(opposing)@));
            &&& left == m.left
            &&& side_view(final(opposing)@) == m.levels
            &&& final(trades)@.len() == old(trades)@.len() + m.trades.len()
            &&& (forall|i: int|
                0 <= i < old(trades)@.len() ==> final(trades)@[i] == old(trades)@[i])
            &&& (forall|kk: int|
                0 <= kk < m.trades.len() ==> ({
                    let t = final(trades)@[old(trades)@.len() + kk];
                    &&& t.price == (#[trigger] m.trades[kk]).0
                    &&& t.quantity == m.trades[kk].1
                    &&& t.sequence == old(trades)@.len() + kk + 1
                    &&& t.timestamp == timestamp
                }))
        }),
        left <= quantity,
        trades_ok(final(trades)@),
        side_ok(inc_side.opposite_spec(), next_id, side_view(final(opposing)@)),
        entries_ok_side(final(loc)@, inc_side.opposite_spec(), side_view(final(opposing)@)),
        entries_ok_side(final(loc)@, inc_side, side_view(other@)),
        covered(final(loc)@, inc_side.opposite_spec(), side_view(final(opposing)@)),
        covered(final(loc)@, inc_side, side_view(other@)),
        loc_distinct(final(loc)@),
{
    let opp = inc_side.opposite();
    let ghost v0 = side_view(old(opposing)@);
    let ghost t0 = old(trades)@.len() as int;
    let ghost n0 = side_orders(v0);
    let ghost m0 = match_levels(quantity as int, inc_side, limit, v0);
    let mut q: u64 = quantity;
    proof {
        assert(m0.trades =~= m0.trades.skip(0));
    }
    loop
        invariant
            opp == inc_side.opposite_spec(),
            side_ok(opp, next_id, side_view(opposing@)),
            entries_ok_side(loc@, opp, side_view(opposing@)),
            entries_ok_side(loc@, inc_side, side_view(other@)),
            covered(loc@, opp, side_view(opposing@)),
            covered(loc@, inc_side, side_view(other@)),
            loc_distinct(loc@),
            trades_ok(trades@),
            q <= quantity,
            t0 == old(trades)@.len(),
            n0 == side_orders(v0),
            m0 == match_levels(quantity as int, inc_side, limit, v0),
            t0 + n0 + 1 <= u64::MAX,
            trades@.len() + side_orders(side_view(opposing@)) <= t0 + n0 + 1,
            q > 0 ==> trades@.len() + side_orders(side_view(opposing@)) <= t0 + n0,
            forall|i: int| 0 <= i < t0 ==> trades@[i] == old(trades)@[i],
            ({
                let mc = match_levels(q as int, inc_side, limit, side_view(opposing@));
                &&& m0.levels == mc.levels
                &&& m0.left == mc.left
                &&& trades@.len() >= t0
                &&& trades@.len() - t0 + mc.trades.len() == m0.trades.len()
                &&& mc.trades =~= m0.trades.skip(trades@.len() - t0)
            }),
            forall|kk: int|
                0 <= kk < trades@.len() - t0 ==> ({
                    let t = trades@[t0 + kk];
                    &&& t.price == (#[trigger] m0.trades[kk]).0
                    &&& t.quantity == m0.trades[kk].1
                    &&& t.sequence == t0 + kk + 1
                    &&& t.timestamp == timestamp
                }),
        ensures
            q == 0 || side_view(opposing@).len() == 0 || !crosses(
                inc_side,
                limit,
                side_view(opposing@)[0].price,
            ),
        decreases t0 + n0 + 1 - trades@.len(),
    {
        if q == 0 {
            break;
        }
        if opposing.len() == 0 {
            break;
        }
        let best_price = opposing[0].price;
        let cr = match inc_side {
            Side::Buy => best_price <= limit,
            Side::Sell => best_price >= limit,
        };
        if !cr {
            break;
        }
        let ghost vc = side_view(opposing@);
        let ghost mc = match_levels(q as int, inc_side, limit, vc);
        let ghost nd = trades@.len() - t0;
        proof {
            assert(level_ok(opp, next_id, vc[0]));
            crate::model::lemma_side_orders_nonneg(vc);
        }
        let head = opposing[0].queue[0];
        proof {
            assert(head == vc[0].queue[0]);
        }
        let fill = if q < head.quantity {
            q
        } else {
            head.quantity
        };
        let seqno = trades.len() as u64 + 1;
        let ghost trades_pre = trades@;
        trades.push(
            Trade { price: best_price, quantity: fill, sequence: seqno, timestamp: timestamp },
        );
        let ghost q_old = q;
        q = q - fill;
        if fill == head.quantity {
            consume_head(opposing, other, loc, opp, inc_side, Ghost(next_id));
            proof {
                crate::model::lemma_match_step_full(q_old as int, inc_side, limit, vc);
                let vn = side_view(opposing@);
                assert(vn == crate::model::after_head(vc));
                if vc[0].queue.len() == 1 {
                    crate::model::lemma_side_orders_drop_first(vc);
                } else {
                    crate::model::lemma_side_orders_update(
                        vc,
                        0,
                        LevelView { price: vc[0].price, queue: vc[0].queue.drop_first() },
                    );
                }
                assert(side_orders(vn) == side_orders(vc) - 1);
                crate::model::lemma_side_orders_nonneg(vn);
            }
        } else {
            reduce_head(opposing, fill, Ghost(next_id), Ghost(opp));
            proof {
                crate::model::lemma_match_step_partial(q_old as int, inc_side, limit, vc);
                let vn = side_view(opposing@);
                let reduced = Order {
                    id: head.id,
                    side: head.side,
                    price: head.price,
                    quantity: (head.quantity - fill) as u64,
                };
                let nlv = LevelView { price: vc[0].price, queue: vc[0].queue.update(0, reduced) };
                assert(vn == vc.update(0, nlv));
                assert(q == 0);
                crate::model::lemma_match_base(0, inc_side, limit, vn);
                crate::model::lemma_loc_transfer(loc@, opp, vc, vn);
                crate::model::lemma_side_orders_update(vc, 0, nlv);
                assert(side_orders(vn) == side_orders(vc));
                crate::model::lemma_side_orders_nonneg(vn);
            }
        }
        proof {
            let vn = side_view(opposing@);
            let mcn = match_levels(q as int, inc_side, limit, vn);
            crate::model::lemma_skip_shift(m0.trades, nd);
            assert(mc.trades[0] == (vc[0].price, fill));
            assert(m0.trades[nd] == (vc[0].price, fill));
            assert(mcn.trades =~= mc.trades.drop_first());
            assert(mcn.trades =~= m0.trades.skip(nd + 1));
            assert(trades@[t0 + nd].price == vc[0].price);
            assert forall|kk2: int| 0 <= kk2 < trades@.len() - t0 implies ({
                let t = trades@[t0 + kk2];
                &&& t.price == (#[trigger] m0.trades[kk2]).0
                &&& t.quantity == m0.trades[kk2].1
                &&& t.sequence == t0 + kk2 + 1
                &&& t.timestamp == timestamp
            }) by {
                if kk2 == nd {
                    assert(trades@[t0 + nd].quantity == fill);
                    assert(trades@[t0 + nd].sequence == t0 + nd + 1);
                } else {
                    assert(kk2 < nd);
                    assert(trades@[t0 + kk2] == trades_pre[t0 + kk2]);
                    assert(trades_pre[t0 + kk2].price == m0.trades[kk2].0);
                }
            }
        }
    }
    proof {
        let vexit = side_view(opposing@);
        let mc = match_levels(q as int, inc_side, limit, vexit);
        assert(mc.trades =~= Seq::<(u64, u64)>::empty());
        assert(mc.levels == vexit);
        assert(mc.left == q);
        assert(trades@.len() == t0 + m0.trades.len());
    }
    q
}

/// Rest a leftover incoming order on its own side: appended to the tail of
/// its price's queue, with the level created at its sorted position when
/// absent, and a locator entry recorded.
#[verifier::rlimit(100)]
#[verifier::loop_isolation(false)]
fn insert_resting(
    own: &mut Vec<Level>,
    loc: &mut Vec<Loc>,
    ord: Order,
    other: &Vec<Level>,
    Ghost(opp_side): Ghost<Side>,
    Ghost(nid2): Ghost<u128>,
)
    requires
        ord.quantity > 0,
        ord.price > 0,
        ord.id < nid2,
        opp_side != ord.side,
        side_ok(ord.side, ord.id, side_view(old(own)@)),
        entries_ok_side(old(loc)@, ord.side, side_view(old(own)@)),
        entries_ok_side(old(loc)@, opp_side, side_view(other@)),
        covered(old(loc)@, ord.side, side_view(old(own)@)),
        covered(old(loc)@, opp_side, side_view(other@)),
        loc_distinct(old(loc)@),
        forall|k: int| 0 <= k < old(loc)@.len() ==> (#[trigger] old(loc)@[k]).id != ord.id,
    ensures
        side_view(final(own)@) == insert_order(side_view(old(own)@), ord),
        side_ok(ord.side, nid2, side_view(final(own)@)),
        entries_ok_side(final(loc)@, ord.side, side_view(final(own)@)),
        entries_ok_side(final(loc)@, opp_side, side_view(other@)),
        covered(final(loc)@, ord.side, side_view(final(own)@)),
        covered(final(loc)@, opp_side, side_view(other@)),
        loc_distinct(final(loc)@),
        exists|i: int, j: int|
            0 <= i < side_view(final(own)@).len() && 0 <= j < side_view(final(own)@)[i].queue.len()
                && side_view(final(own)@)[i].queue[j] == ord,
{
    let ghost v = side_view(old(own)@);
    let e = Loc { id: ord.id, side: ord.side, price: ord.price };
    let mut i: usize = 0;
    while i < own.len()
        invariant
            i <= own@.len(),
            own@ == old(own)@,
            loc@ == old(loc)@,
            v == side_view(own@),
            forall|m: int| 0 <= m < i ==> (#[trigger] v[m]).price != ord.price && !better(
                ord.side,
                ord.price,
                v[m].price,
            ),
        decreases own@.len() - i,
    {
        let p = own[i].price;
        if p == ord.price {
            let mut lv = own.remove(i);
            lv.queue.push(ord);
            own.insert(i, lv);
            loc.push(e);
            proof {
                let vn = side_view(own@);
                let target = v.update(
                    i as int,
                    LevelView { price: v[i as int].price, queue: v[i as int].queue.push(ord) },
                );
                assert(vn =~~= target);
                crate::model::lemma_insert_order_at(v, ord, i as int);
                assert(vn == insert_order(v, ord));
                crate::model::lemma_side_ok_append_queue(ord.side, nid2, v, i as int, ord);
                crate::model::lemma_rest_level_append(old(loc)@, ord.side, v, i as int, ord);
                crate::model::lemma_rest_other_side(old(loc)@, opp_side, side_view(other@), e);
                crate::model::lemma_loc_push(old(loc)@, e);
                assert(vn[i as int].queue[v[i as int].queue.len() as int] == ord);
            }
            return ;
        }
        let is_better = match ord.side {
            Side::Buy => ord.price > p,
            Side::Sell => ord.price < p,
        };
        if is_better {
            let mut nq: Vec<Order> = Vec::new();
            nq.push(ord);
            own.insert(i, Level { price: ord.price, queue: nq });
            loc.push(e);
            proof {
                let vn = side_view(own@);
                let target = v.insert(i as int, LevelView { price: ord.price, queue: seq![ord] });
                assert(vn =~~= target);
                crate::model::lemma_insert_order_at(v, ord, i as int);
                assert(vn == insert_order(v, ord));
                crate::model::lemma_side_ok_insert_level(ord.side, nid2, v, i as int, ord);
                crate::model::lemma_rest_level_new(old(loc)@, ord.side, v, i as int, ord);
                crate::model::lemma_rest_other_side(old(loc)@, opp_side, side_view(other@), e);
                crate::model::lemma_loc_push(old(loc)@, e);
                assert(vn[i as int].queue[0] == ord);
            }
            return ;
        }
        i = i + 1;
    }
    let mut nq: Vec<Order> = Vec::new();
    nq.push(ord);
    own.push(Level { price: ord.price, queue: nq });
    loc.push(e);
    proof {
        let vn = side_view(own@);
        let target = v.insert(v.len() as int, LevelView { price: ord.price, queue: seq![ord] });
        assert(vn =~~= target);
        crate::model::lemma_insert_order_at(v, ord, v.len() as int);
        assert(vn == insert_order(v, ord));
        crate::model::lemma_side_ok_insert_level(ord.side, nid2, v, v.len() as int, ord);
        crate::model::lemma_rest_level_new(old(loc)@, ord.side, v, v.len() as int, ord);
        crate::model::lemma_rest_other_side(old(loc)@, opp_side, side_view(other@), e);
        crate::model::lemma_loc_push(old(loc)@, e);
        assert(vn[v.len() as int].queue[0] == ord);
    }
}

/// Remove the resting order with `id` from the level priced `price` on its
/// own side, dropping the level when it empties, and retire its locator
/// entry. Returns the removed order.
#[verifier::rlimit(100)]
fn remove_resting(
    own: &mut Vec<Level>,
    other: &Vec<Level>,
    loc: &mut Vec<Loc>,
    price: u64,
    id: u128,
    own_side: Side,
    Ghost(opp_side): Ghost<Side>,
    Ghost(next_id): Ghost<u128>,
) -> (o: Order)
    requires
        opp_side != own_side,
        side_ok(own_side, next_id, side_view(old(own)@)),
        entries_ok_side(old(loc)@, own_side, side_view(old(own)@)),
        entries_ok_side(old(loc)@, opp_side, side_view(other@)),
        covered(old(loc)@, own_side, side_view(old(own)@)),
        covered(old(loc)@, opp_side, side_view(other@)),
        loc_distinct(old(loc)@),
        loc_has(old(loc)@, id, own_side, price),
    ensures
        side_view(final(own)@) == remove_order(side_view(old(own)@), id),
        side_ok(own_side, next_id, side_view(final(own)@)),
        entries_ok_side(final(loc)@, own_side, side_view(final(own)@)),
        entries_ok_side(final(loc)@, opp_side, side_view(other@)),
        covered(final(loc)@, own_side, side_view(final(own)@)),
        covered(final(loc)@, opp_side, side_view(other@)),
        loc_distinct(final(loc)@),
        !side_has(side_view(final(own)@), id),
        o.id == id && o.side == own_side && o.quantity > 0 && o.price == price,
        exists|i: int, j: int|
            0 <= i < side_view(old(own)@).len() && 0 <= j < side_view(old(own)@)[i].queue.len()
                && side_view(old(own)@)[i].queue[j] == o,
{
    let ghost v = side_view(old(own)@);
    let ghost ov = side_view(other@);
    let ghost loc0 = old(loc)@;
    proof {
        let kk = choose|kk: int|
            0 <= kk < loc0.len() && loc0[kk].id == id && loc0[kk].side == own_side
                && loc0[kk].price == price;
        assert(entry_at(v, price, id));
        crate::model::lemma_side_unique_from_loc(loc0, own_side, v, id);
    }
    let li = find_level_at(own, own_side, price);
    proof {
        let iw = choose|iw: int|
            0 <= iw < v.len() && v[iw].price == price && queue_has(v[iw].queue, id);
        assert(iw == li as int) by {
            if iw < li as int {
                assert(better(own_side, v[iw].price, v[li as int].price));
            }
            if (li as int) < iw {
                assert(better(own_side, v[li as int].price, v[iw].price));
            }
        }
        assert(queue_has(v[li as int].queue, id));
        assert(level_ok(own_side, next_id, v[li as int]));
    }
    let mut lv = own.remove(li);
    let j = find_in_queue_at(&lv.queue, id);
    let o = lv.queue[j];
    let _ = lv.queue.remove(j);
    proof {
        crate::model::lemma_find_in_queue(v[li as int].queue, id);
        assert(j as int == find_in_queue(v[li as int].queue, id)) by {
            let f = find_in_queue(v[li as int].queue, id);
            if f < j as int {
                assert(v[li as int].queue[f].id < v[li as int].queue[j as int].id);
            }
            if (j as int) < f {
                assert(v[li as int].queue[j as int].id < v[li as int].queue[f].id);
            }
        }
        assert(side_has(v, id));
        assert(loc_has_id(loc@, id));
    }
    remove_loc_entry(loc, id);
    let emptied = lv.queue.len() == 0;
    if !emptied {
        own.insert(li, lv);
    }
    proof {
        let k = choose|k: int|
            0 <= k < loc0.len() && (#[trigger] loc0[k]).id == id && loc@ == loc0.remove(k);
        crate::model::lemma_loc_remove(loc0, k);
        let vn = side_view(own@);
        // Shape of the surviving side and agreement with the recursion.
        if emptied {
            assert(v[li as int].queue.len() == 1);
            assert(vn =~~= v.remove(li as int));
        } else {
            assert(lv.queue@ =~= v[li as int].queue.remove(j as int));
            assert(vn =~~= v.update(
                li as int,
                LevelView {
                    price: v[li as int].price,
                    queue: v[li as int].queue.remove(j as int),
                },
            ));
        }
        assert(vn == crate::model::after_remove(v, li as int, j as int));
        assert forall|m: int| 0 <= m < li as int implies !queue_has(
            (#[trigger] v[m]).queue,
            id,
        ) by {
            if queue_has(v[m].queue, id) {
                let jm = choose|jm: int| 0 <= jm < v[m].queue.len() && v[m].queue[jm].id == id;
                assert(false);
            }
        }
        crate::model::lemma_remove_order_at(v, id, li as int, j as int);
        // Well-formedness of the surviving side.
        if emptied {
            crate::model::lemma_side_ok_remove_level(own_side, next_id, v, li as int);
        } else {
            crate::model::lemma_level_ok_remove(own_side, next_id, v[li as int], j as int);
            crate::model::lemma_side_ok_update_at(
                own_side,
                next_id,
                v,
                li as int,
                LevelView {
                    price: v[li as int].price,
                    queue: v[li as int].queue.remove(j as int),
                },
            );
        }
        // The locator stays consistent with both sides.
        crate::model::lemma_cancel_entries_own(loc0, k, own_side, v, li as int, j as int);
        crate::model::lemma_consume_entries_own(loc0, k, opp_side, ov);
        crate::model::lemma_cancel_covered_own(loc0, k, own_side, v, li as int, j as int);
        crate::model::lemma_consume_covered_own(loc0, k, own_side, opp_side, v, ov);
        crate::model::lemma_cancel_no_id(v, li as int, j as int, id);
    }
    o
}

/// Remove the locator entry naming `id`.
fn remove_loc_entry(loc: &mut Vec<Loc>, id: u128)
    requires
        loc_distinct(old(loc)@),
        loc_has_id(old(loc)@, id),
    ensures
        exists|k: int|
            0 <= k < old(loc)@.len() && (#[trigger] old(loc)@[k]).id == id && final(loc)@
                == old(loc)@.remove(k),
{
    match find_loc(loc, id) {
        Option::Some(k) => {
            let _ = loc.remove(k);
        },
        Option::None => {
            proof {
                let m = choose|m: int| 0 <= m < loc@.len() && loc@[m].id == id;
                assert(false);
            }
        },
    }
}

/// Take the whole head order out of the best opposing level, dropping the
/// level when it empties, and retire its locator entry.
#[verifier::rlimit(100)]
fn consume_head(
    opposing: &mut Vec<Level>,
    other: &Vec<Level>,
    loc: &mut Vec<Loc>,
    opp_side: Side,
    own_side: Side,
    Ghost(next_id): Ghost<u128>,
)
    requires
        opp_side != own_side,
        old(opposing)@.len() > 0,
        side_ok(opp_side, next_id, side_view(old(opposing)@)),
        entries_ok_side(old(loc)@, opp_side, side_view(old(opposing)@)),
        entries_ok_side(old(loc)@, own_side, side_view(other@)),
        covered(old(loc)@, opp_side, side_view(old(opposing)@)),
        covered(old(loc)@, own_side, side_view(other@)),
        loc_distinct(old(loc)@),
    ensures
        side_view(final(opposing)@) == (if side_view(old(opposing)@)[0].queue.len() == 1 {
            side_view(old(opposing)@).drop_first()
        } else {
            side_view(old(opposing)@).update(
                0,
                LevelView {
                    price: side_view(old(opposing)@)[0].price,
                    queue: side_view(old(opposing)@)[0].queue.drop_first(),
                },
            )
        }),
        side_ok(opp_side, next_id, side_view(final(opposing)@)),
        entries_ok_side(final(loc)@, opp_side, side_view(final(opposing)@)),
        entries_ok_side(final(loc)@, own_side, side_view(other@)),
        covered(final(loc)@, opp_side, side_view(final(opposing)@)),
        covered(final(loc)@, own_side, side_view(other@)),
        loc_distinct(final(loc)@),
{
    let ghost v = side_view(old(opposing)@);
    let ghost ov = side_view(other@);
    let ghost loc0 = old(loc)@;
    proof {
        assert(level_ok(opp_side, next_id, v[0]));
    }
    let mut lv = opposing.remove(0);
    let head = lv.queue.remove(0);
    proof {
        assert(v[0].queue[0] == head);
        assert(loc_has(loc0, head.id, opp_side, v[0].price));
        crate::model::lemma_side_unique_from_loc(loc0, opp_side, v, head.id);
        crate::model::lemma_covered_cross(loc0, opp_side, v, own_side, ov, head.id);
        assert(queue_has(v[0].queue, head.id));
        assert(side_has(v, head.id));
    }
    remove_loc_entry(loc, head.id);
    let dropped = lv.queue.len() == 0;
    if !dropped {
        opposing.insert(0, lv);
    }
    proof {
        let k = choose|k: int|
            0 <= k < loc0.len() && (#[trigger] loc0[k]).id == head.id && loc@ == loc0.remove(k);
        crate::model::lemma_loc_remove(loc0, k);
        let vn = side_view(opposing@);
        // Shape of the surviving side.
        if dropped {
            assert(v[0].queue.len() == 1);
            assert(vn =~~= v.drop_first());
        } else {
            assert(lv.queue@ =~= v[0].queue.drop_first());
            assert(vn =~~= v.update(
                0,
                LevelView { price: v[0].price, queue: v[0].queue.drop_first() },
            ));
        }
        assert(vn == crate::model::after_head(v));
        // Well-formedness of the surviving side.
        if dropped {
            crate::model::lemma_side_ok_drop_first(opp_side, next_id, v);
        } else {
            crate::model::lemma_level_ok_tail(opp_side, next_id, v[0]);
            crate::model::lemma_side_ok_update0(
                opp_side,
                next_id,
                v,
                LevelView { price: v[0].price, queue: v[0].queue.drop_first() },
            );
        }
        // The locator stays consistent with both sides.
        crate::model::lemma_consume_entries_opp(loc0, k, opp_side, v);
        crate::model::lemma_consume_entries_own(loc0, k, own_side, ov);
        crate::model::lemma_consume_covered_opp(loc0, k, opp_side, v);
        crate::model::lemma_consume_covered_own(loc0, k, opp_side, own_side, v, ov);
    }
}

/// Shrink the head order of the best opposing level by `fill`, leaving it
/// in place.
fn reduce_head(
    opposing: &mut Vec<Level>,
    fill: u64,
    Ghost(next_id): Ghost<u128>,
    Ghost(opp_side): Ghost<Side>,
)
    requires
        old(opposing)@.len() > 0,
        side_ok(opp_side, next_id, side_view(old(opposing)@)),
        0 < fill < side_view(old(opposing)@)[0].queue[0].quantity,
    ensures
        ({
            let v = side_view(old(opposing)@);
            let head = v[0].queue[0];
            let reduced = Order {
                id: head.id,
                side: head.side,
                price: head.price,
                quantity: (head.quantity - fill) as u64,
            };
            side_view(final(opposing)@) == v.update(
                0,
                LevelView { price: v[0].price, queue: v[0].queue.update(0, reduced) },
            )
        }),
        side_ok(opp_side, next_id, side_view(final(opposing)@)),
        crate::model::same_shape(side_view(old(opposing)@), side_view(final(opposing)@)),
{
    let ghost v = side_view(old(opposing)@);
    proof {
        assert(level_ok(opp_side, next_id, v[0]));
    }
    let mut lv = opposing.remove(0);
    let mut h = lv.queue.remove(0);
    h.quantity = h.quantity - fill;
    lv.queue.insert(0, h);
    opposing.insert(0, lv);
    proof {
        let vn = side_view(opposing@);
        let head = v[0].queue[0];
        let reduced = Order {
            id: head.id,
            side: head.side,
            price: head.price,
            quantity: (head.quantity - fill) as u64,
        };
        let nlv = LevelView { price: v[0].price, queue: v[0].queue.update(0, reduced) };
        assert(lv.queue@ =~= v[0].queue.update(0, reduced));
        assert(vn =~~= v.update(0, nlv));
        assert(level_ok(opp_side, next_id, nlv)) by {
            assert forall|j: int| 0 <= j < nlv.queue.len() implies ((#[trigger] nlv.queue[j]).price
                == nlv.price && nlv.queue[j].side == opp_side && nlv.queue[j].quantity > 0
                && nlv.queue[j].id < next_id) by {
                if j != 0 {
                    assert(nlv.queue[j] == v[0].queue[j]);
                }
            }
            assert forall|j: int, k: int| 0 <= j < k < nlv.queue.len() implies nlv.queue[j].id
                < nlv.queue[k].id by {
                assert(nlv.queue[j].id == v[0].queue[j].id);
                assert(nlv.queue[k].id == v[0].queue[k].id);
            }
        }
        crate::model::lemma_side_ok_update0(opp_side, next_id, v, nlv);
    }
}

/// Scan the locator for an entry naming `id`.
fn find_loc(loc: &Vec<Loc>, id: u128) -> (r: Option<usize>)
    ensures
        match r {
            Option::Some(k) => k < loc@.len() && loc@[k as int].id == id,
            Option::None => !loc_has_id(loc@, id),
        },
{
    let mut k: usize = 0;
    while k < loc.len()
        invariant
            k <= loc@.len(),
            forall|m: int| 0 <= m < k ==> loc@[m].id != id,
        decreases loc@.len() - k,
    {
        if loc[k].id == id {
            return Some(k);
        }
        k = k + 1;
    }
    None
}

/// Index of the level carrying `price`, found by binary search on the
/// side's strict best-first price order; the caller shows one exists.
fn find_level_at(levels: &Vec<Level>, side: Side, price: u64) -> (i: usize)
    requires
        side_sorted(side, side_view(levels@)),
        exists|m: int| 0 <= m < levels@.len() && side_view(levels@)[m].price == price,
    ensures
        i < levels@.len() && side_view(levels@)[i as int].price == price,
{
    let ghost v = side_view(levels@);
    let mut lo: usize = 0;
    let mut hi: usize = levels.len();
    while lo < hi
        invariant
            lo <= hi <= levels@.len(),
            side_sorted(side, v),
            v == side_view(levels@),
            exists|m: int| lo <= m < hi && v[m].price == price,
        decreases hi - lo,
    {
        let mid = lo + (hi - lo) / 2;
        let p = levels[mid].price;
        if p == price {
            return mid;
        }
        let target_better = match side {
            Side::Buy => price > p,
            Side::Sell => price < p,
        };
        proof {
            let m = choose|m: int| lo <= m < hi && v[m].price == price;
            if target_better {
                if m > mid as int {
                    assert(better(side, v[mid as int].price, v[m].price));
                    assert(false);
                }
                assert(lo <= m < mid as int && v[m].price == price);
            } else {
                if m < mid as int {
                    assert(better(side, v[m].price, v[mid as int].price));
                    assert(false);
                }
                assert(mid as int + 1 <= m < hi && v[m].price == price);
            }
        }
        if target_better {
            hi = mid;
        } else {
            lo = mid + 1;
        }
    }
    proof {
        let m = choose|m: int| lo <= m < hi && v[m].price == price;
        assert(false);
    }
    0
}

/// Position of `id` inside one queue; the caller shows it is there.
fn find_in_queue_at(q: &Vec<Order>, id: u128) -> (j: usize)
    requires
        queue_has(q@, id),
    ensures
        j < q@.len() && q@[j as int].id == id,
{
    let mut j: usize = 0;
    while j < q.len()
        invariant
            queue_has(q@, id),
            j <= q@.len(),
            forall|m: int| 0 <= m < j ==> q@[m].id != id,
        decreases q@.len() - j,
    {
        if q[j].id == id {
            return j;
        }
        j = j + 1;
    }
    proof {
        let m = choose|m: int| 0 <= m < q@.len() && q@[m].id == id;
        assert(false);
    }
    0
}

/// Fetch the resting order with `id` from the level priced `price` on a
/// sorted side.
fn lookup_in_side(levels: &Vec<Level>, side: Side, price: u64, id: u128) -> (o: Order)
    requires
        side_sorted(side, side_view(levels@)),
        entry_at(side_view(levels@), price, id),
    ensures
        exists|i: int, j: int|
            0 <= i < side_view(levels@).len() && 0 <= j < side_view(levels@)[i].queue.len()
                && side_view(levels@)[i].queue[j] == o && o.id == id,
{
    let ghost lvs = side_view(levels@);
    proof {
        let iw = choose|i: int| 0 <= i < lvs.len() && lvs[i].price == price && queue_has(
            lvs[i].queue,
            id,
        );
        assert(lvs[iw].price == price);
    }
    let li = find_level_at(levels, side, price);
    proof {
        let iw = choose|i: int| 0 <= i < lvs.len() && lvs[i].price == price && queue_has(
            lvs[i].queue,
            id,
        );
        assert(iw == li as int) by {
            if iw < li as int {
                assert(better(side, lvs[iw].price, lvs[li as int].price));
            }
            if (li as int) < iw {
                assert(better(side, lvs[li as int].price, lvs[iw].price));
            }
        }
        assert(queue_has(levels@[li as int].queue@, id));
    }
    let lv = &levels[li];
    let j = find_in_queue_at(&lv.queue, id);
    let o = lv.queue[j];
    proof {
        assert(lvs[li as int].queue[j as int] == o);
    }
    o
}

} // verus!
