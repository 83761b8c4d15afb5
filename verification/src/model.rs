//! The mathematical model of the book: level views, the matching recursion,
//! insertion and removal of resting orders, and the well-formedness predicate
//! that every engine operation preserves.

use vstd::prelude::*;
use crate::types::{Side, Order, Trade, Loc};

verus! {

/// One price level as the specification sees it: a price and the FIFO queue
/// of resting orders at that price, oldest first.
#[verifier::ext_equal]
pub struct LevelView {
    pub price: u64,
    pub queue: Seq<Order>,
}

/// The whole book as the specification sees it.
#[verifier::ext_equal]
pub struct BookView {
    /// Bid levels, best (highest price) first.
    pub bids: Seq<LevelView>,
    /// Ask levels, best (lowest price) first.
    pub asks: Seq<LevelView>,
    /// Locator entries, one per resting order, in no particular order.
    pub loc: Seq<Loc>,
    /// The append-only trade log.
    pub trades: Seq<Trade>,
    /// The next order id to be assigned.
    pub next_id: u128,
}

/// What one run of the matching algorithm produces: the executions as
/// (price, quantity) pairs in execution order, the surviving opposing
/// levels, and the incoming order's leftover quantity.
#[verifier::ext_equal]
pub struct MatchResult {
    pub trades: Seq<(u64, u64)>,
    pub levels: Seq<LevelView>,
    pub left: int,
}

/// Can an incoming order on `side` with limit `limit` trade against a
/// resting order priced `resting`?
pub open spec fn crosses(side: Side, limit: u64, resting: u64) -> bool {
    match side {
        Side::Buy => resting <= limit,
        Side::Sell => resting >= limit,
    }
}

/// Is price `a` strictly better than `b` from the point of view of the
/// index holding `side` orders? Higher bids and lower asks are better.
pub open spec fn better(side: Side, a: u64, b: u64) -> bool {
    match side {
        Side::Buy => a > b,
        Side::Sell => a < b,
    }
}

pub open spec fn head_queue_len(levels: Seq<LevelView>) -> nat {
    if levels.len() > 0 {
        levels[0].queue.len()
    } else {
        0
    }
}

/// The matching algorithm on the opposing side's levels, best level first.
/// Each unfolding performs exactly one fill against the head of the best
/// level's queue; matching stops when the incoming quantity is exhausted,
/// the opposing side is empty, or its best price no longer crosses.
pub open spec fn match_levels(q: int, side: Side, limit: u64, levels: Seq<LevelView>) -> MatchResult
    decreases levels.len(), head_queue_len(levels),
{
    if q <= 0 || levels.len() == 0 || !crosses(side, limit, levels[0].price)
        || levels[0].queue.len() == 0 {
        MatchResult { trades: Seq::empty(), levels, left: q }
    } else {
        let lv = levels[0];
        let head = lv.queue[0];
        if q < head.quantity {
            // The head absorbs the whole incoming remainder and stays,
            // reduced; matching is over.
            let reduced = Order {
                id: head.id,
                side: head.side,
                price: head.price,
                quantity: (head.quantity - q) as u64,
            };
            MatchResult {
                trades: seq![(lv.price, q as u64)],
                levels: levels.update(0, LevelView { price: lv.price, queue: lv.queue.update(0, reduced) }),
                left: 0,
            }
        } else {
            // The head is fully consumed and removed; its level disappears
            // with it when its queue empties.
            let rest = if lv.queue.len() == 1 {
                levels.drop_first()
            } else {
                levels.update(0, LevelView { price: lv.price, queue: lv.queue.drop_first() })
            };
            let sub = match_levels(q - head.quantity, side, limit, rest);
            MatchResult {
                trades: seq![(lv.price, head.quantity)] + sub.trades,
                levels: sub.levels,
                left: sub.left,
            }
        }
    }
}

/// Insert a leftover incoming order into its own side: appended to the tail
/// of its price's queue, with the level created at its sorted position when
/// absent.
pub open spec fn insert_order(levels: Seq<LevelView>, ord: Order) -> Seq<LevelView>
    decreases levels.len(),
{
    if levels.len() == 0 {
        seq![LevelView { price: ord.price, queue: seq![ord] }]
    } else if levels[0].price == ord.price {
        levels.update(0, LevelView { price: ord.price, queue: levels[0].queue.push(ord) })
    } else if better(ord.side, ord.price, levels[0].price) {
        seq![LevelView { price: ord.price, queue: seq![ord] }] + levels
    } else {
        seq![levels[0]] + insert_order(levels.drop_first(), ord)
    }
}

pub open spec fn queue_has(q: Seq<Order>, id: u128) -> bool {
    exists|j: int| 0 <= j < q.len() && q[j].id == id
}

pub open spec fn side_has(levels: Seq<LevelView>, id: u128) -> bool {
    exists|i: int| 0 <= i < levels.len() && queue_has(levels[i].queue, id)
}

pub open spec fn book_has(b: BookView, id: u128) -> bool {
    side_has(b.bids, id) || side_has(b.asks, id)
}

/// Index of the first order with `id` in a queue, or -1 when absent.
pub open spec fn find_in_queue(q: Seq<Order>, id: u128) -> int
    decreases q.len(),
{
    if q.len() == 0 {
        -1
    } else if q[0].id == id {
        0
    } else {
        let r = find_in_queue(q.drop_first(), id);
        if r < 0 {
            -1
        } else {
            r + 1
        }
    }
}

/// Remove the first order with `id` from a side, dropping its level when the
/// queue empties; identity when the id is absent.
pub open spec fn remove_order(levels: Seq<LevelView>, id: u128) -> Seq<LevelView>
    decreases levels.len(),
{
    if levels.len() == 0 {
        levels
    } else if queue_has(levels[0].queue, id) {
        let j = find_in_queue(levels[0].queue, id);
        let nq = levels[0].queue.remove(j);
        if nq.len() == 0 {
            levels.drop_first()
        } else {
            levels.update(0, LevelView { price: levels[0].price, queue: nq })
        }
    } else {
        seq![levels[0]] + remove_order(levels.drop_first(), id)
    }
}

/// The order with `id` on a side (the first hit; under well-formedness ids
/// are unique, so there is at most one).
pub open spec fn order_on_side(levels: Seq<LevelView>, id: u128) -> Order
    decreases levels.len(),
{
    if levels.len() == 0 {
        arbitrary()
    } else if queue_has(levels[0].queue, id) {
        levels[0].queue[find_in_queue(levels[0].queue, id)]
    } else {
        order_on_side(levels.drop_first(), id)
    }
}

/// The order with `id` anywhere in the book.
pub open spec fn order_in_book(b: BookView, id: u128) -> Order {
    if side_has(b.bids, id) {
        order_on_side(b.bids, id)
    } else {
        order_on_side(b.asks, id)
    }
}

/// Total remaining quantity in one queue.
pub open spec fn queue_qty(q: Seq<Order>) -> int
    decreases q.len(),
{
    if q.len() == 0 {
        0
    } else {
        queue_qty(q.drop_last()) + q.last().quantity
    }
}

/// Total remaining quantity on one side.
pub open spec fn side_qty(levels: Seq<LevelView>) -> int
    decreases levels.len(),
{
    if levels.len() == 0 {
        0
    } else {
        side_qty(levels.drop_last()) + queue_qty(levels.last().queue)
    }
}

/// Total quantity carried by a sequence of (price, quantity) executions.
pub open spec fn pairs_qty(ts: Seq<(u64, u64)>) -> int
    decreases ts.len(),
{
    if ts.len() == 0 {
        0
    } else {
        pairs_qty(ts.drop_last()) + ts.last().1
    }
}

/// Number of resting orders on one side.
pub open spec fn side_orders(levels: Seq<LevelView>) -> int
    decreases levels.len(),
{
    if levels.len() == 0 {
        0
    } else {
        side_orders(levels.drop_last()) + levels.last().queue.len()
    }
}

/// Number of resting orders in the whole book.
pub open spec fn total_orders(b: BookView) -> int {
    side_orders(b.bids) + side_orders(b.asks)
}

/// Dropping the first level loses exactly its orders.
pub proof fn lemma_side_orders_drop_first(v: Seq<LevelView>)
    requires
        v.len() > 0,
    ensures
        side_orders(v.drop_first()) == side_orders(v) - v[0].queue.len(),
    decreases v.len(),
{
    if v.len() == 1 {
        assert(v.drop_first() =~= Seq::<LevelView>::empty());
        assert(v.drop_last() =~= Seq::<LevelView>::empty());
    } else {
        lemma_side_orders_drop_first(v.drop_last());
        assert(v.drop_first().drop_last() =~= v.drop_last().drop_first());
        assert(v.drop_first().last() == v.last());
        assert(v.drop_last()[0] == v[0]);
    }
}

/// An order count is never negative.
pub proof fn lemma_side_orders_nonneg(v: Seq<LevelView>)
    ensures
        side_orders(v) >= 0,
    decreases v.len(),
{
    if v.len() > 0 {
        lemma_side_orders_nonneg(v.drop_last());
    }
}

/// Replacing one level changes the order count by the queue-length delta.
pub proof fn lemma_side_orders_update(v: Seq<LevelView>, i: int, lv: LevelView)
    requires
        0 <= i < v.len(),
    ensures
        side_orders(v.update(i, lv)) == side_orders(v) - v[i].queue.len() + lv.queue.len(),
    decreases v.len(),
{
    if i == v.len() - 1 {
        assert(v.update(i, lv).drop_last() =~= v.drop_last());
        assert(v.update(i, lv).last() == lv);
    } else {
        assert(v.update(i, lv).drop_last() =~= v.drop_last().update(i, lv));
        lemma_side_orders_update(v.drop_last(), i, lv);
        assert(v.update(i, lv).last() == v.last());
        assert(v.drop_last()[i] == v[i]);
    }
}

/// One level is well formed for the index of `side`: non-empty, and every
/// queued order carries the level's price, the index's side, a positive
/// remaining quantity, an id below the book's id counter, and the queue is
/// oldest-first (ids strictly increase with position).
pub open spec fn level_ok(side: Side, next_id: u128, lv: LevelView) -> bool {
    &&& lv.queue.len() > 0
    &&& lv.price > 0
    &&& (forall|j: int| 0 <= j < lv.queue.len() ==> ((#[trigger] lv.queue[j]).price == lv.price
            && lv.queue[j].side == side
            && lv.queue[j].quantity > 0
            && lv.queue[j].id < next_id))
    &&& (forall|j: int, k: int| 0 <= j < k < lv.queue.len() ==> lv.queue[j].id < lv.queue[k].id)
}

/// The levels of one side are strictly sorted best price first.
pub open spec fn side_sorted(side: Side, levels: Seq<LevelView>) -> bool {
    forall|i: int, j: int| 0 <= i < j < levels.len()
        ==> better(side, (#[trigger] levels[i]).price, (#[trigger] levels[j]).price)
}

pub open spec fn side_ok(side: Side, next_id: u128, levels: Seq<LevelView>) -> bool {
    &&& side_sorted(side, levels)
    &&& (forall|i: int| 0 <= i < levels.len() ==> level_ok(side, next_id, #[trigger] levels[i]))
}

/// Trade-log invariant: sequence numbers are exactly 1, 2, 3, ... and every
/// recorded fill is positive.
pub open spec fn trades_ok(trades: Seq<Trade>) -> bool {
    forall|i: int| 0 <= i < trades.len()
        ==> ((#[trigger] trades[i]).sequence == i + 1 && trades[i].quantity > 0)
}

/// Is there a locator entry for `id` at all?
pub open spec fn loc_has_id(loc: Seq<Loc>, id: u128) -> bool {
    exists|k: int| 0 <= k < loc.len() && loc[k].id == id
}

/// Is there a locator entry binding `id` to (side, price)?
pub open spec fn loc_has(loc: Seq<Loc>, id: u128, side: Side, price: u64) -> bool {
    exists|k: int| 0 <= k < loc.len() && loc[k].id == id && loc[k].side == side
        && loc[k].price == price
}

/// Does some level on this side carry `price` with `id` in its queue?
pub open spec fn entry_at(levels: Seq<LevelView>, price: u64, id: u128) -> bool {
    exists|i: int| 0 <= i < levels.len() && (#[trigger] levels[i]).price == price
        && queue_has(levels[i].queue, id)
}

/// Every locator entry for `side` points at an order actually resting on
/// that side at the recorded price.
pub open spec fn entries_ok_side(loc: Seq<Loc>, side: Side, levels: Seq<LevelView>) -> bool {
    forall|k: int| 0 <= k < loc.len() && (#[trigger] loc[k]).side == side
        ==> entry_at(levels, loc[k].price, loc[k].id)
}

/// Every order resting on `side` has a locator entry with its side and price.
pub open spec fn covered(loc: Seq<Loc>, side: Side, levels: Seq<LevelView>) -> bool {
    forall|i: int, j: int| 0 <= i < levels.len() && 0 <= j < levels[i].queue.len()
        ==> loc_has(loc, (#[trigger] levels[i].queue[j]).id, side, levels[i].price)
}

/// No two locator entries name the same order id.
pub open spec fn loc_distinct(loc: Seq<Loc>) -> bool {
    forall|k: int, l: int| 0 <= k < l < loc.len()
        ==> (#[trigger] loc[k]).id != (#[trigger] loc[l]).id
}

/// The book's global invariant.
pub open spec fn wf_book(b: BookView) -> bool {
    &&& side_ok(Side::Buy, b.next_id, b.bids)
    &&& side_ok(Side::Sell, b.next_id, b.asks)
    &&& entries_ok_side(b.loc, Side::Buy, b.bids)
    &&& entries_ok_side(b.loc, Side::Sell, b.asks)
    &&& covered(b.loc, Side::Buy, b.bids)
    &&& covered(b.loc, Side::Sell, b.asks)
    &&& loc_distinct(b.loc)
    &&& trades_ok(b.trades)
}

/// At most one position on this side holds an order with `id`.
pub open spec fn side_unique(levels: Seq<LevelView>, id: u128) -> bool {
    forall|i1: int, j1: int, i2: int, j2: int|
        0 <= i1 < levels.len() && 0 <= j1 < levels[i1].queue.len() && 0 <= i2 < levels.len()
            && 0 <= j2 < levels[i2].queue.len() && (#[trigger] levels[i1].queue[j1]).id == id
            && (#[trigger] levels[i2].queue[j2]).id == id ==> i1 == i2 && j1 == j2
}

/// `find_in_queue` finds the id exactly when some position holds it.
pub proof fn lemma_find_in_queue(q: Seq<Order>, id: u128)
    ensures
        queue_has(q, id) ==> 0 <= find_in_queue(q, id) < q.len() && q[find_in_queue(q, id)].id
            == id,
        !queue_has(q, id) ==> find_in_queue(q, id) == -1,
    decreases q.len(),
{
    if q.len() == 0 {
        assert(!queue_has(q, id));
    } else if q[0].id == id {
        assert(queue_has(q, id));
    } else {
        lemma_find_in_queue(q.drop_first(), id);
        if queue_has(q, id) {
            let j = choose|j: int| 0 <= j < q.len() && q[j].id == id;
            assert(q.drop_first()[j - 1].id == id);
            assert(queue_has(q.drop_first(), id));
        } else {
            if queue_has(q.drop_first(), id) {
                let j = choose|j: int| 0 <= j < q.drop_first().len() && q.drop_first()[j].id
                    == id;
                assert(q[j + 1].id == id);
            }
        }
    }
}

/// In a well-formed book an order id names at most one position, and never
/// one on each side at once.
pub proof fn lemma_wf_unique(b: BookView, id: u128)
    requires
        wf_book(b),
    ensures
        side_unique(b.bids, id),
        side_unique(b.asks, id),
        !(side_has(b.bids, id) && side_has(b.asks, id)),
{
    lemma_side_unique_from_loc(b.loc, Side::Buy, b.bids, id);
    lemma_side_unique_from_loc(b.loc, Side::Sell, b.asks, id);
    if side_has(b.bids, id) && side_has(b.asks, id) {
        let i1 = choose|i: int| 0 <= i < b.bids.len() && queue_has(b.bids[i].queue, id);
        let j1 = choose|j: int| 0 <= j < b.bids[i1].queue.len() && b.bids[i1].queue[j].id == id;
        let i2 = choose|i: int| 0 <= i < b.asks.len() && queue_has(b.asks[i].queue, id);
        let j2 = choose|j: int| 0 <= j < b.asks[i2].queue.len() && b.asks[i2].queue[j].id == id;
        assert(loc_has(b.loc, id, Side::Buy, b.bids[i1].price));
        assert(loc_has(b.loc, id, Side::Sell, b.asks[i2].price));
        let k1 = choose|k: int| 0 <= k < b.loc.len() && b.loc[k].id == id && b.loc[k].side
            == Side::Buy && b.loc[k].price == b.bids[i1].price;
        let k2 = choose|k: int| 0 <= k < b.loc.len() && b.loc[k].id == id && b.loc[k].side
            == Side::Sell && b.loc[k].price == b.asks[i2].price;
        assert(k1 == k2);
        assert(false);
    }
}

/// Uniqueness on one side, derived from the locator: coverage gives each
/// position an entry, entry ids are distinct, and strict price sorting plus
/// strict id ordering inside a queue pin the position.
pub proof fn lemma_side_unique_from_loc(loc: Seq<Loc>, side: Side, levels: Seq<LevelView>, id: u128)
    requires
        side_sorted(side, levels),
        forall|i: int, j1: int, j2: int|
            0 <= i < levels.len() && 0 <= j1 < j2 < levels[i].queue.len()
                ==> (#[trigger] levels[i].queue[j1]).id < (#[trigger] levels[i].queue[j2]).id,
        covered(loc, side, levels),
        loc_distinct(loc),
    ensures
        side_unique(levels, id),
{
    assert forall|i1: int, j1: int, i2: int, j2: int|
        0 <= i1 < levels.len() && 0 <= j1 < levels[i1].queue.len() && 0 <= i2 < levels.len()
            && 0 <= j2 < levels[i2].queue.len() && (#[trigger] levels[i1].queue[j1]).id == id
            && (#[trigger] levels[i2].queue[j2]).id == id implies i1 == i2 && j1 == j2 by {
        assert(loc_has(loc, id, side, levels[i1].price));
        assert(loc_has(loc, id, side, levels[i2].price));
        let k1 = choose|k: int| 0 <= k < loc.len() && loc[k].id == id && loc[k].side == side
            && loc[k].price == levels[i1].price;
        let k2 = choose|k: int| 0 <= k < loc.len() && loc[k].id == id && loc[k].side == side
            && loc[k].price == levels[i2].price;
        assert(k1 == k2);
        assert(levels[i1].price == levels[i2].price);
        if i1 < i2 {
            assert(better(side, levels[i1].price, levels[i2].price));
            assert(false);
        }
        if i2 < i1 {
            assert(better(side, levels[i2].price, levels[i1].price));
            assert(false);
        }
        if j1 < j2 {
            assert(levels[i1].queue[j1].id < levels[i1].queue[j2].id);
            assert(false);
        }
        if j2 < j1 {
            assert(levels[i1].queue[j2].id < levels[i1].queue[j1].id);
            assert(false);
        }
    }
}

/// When `id` sits at the unique position (i, j), `order_on_side` returns
/// exactly that order.
pub proof fn lemma_order_on_side(levels: Seq<LevelView>, id: u128, i: int, j: int)
    requires
        side_unique(levels, id),
        0 <= i < levels.len(),
        0 <= j < levels[i].queue.len(),
        levels[i].queue[j].id == id,
    ensures
        side_has(levels, id),
        order_on_side(levels, id) == levels[i].queue[j],
    decreases levels.len(),
{
    assert(queue_has(levels[i].queue, id));
    assert(side_has(levels, id));
    if queue_has(levels[0].queue, id) {
        let j0 = choose|j0: int| 0 <= j0 < levels[0].queue.len() && levels[0].queue[j0].id == id;
        assert(i == 0 && j0 == j);
        lemma_find_in_queue(levels[0].queue, id);
        let f = find_in_queue(levels[0].queue, id);
        assert(levels[0].queue[f].id == id);
        assert(f == j);
    } else {
        assert(i != 0);
        let sub = levels.drop_first();
        assert forall|i1: int, j1: int, i2: int, j2: int|
            0 <= i1 < sub.len() && 0 <= j1 < sub[i1].queue.len() && 0 <= i2 < sub.len()
                && 0 <= j2 < sub[i2].queue.len() && (#[trigger] sub[i1].queue[j1]).id == id
                && (#[trigger] sub[i2].queue[j2]).id == id implies i1 == i2 && j1 == j2 by {
            assert(sub[i1] == levels[i1 + 1]);
            assert(sub[i2] == levels[i2 + 1]);
            assert(levels[i1 + 1].queue[j1].id == id);
            assert(levels[i2 + 1].queue[j2].id == id);
        }
        assert(sub[i - 1] == levels[i]);
        lemma_order_on_side(sub, id, i - 1, j);
    }
}

/// An id with no locator entry rests nowhere in a well-formed book.
pub proof fn lemma_not_in_loc_not_in_book(b: BookView, id: u128)
    requires
        wf_book(b),
        !loc_has_id(b.loc, id),
    ensures
        !book_has(b, id),
{
    if side_has(b.bids, id) {
        let i = choose|i: int| 0 <= i < b.bids.len() && queue_has(b.bids[i].queue, id);
        let j = choose|j: int| 0 <= j < b.bids[i].queue.len() && b.bids[i].queue[j].id == id;
        assert(loc_has(b.loc, b.bids[i].queue[j].id, Side::Buy, b.bids[i].price));
        assert(false);
    }
    if side_has(b.asks, id) {
        let i = choose|i: int| 0 <= i < b.asks.len() && queue_has(b.asks[i].queue, id);
        let j = choose|j: int| 0 <= j < b.asks[i].queue.len() && b.asks[i].queue[j].id == id;
        assert(loc_has(b.loc, b.asks[i].queue[j].id, Side::Sell, b.asks[i].price));
        assert(false);
    }
}

/// Raising the id bound keeps a side well formed.
pub proof fn lemma_side_ok_mono(side: Side, n1: u128, n2: u128, levels: Seq<LevelView>)
    requires
        side_ok(side, n1, levels),
        n1 <= n2,
    ensures
        side_ok(side, n2, levels),
{
    assert forall|i: int| 0 <= i < levels.len() implies level_ok(side, n2, #[trigger] levels[i]) by {
        assert(level_ok(side, n1, levels[i]));
    }
}

/// Dropping the best level keeps a side well formed.
pub proof fn lemma_side_ok_drop_first(side: Side, n: u128, levels: Seq<LevelView>)
    requires
        side_ok(side, n, levels),
        levels.len() > 0,
    ensures
        side_ok(side, n, levels.drop_first()),
{
    let sub = levels.drop_first();
    assert forall|i: int| 0 <= i < sub.len() implies level_ok(side, n, #[trigger] sub[i]) by {
        assert(sub[i] == levels[i + 1]);
    }
    assert forall|i: int, j: int| 0 <= i < j < sub.len() implies better(
        side,
        (#[trigger] sub[i]).price,
        (#[trigger] sub[j]).price,
    ) by {
        assert(sub[i] == levels[i + 1]);
        assert(sub[j] == levels[j + 1]);
    }
}

/// Replacing the best level by a well-formed one at the same price keeps a
/// side well formed.
pub proof fn lemma_side_ok_update0(side: Side, n: u128, levels: Seq<LevelView>, newlv: LevelView)
    requires
        side_ok(side, n, levels),
        levels.len() > 0,
        level_ok(side, n, newlv),
        newlv.price == levels[0].price,
    ensures
        side_ok(side, n, levels.update(0, newlv)),
{
    let up = levels.update(0, newlv);
    assert forall|i: int| 0 <= i < up.len() implies level_ok(side, n, #[trigger] up[i]) by {
        if i != 0 {
            assert(up[i] == levels[i]);
        }
    }
    assert forall|i: int, j: int| 0 <= i < j < up.len() implies better(
        side,
        (#[trigger] up[i]).price,
        (#[trigger] up[j]).price,
    ) by {
        assert(up[j] == levels[j]);
        if i != 0 {
            assert(up[i] == levels[i]);
        }
    }
}

/// A well-formed queue stays well formed when its head leaves.
pub proof fn lemma_level_ok_tail(side: Side, n: u128, lv: LevelView)
    requires
        level_ok(side, n, lv),
        lv.queue.len() > 1,
    ensures
        level_ok(side, n, LevelView { price: lv.price, queue: lv.queue.drop_first() }),
{
    let nq = lv.queue.drop_first();
    assert forall|j: int| 0 <= j < nq.len() implies ((#[trigger] nq[j]).price == lv.price
        && nq[j].side == side && nq[j].quantity > 0 && nq[j].id < n) by {
        assert(nq[j] == lv.queue[j + 1]);
    }
    assert forall|j: int, k: int| 0 <= j < k < nq.len() implies nq[j].id < nq[k].id by {
        assert(nq[j] == lv.queue[j + 1]);
        assert(nq[k] == lv.queue[k + 1]);
    }
}

/// Two sides with the same prices, queue lengths and ids position by
/// position satisfy the same locator obligations.
pub open spec fn same_shape(v1: Seq<LevelView>, v2: Seq<LevelView>) -> bool {
    &&& v1.len() == v2.len()
    &&& (forall|i: int| 0 <= i < v1.len() ==> (#[trigger] v2[i]).price == (#[trigger] v1[i]).price
            && v2[i].queue.len() == v1[i].queue.len())
    &&& (forall|i: int, j: int| 0 <= i < v1.len() && 0 <= j < v1[i].queue.len()
            ==> (#[trigger] v2[i].queue[j]).id == (#[trigger] v1[i].queue[j]).id)
}

pub proof fn lemma_loc_transfer(loc: Seq<Loc>, side: Side, v1: Seq<LevelView>, v2: Seq<LevelView>)
    requires
        same_shape(v1, v2),
    ensures
        entries_ok_side(loc, side, v1) ==> entries_ok_side(loc, side, v2),
        covered(loc, side, v1) ==> covered(loc, side, v2),
{
    if entries_ok_side(loc, side, v1) {
        assert forall|k: int| 0 <= k < loc.len() && (#[trigger] loc[k]).side == side implies entry_at(
            v2,
            loc[k].price,
            loc[k].id,
        ) by {
            assert(entry_at(v1, loc[k].price, loc[k].id));
            let i = choose|i: int| 0 <= i < v1.len() && v1[i].price == loc[k].price && queue_has(
                v1[i].queue,
                loc[k].id,
            );
            let j = choose|j: int| 0 <= j < v1[i].queue.len() && v1[i].queue[j].id == loc[k].id;
            assert(v2[i].queue[j].id == loc[k].id);
            assert(queue_has(v2[i].queue, loc[k].id));
        }
    }
    if covered(loc, side, v1) {
        assert forall|i: int, j: int| 0 <= i < v2.len() && 0 <= j < v2[i].queue.len() implies loc_has(
            loc,
            (#[trigger] v2[i].queue[j]).id,
            side,
            v2[i].price,
        ) by {
            assert(v2[i].queue[j].id == v1[i].queue[j].id);
            assert(loc_has(loc, v1[i].queue[j].id, side, v1[i].price));
        }
    }
}

/// What removing the entry at `k` does to the locator.
pub proof fn lemma_loc_remove(loc: Seq<Loc>, k: int)
    requires
        0 <= k < loc.len(),
        loc_distinct(loc),
    ensures
        loc_distinct(loc.remove(k)),
        forall|m: int| 0 <= m < loc.len() - 1 ==> #[trigger] loc.remove(k)[m] == (if m < k {
            loc[m]
        } else {
            loc[m + 1]
        }),
        forall|id: u128, s: Side, p: u64|
            #[trigger] loc_has(loc, id, s, p) && id != loc[k].id ==> loc_has(
                loc.remove(k),
                id,
                s,
                p,
            ),
        forall|m: int| 0 <= m < loc.len() - 1 ==> (#[trigger] loc.remove(k)[m]).id != loc[k].id,
    {
    let lr = loc.remove(k);
    assert forall|m: int| 0 <= m < loc.len() - 1 implies #[trigger] lr[m] == (if m < k {
        loc[m]
    } else {
        loc[m + 1]
    }) by {}
    assert forall|id: u128, s: Side, p: u64|
        #[trigger] loc_has(loc, id, s, p) && id != loc[k].id implies loc_has(lr, id, s, p) by {
        let m = choose|m: int| 0 <= m < loc.len() && loc[m].id == id && loc[m].side == s
            && loc[m].price == p;
        if m < k {
            assert(lr[m] == loc[m]);
        } else {
            assert(m > k);
            assert(lr[m - 1] == loc[m]);
        }
    }
}

/// Orders on two coverage-disciplined opposite sides never share an id.
pub proof fn lemma_covered_cross(
    loc: Seq<Loc>,
    s1: Side,
    v1: Seq<LevelView>,
    s2: Side,
    v2: Seq<LevelView>,
    id: u128,
)
    requires
        covered(loc, s1, v1),
        covered(loc, s2, v2),
        loc_distinct(loc),
        s1 != s2,
    ensures
        !(side_has(v1, id) && side_has(v2, id)),
{
    if side_has(v1, id) && side_has(v2, id) {
        let i1 = choose|i: int| 0 <= i < v1.len() && queue_has(v1[i].queue, id);
        let j1 = choose|j: int| 0 <= j < v1[i1].queue.len() && v1[i1].queue[j].id == id;
        let i2 = choose|i: int| 0 <= i < v2.len() && queue_has(v2[i].queue, id);
        let j2 = choose|j: int| 0 <= j < v2[i2].queue.len() && v2[i2].queue[j].id == id;
        assert(loc_has(loc, id, s1, v1[i1].price));
        assert(loc_has(loc, id, s2, v2[i2].price));
        let k1 = choose|k: int| 0 <= k < loc.len() && loc[k].id == id && loc[k].side == s1
            && loc[k].price == v1[i1].price;
        let k2 = choose|k: int| 0 <= k < loc.len() && loc[k].id == id && loc[k].side == s2
            && loc[k].price == v2[i2].price;
        assert(k1 == k2);
        assert(false);
    }
}

/// Matching never invents an order: every id surviving on the opposing side
/// was already there.
pub proof fn lemma_match_ids_subset(q: int, side: Side, limit: u64, levels: Seq<LevelView>, id: u128)
    ensures
        side_has(match_levels(q, side, limit, levels).levels, id) ==> side_has(levels, id),
    decreases levels.len(), head_queue_len(levels),
{
    let m = match_levels(q, side, limit, levels);
    if q <= 0 || levels.len() == 0 || !crosses(side, limit, levels[0].price)
        || levels[0].queue.len() == 0 {
    } else {
        let lv = levels[0];
        let head = lv.queue[0];
        if q < head.quantity {
            if side_has(m.levels, id) {
                let i = choose|i: int| 0 <= i < m.levels.len() && queue_has(m.levels[i].queue, id);
                let j = choose|j: int| 0 <= j < m.levels[i].queue.len() && m.levels[i].queue[j].id
                    == id;
                if i == 0 {
                    assert(levels[0].queue[j].id == id);
                    assert(queue_has(levels[0].queue, id));
                } else {
                    assert(queue_has(levels[i].queue, id));
                }
            }
        } else {
            let rest = if lv.queue.len() == 1 {
                levels.drop_first()
            } else {
                levels.update(0, LevelView { price: lv.price, queue: lv.queue.drop_first() })
            };
            lemma_match_ids_subset(q - head.quantity, side, limit, rest, id);
            if side_has(m.levels, id) {
                assert(side_has(rest, id));
                let i = choose|i: int| 0 <= i < rest.len() && queue_has(rest[i].queue, id);
                let j = choose|j: int| 0 <= j < rest[i].queue.len() && rest[i].queue[j].id == id;
                if lv.queue.len() == 1 {
                    assert(rest[i] == levels[i + 1]);
                    assert(queue_has(levels[i + 1].queue, id));
                } else {
                    if i == 0 {
                        assert(rest[0].queue[j] == levels[0].queue[j + 1]);
                        assert(queue_has(levels[0].queue, id));
                    } else {
                        assert(queue_has(levels[i].queue, id));
                    }
                }
            }
        }
    }
}

/// Pulling one execution off the front of a trade list splits its total.
pub proof fn lemma_pairs_qty_cons(x: (u64, u64), t: Seq<(u64, u64)>)
    ensures
        pairs_qty(seq![x] + t) == x.1 + pairs_qty(t),
    decreases t.len(),
{
    if t.len() == 0 {
        assert((seq![x] + t) =~= seq![x]);
        assert(seq![x].drop_last() =~= Seq::<(u64, u64)>::empty());
        assert(pairs_qty(Seq::<(u64, u64)>::empty()) == 0);
        assert(seq![x].last() == x);
        assert(pairs_qty(seq![x]) == pairs_qty(seq![x].drop_last()) + seq![x].last().1);
    } else {
        lemma_pairs_qty_cons(x, t.drop_last());
        assert((seq![x] + t).drop_last() =~= seq![x] + t.drop_last());
        assert((seq![x] + t).last() == t.last());
    }
}

/// Dropping the head order loses exactly its quantity.
pub proof fn lemma_queue_qty_drop_first(q: Seq<Order>)
    requires
        q.len() > 0,
    ensures
        queue_qty(q.drop_first()) == queue_qty(q) - q[0].quantity,
    decreases q.len(),
{
    if q.len() == 1 {
        assert(q.drop_first() =~= Seq::<Order>::empty());
        assert(q.drop_last() =~= Seq::<Order>::empty());
    } else {
        lemma_queue_qty_drop_first(q.drop_last());
        assert(q.drop_first().drop_last() =~= q.drop_last().drop_first());
        assert(q.drop_first().last() == q.last());
        assert(q.drop_last()[0] == q[0]);
    }
}

/// Replacing one order changes the queue's total by the quantity delta.
pub proof fn lemma_queue_qty_update(q: Seq<Order>, j: int, o: Order)
    requires
        0 <= j < q.len(),
    ensures
        queue_qty(q.update(j, o)) == queue_qty(q) - q[j].quantity + o.quantity,
    decreases q.len(),
{
    if j == q.len() - 1 {
        assert(q.update(j, o).drop_last() =~= q.drop_last());
        assert(q.update(j, o).last() == o);
    } else {
        assert(q.update(j, o).drop_last() =~= q.drop_last().update(j, o));
        lemma_queue_qty_update(q.drop_last(), j, o);
        assert(q.update(j, o).last() == q.last());
        assert(q.drop_last()[j] == q[j]);
    }
}

/// Dropping the best level loses exactly its quantity.
pub proof fn lemma_side_qty_drop_first(v: Seq<LevelView>)
    requires
        v.len() > 0,
    ensures
        side_qty(v.drop_first()) == side_qty(v) - queue_qty(v[0].queue),
    decreases v.len(),
{
    if v.len() == 1 {
        assert(v.drop_first() =~= Seq::<LevelView>::empty());
        assert(v.drop_last() =~= Seq::<LevelView>::empty());
    } else {
        lemma_side_qty_drop_first(v.drop_last());
        assert(v.drop_first().drop_last() =~= v.drop_last().drop_first());
        assert(v.drop_first().last() == v.last());
        assert(v.drop_last()[0] == v[0]);
    }
}

/// Replacing one level changes the side's total by the queue-total delta.
pub proof fn lemma_side_qty_update(v: Seq<LevelView>, i: int, lv: LevelView)
    requires
        0 <= i < v.len(),
    ensures
        side_qty(v.update(i, lv)) == side_qty(v) - queue_qty(v[i].queue) + queue_qty(lv.queue),
    decreases v.len(),
{
    if i == v.len() - 1 {
        assert(v.update(i, lv).drop_last() =~= v.drop_last());
        assert(v.update(i, lv).last() == lv);
    } else {
        assert(v.update(i, lv).drop_last() =~= v.drop_last().update(i, lv));
        lemma_side_qty_update(v.drop_last(), i, lv);
        assert(v.update(i, lv).last() == v.last());
        assert(v.drop_last()[i] == v[i]);
    }
}

/// Quantity conservation: a matching run moves exactly as much quantity
/// out of the incoming order as it records in trades, and exactly that
/// much off the resting side — no quantity is created or destroyed, and
/// the leftover never exceeds what came in.
pub proof fn lemma_match_conserves(q: int, side: Side, limit: u64, levels: Seq<LevelView>)
    requires
        q >= 0,
    ensures
        ({
            let m = match_levels(q, side, limit, levels);
            &&& m.left + pairs_qty(m.trades) == q
            &&& side_qty(m.levels) + pairs_qty(m.trades) == side_qty(levels)
            &&& 0 <= m.left <= q
        }),
    decreases levels.len(), head_queue_len(levels),
{
    let m = match_levels(q, side, limit, levels);
    if q <= 0 || levels.len() == 0 || !crosses(side, limit, levels[0].price)
        || levels[0].queue.len() == 0 {
    } else {
        let lv = levels[0];
        let head = lv.queue[0];
        if q < head.quantity {
            let reduced = Order {
                id: head.id,
                side: head.side,
                price: head.price,
                quantity: (head.quantity - q) as u64,
            };
            let nlv = LevelView { price: lv.price, queue: lv.queue.update(0, reduced) };
            lemma_pairs_qty_cons((lv.price, q as u64), Seq::<(u64, u64)>::empty());
            assert(seq![(lv.price, q as u64)] + Seq::<(u64, u64)>::empty() =~= seq![
                (lv.price, q as u64),
            ]);
            lemma_queue_qty_update(lv.queue, 0, reduced);
            lemma_side_qty_update(levels, 0, nlv);
        } else {
            let rest = if lv.queue.len() == 1 {
                levels.drop_first()
            } else {
                levels.update(0, LevelView { price: lv.price, queue: lv.queue.drop_first() })
            };
            let sub = match_levels(q - head.quantity, side, limit, rest);
            lemma_match_conserves(q - head.quantity, side, limit, rest);
            lemma_pairs_qty_cons((lv.price, head.quantity), sub.trades);
            if lv.queue.len() == 1 {
                lemma_side_qty_drop_first(levels);
                assert(lv.queue.drop_last() =~= Seq::<Order>::empty());
                assert(queue_qty(Seq::<Order>::empty()) == 0);
                assert(lv.queue.last() == head);
                assert(queue_qty(lv.queue) == queue_qty(lv.queue.drop_last())
                    + lv.queue.last().quantity);
                assert(queue_qty(lv.queue) == head.quantity);
            } else {
                lemma_queue_qty_drop_first(lv.queue);
                lemma_side_qty_update(
                    levels,
                    0,
                    LevelView { price: lv.price, queue: lv.queue.drop_first() },
                );
            }
        }
    }
}

/// Resting on no match: when no opposing level crosses the incoming limit,
/// matching records no trade, leaves the opposing side untouched, and
/// leaves the incoming order's whole quantity over to rest.
pub proof fn lemma_no_cross_rests(q: int, side: Side, limit: u64, levels: Seq<LevelView>)
    requires
        forall|i: int| 0 <= i < levels.len() ==> !crosses(side, limit, (#[trigger] levels[i]).price),
    ensures
        match_levels(q, side, limit, levels).trades =~= Seq::<(u64, u64)>::empty(),
        match_levels(q, side, limit, levels).levels == levels,
        match_levels(q, side, limit, levels).left == q,
{
    if levels.len() > 0 {
        assert(!crosses(side, limit, levels[0].price));
    }
}

/// Price priority: trades execute best price first. Every trade crosses
/// the incoming limit, and the trade prices run from better to worse —
/// non-decreasing for a buy, non-increasing for a sell. Each price is the
/// best still-crossable opposing price at its moment, so an aggressor
/// matching a resting order priced inside its limit receives price
/// improvement, never degradation.
pub proof fn lemma_match_price_priority(q: int, side: Side, limit: u64, levels: Seq<LevelView>)
    requires
        side_sorted(side.opposite_spec(), levels),
    ensures
        ({
            let m = match_levels(q, side, limit, levels);
            &&& (forall|k: int|
                0 <= k < m.trades.len() ==> crosses(side, limit, (#[trigger] m.trades[k]).0))
            &&& (forall|k: int|
                0 <= k < m.trades.len() ==> levels.len() > 0 && ((#[trigger] m.trades[k]).0
                    == levels[0].price || better(
                    side.opposite_spec(),
                    levels[0].price,
                    m.trades[k].0,
                )))
            &&& (forall|k1: int, k2: int|
                0 <= k1 < k2 < m.trades.len() ==> (#[trigger] m.trades[k1]).0
                    == (#[trigger] m.trades[k2]).0 || better(
                    side.opposite_spec(),
                    m.trades[k1].0,
                    m.trades[k2].0,
                ))
        }),
    decreases levels.len(), head_queue_len(levels),
{
    let opp = side.opposite_spec();
    let m = match_levels(q, side, limit, levels);
    if q <= 0 || levels.len() == 0 || !crosses(side, limit, levels[0].price)
        || levels[0].queue.len() == 0 {
    } else {
        let lv = levels[0];
        let head = lv.queue[0];
        if q < head.quantity {
        } else {
            let rest = if lv.queue.len() == 1 {
                levels.drop_first()
            } else {
                levels.update(0, LevelView { price: lv.price, queue: lv.queue.drop_first() })
            };
            assert(side_sorted(opp, rest)) by {
                assert forall|i: int, j: int| 0 <= i < j < rest.len() implies better(
                    opp,
                    (#[trigger] rest[i]).price,
                    (#[trigger] rest[j]).price,
                ) by {
                    if lv.queue.len() == 1 {
                        assert(rest[i] == levels[i + 1]);
                        assert(rest[j] == levels[j + 1]);
                    } else {
                        assert(rest[j] == levels[j]);
                        if i != 0 {
                            assert(rest[i] == levels[i]);
                        }
                    }
                }
            }
            lemma_match_price_priority(q - head.quantity, side, limit, rest);
            let sub = match_levels(q - head.quantity, side, limit, rest);
            assert(m.trades == seq![(lv.price, head.quantity)] + sub.trades);
            assert forall|k: int| 0 <= k < m.trades.len() implies crosses(
                side,
                limit,
                (#[trigger] m.trades[k]).0,
            ) by {
                if k == 0 {
                    assert(m.trades[0] == (lv.price, head.quantity));
                } else {
                    assert(m.trades[k] == sub.trades[k - 1]);
                }
            }
            assert forall|k: int| 0 <= k < m.trades.len() implies ((#[trigger] m.trades[k]).0
                == levels[0].price || better(opp, levels[0].price, m.trades[k].0)) by {
                if k == 0 {
                    assert(m.trades[0] == (lv.price, head.quantity));
                } else {
                    assert(m.trades[k] == sub.trades[k - 1]);
                    if sub.trades.len() > 0 {
                        assert(rest.len() > 0);
                        if lv.queue.len() == 1 {
                            assert(rest[0] == levels[1]);
                            assert(better(opp, levels[0].price, rest[0].price));
                        } else {
                            assert(rest[0].price == levels[0].price);
                        }
                    }
                }
            }
            assert forall|k1: int, k2: int|
                0 <= k1 < k2 < m.trades.len() implies (#[trigger] m.trades[k1]).0
                == (#[trigger] m.trades[k2]).0 || better(opp, m.trades[k1].0, m.trades[k2].0) by {
                if k1 == 0 {
                    assert(m.trades[0] == (lv.price, head.quantity));
                    assert(m.trades[k2] == sub.trades[k2 - 1]);
                } else {
                    assert(m.trades[k1] == sub.trades[k1 - 1]);
                    assert(m.trades[k2] == sub.trades[k2 - 1]);
                }
            }
        }
    }
}

/// Total resting quantity on levels whose price crosses the incoming
/// limit.
pub open spec fn crossable_qty(side: Side, limit: u64, levels: Seq<LevelView>) -> int
    decreases levels.len(),
{
    if levels.len() == 0 {
        0
    } else {
        crossable_qty(side, limit, levels.drop_last()) + (if crosses(
            side,
            limit,
            levels.last().price,
        ) {
            queue_qty(levels.last().queue)
        } else {
            0
        })
    }
}

/// Dropping the best level loses exactly its crossable quantity.
pub proof fn lemma_crossable_drop_first(side: Side, limit: u64, v: Seq<LevelView>)
    requires
        v.len() > 0,
    ensures
        crossable_qty(side, limit, v.drop_first()) == crossable_qty(side, limit, v) - (if crosses(
            side,
            limit,
            v[0].price,
        ) {
            queue_qty(v[0].queue)
        } else {
            0
        }),
    decreases v.len(),
{
    if v.len() == 1 {
        assert(v.drop_first() =~= Seq::<LevelView>::empty());
        assert(v.drop_last() =~= Seq::<LevelView>::empty());
    } else {
        lemma_crossable_drop_first(side, limit, v.drop_last());
        assert(v.drop_first().drop_last() =~= v.drop_last().drop_first());
        assert(v.drop_first().last() == v.last());
        assert(v.drop_last()[0] == v[0]);
    }
}

/// Replacing one level by one at the same price shifts the crossable total
/// by the queue-total delta when that price crosses.
pub proof fn lemma_crossable_update(side: Side, limit: u64, v: Seq<LevelView>, i: int, lv: LevelView)
    requires
        0 <= i < v.len(),
        lv.price == v[i].price,
    ensures
        crossable_qty(side, limit, v.update(i, lv)) == crossable_qty(side, limit, v) + (if crosses(
            side,
            limit,
            lv.price,
        ) {
            queue_qty(lv.queue) - queue_qty(v[i].queue)
        } else {
            0
        }),
    decreases v.len(),
{
    if i == v.len() - 1 {
        assert(v.update(i, lv).drop_last() =~= v.drop_last());
        assert(v.update(i, lv).last() == lv);
    } else {
        assert(v.update(i, lv).drop_last() =~= v.drop_last().update(i, lv));
        lemma_crossable_update(side, limit, v.drop_last(), i, lv);
        assert(v.update(i, lv).last() == v.last());
        assert(v.drop_last()[i] == v[i]);
    }
}

/// When even the best opposing price does not cross, nothing does.
pub proof fn lemma_crossable_none(side: Side, limit: u64, v: Seq<LevelView>)
    requires
        side_sorted(side.opposite_spec(), v),
        v.len() > 0 ==> !crosses(side, limit, v[0].price),
    ensures
        crossable_qty(side, limit, v) == 0,
    decreases v.len(),
{
    if v.len() > 0 {
        if v.len() > 1 {
            assert(better(side.opposite_spec(), v[0].price, v.last().price));
        }
        assert(!crosses(side, limit, v.last().price));
        assert forall|i: int, j: int| 0 <= i < j < v.drop_last().len() implies better(
            side.opposite_spec(),
            (#[trigger] v.drop_last()[i]).price,
            (#[trigger] v.drop_last()[j]).price,
        ) by {
            assert(v.drop_last()[i] == v[i]);
            assert(v.drop_last()[j] == v[j]);
        }
        if v.len() > 1 {
            assert(v.drop_last()[0] == v[0]);
        }
        lemma_crossable_none(side, limit, v.drop_last());
    }
}

/// Success is owed: when the opposing side's crossable levels together
/// hold at least the incoming quantity, matching absorbs the incoming
/// order completely — nothing is left to rest.
pub proof fn lemma_sufficient_liquidity_fills(q: int, side: Side, limit: u64, levels: Seq<LevelView>)
    requires
        q >= 0,
        side_sorted(side.opposite_spec(), levels),
        forall|i: int| 0 <= i < levels.len() ==> (#[trigger] levels[i]).queue.len() > 0,
        crossable_qty(side, limit, levels) >= q,
    ensures
        match_levels(q, side, limit, levels).left == 0,
    decreases levels.len(), head_queue_len(levels),
{
    if q <= 0 {
    } else if levels.len() == 0 {
        assert(false);
    } else if !crosses(side, limit, levels[0].price) {
        lemma_crossable_none(side, limit, levels);
        assert(false);
    } else {
        let lv = levels[0];
        let head = lv.queue[0];
        if q < head.quantity {
        } else {
            let rest = if lv.queue.len() == 1 {
                levels.drop_first()
            } else {
                levels.update(0, LevelView { price: lv.price, queue: lv.queue.drop_first() })
            };
            if lv.queue.len() == 1 {
                lemma_crossable_drop_first(side, limit, levels);
                assert(lv.queue.drop_last() =~= Seq::<Order>::empty());
                assert(queue_qty(Seq::<Order>::empty()) == 0);
                assert(lv.queue.last() == head);
                assert(queue_qty(lv.queue) == head.quantity);
            } else {
                let nlv = LevelView { price: lv.price, queue: lv.queue.drop_first() };
                lemma_crossable_update(side, limit, levels, 0, nlv);
                lemma_queue_qty_drop_first(lv.queue);
            }
            assert(crossable_qty(side, limit, rest) >= q - head.quantity);
            assert forall|i: int, j: int| 0 <= i < j < rest.len() implies better(
                side.opposite_spec(),
                (#[trigger] rest[i]).price,
                (#[trigger] rest[j]).price,
            ) by {
                if lv.queue.len() == 1 {
                    assert(rest[i] == levels[i + 1]);
                    assert(rest[j] == levels[j + 1]);
                } else {
                    assert(rest[j] == levels[j]);
                    if i != 0 {
                        assert(rest[i] == levels[i]);
                    }
                }
            }
            assert forall|i: int| 0 <= i < rest.len() implies (#[trigger] rest[i]).queue.len()
                > 0 by {
                if lv.queue.len() == 1 {
                    assert(rest[i] == levels[i + 1]);
                } else {
                    if i != 0 {
                        assert(rest[i] == levels[i]);
                    }
                }
            }
            lemma_sufficient_liquidity_fills(q - head.quantity, side, limit, rest);
        }
    }
}

/// `after` is `before` with a front prefix of its queue consumed: the same
/// price, the survivors exactly the original tail in order, and at most
/// the oldest survivor's quantity reduced (its identity untouched).
pub open spec fn consumed_prefix(before: LevelView, after: LevelView) -> bool {
    &&& after.price == before.price
    &&& after.queue.len() <= before.queue.len()
    &&& (after.queue.len() > 0 ==> ({
        let dj = before.queue.len() - after.queue.len();
        &&& (forall|j: int|
            1 <= j < after.queue.len() ==> after.queue[j] == before.queue[dj + j])
        &&& after.queue[0].id == before.queue[dj].id
        &&& after.queue[0].side == before.queue[dj].side
        &&& after.queue[0].price == before.queue[dj].price
        &&& after.queue[0].quantity <= before.queue[dj].quantity
    }))
}

/// Consuming a prefix of a prefix consumes a prefix.
pub proof fn lemma_consumed_prefix_trans(a: LevelView, b: LevelView, c: LevelView)
    requires
        consumed_prefix(a, b),
        consumed_prefix(b, c),
    ensures
        consumed_prefix(a, c),
{
    if c.queue.len() > 0 {
        let dj1 = a.queue.len() - b.queue.len();
        let dj2 = b.queue.len() - c.queue.len();
        assert forall|j: int| 1 <= j < c.queue.len() implies c.queue[j] == a.queue[
            (dj1 + dj2) + j
        ] by {
            assert(c.queue[j] == b.queue[dj2 + j]);
            assert(b.queue[dj2 + j] == a.queue[dj1 + dj2 + j]);
        }
        assert(b.queue[dj2].id == a.queue[dj1 + dj2].id) by {
            if dj2 >= 1 {
                assert(b.queue[dj2] == a.queue[dj1 + dj2]);
            }
        }
        assert(b.queue[dj2].quantity <= a.queue[dj1 + dj2].quantity) by {
            if dj2 >= 1 {
                assert(b.queue[dj2] == a.queue[dj1 + dj2]);
            }
        }
        assert(b.queue[dj2].side == a.queue[dj1 + dj2].side && b.queue[dj2].price == a.queue[
            dj1 + dj2
        ].price) by {
            if dj2 >= 1 {
                assert(b.queue[dj2] == a.queue[dj1 + dj2]);
            }
        }
    }
}

/// Time priority: matching consumes the opposing side strictly from the
/// front. Whole best levels disappear first; in the first surviving level
/// only a front prefix of the queue — the oldest orders — is gone, at most
/// the oldest survivor is reduced, and every younger order and every worse
/// level is untouched. So within a price level an order receives quantity
/// only after every older order at that price is fully filled.
pub proof fn lemma_match_fifo(q: int, side: Side, limit: u64, levels: Seq<LevelView>)
    ensures
        ({
            let m = match_levels(q, side, limit, levels);
            let di = levels.len() - m.levels.len();
            &&& m.levels.len() <= levels.len()
            &&& (forall|i: int| 1 <= i < m.levels.len() ==> m.levels[i] == levels[di + i])
            &&& (m.levels.len() > 0 ==> consumed_prefix(levels[di], m.levels[0]))
        }),
    decreases levels.len(), head_queue_len(levels),
{
    let m = match_levels(q, side, limit, levels);
    if q <= 0 || levels.len() == 0 || !crosses(side, limit, levels[0].price)
        || levels[0].queue.len() == 0 {
    } else {
        let lv = levels[0];
        let head = lv.queue[0];
        if q < head.quantity {
        } else {
            let rest = if lv.queue.len() == 1 {
                levels.drop_first()
            } else {
                levels.update(0, LevelView { price: lv.price, queue: lv.queue.drop_first() })
            };
            lemma_match_fifo(q - head.quantity, side, limit, rest);
            let sub = match_levels(q - head.quantity, side, limit, rest);
            let dis = rest.len() - sub.levels.len();
            let di = levels.len() - m.levels.len();
            if lv.queue.len() == 1 {
                assert(di == dis + 1);
                assert forall|i: int| 1 <= i < m.levels.len() implies m.levels[i] == levels[
                    di + i
                ] by {
                    assert(m.levels[i] == rest[dis + i]);
                    assert(rest[dis + i] == levels[dis + 1 + i]);
                }
                if m.levels.len() > 0 {
                    assert(rest[dis] == levels[di]);
                }
            } else {
                assert(di == dis);
                assert forall|i: int| 1 <= i < m.levels.len() implies m.levels[i] == levels[
                    di + i
                ] by {
                    assert(m.levels[i] == rest[dis + i]);
                    assert(rest[dis + i] == levels[dis + i]);
                }
                if m.levels.len() > 0 {
                    if dis == 0 {
                        assert(consumed_prefix(lv, rest[0]));
                        lemma_consumed_prefix_trans(lv, rest[0], m.levels[0]);
                    } else {
                        assert(rest[dis] == levels[dis]);
                    }
                }
            }
        }
    }
}

/// The shape the opposing side takes when its best level's head order is
/// fully consumed.
pub open spec fn after_head(v: Seq<LevelView>) -> Seq<LevelView> {
    if v[0].queue.len() == 1 {
        v.drop_first()
    } else {
        v.update(0, LevelView { price: v[0].price, queue: v[0].queue.drop_first() })
    }
}

/// Surviving locator entries for the consumed side still point at resting
/// orders after the head order leaves.
pub proof fn lemma_consume_entries_opp(
    loc0: Seq<Loc>,
    k: int,
    opp_side: Side,
    v: Seq<LevelView>,
)
    requires
        v.len() > 0,
        v[0].queue.len() > 0,
        entries_ok_side(loc0, opp_side, v),
        loc_distinct(loc0),
        0 <= k < loc0.len(),
        loc0[k].id == v[0].queue[0].id,
        side_unique(v, v[0].queue[0].id),
    ensures
        entries_ok_side(loc0.remove(k), opp_side, after_head(v)),
{
    let head_id = v[0].queue[0].id;
    let vn = after_head(v);
    let loc1 = loc0.remove(k);
    lemma_loc_remove(loc0, k);
    assert forall|m: int|
        0 <= m < loc1.len() && (#[trigger] loc1[m]).side == opp_side implies entry_at(
        vn,
        loc1[m].price,
        loc1[m].id,
    ) by {
        let e = loc1[m];
        assert(e == if m < k {
            loc0[m]
        } else {
            loc0[m + 1]
        });
        assert(e.id != head_id);
        assert(entry_at(v, e.price, e.id));
        let i = choose|i: int|
            0 <= i < v.len() && v[i].price == e.price && queue_has(v[i].queue, e.id);
        let j = choose|j: int| 0 <= j < v[i].queue.len() && v[i].queue[j].id == e.id;
        if v[0].queue.len() == 1 {
            if i == 0 {
                assert(j == 0);
                assert(false);
            } else {
                assert(vn[i - 1] == v[i]);
                assert(queue_has(vn[i - 1].queue, e.id));
            }
        } else {
            if i == 0 {
                if j == 0 {
                    assert(false);
                }
                assert(vn[0].queue[j - 1] == v[0].queue[j]);
                assert(queue_has(vn[0].queue, e.id));
                assert(vn[0].price == e.price);
            } else {
                assert(vn[i] == v[i]);
                assert(queue_has(vn[i].queue, e.id));
            }
        }
    }
}

/// Surviving locator entries for the untouched side are unaffected.
pub proof fn lemma_consume_entries_own(
    loc0: Seq<Loc>,
    k: int,
    own_side: Side,
    ov: Seq<LevelView>,
)
    requires
        entries_ok_side(loc0, own_side, ov),
        loc_distinct(loc0),
        0 <= k < loc0.len(),
    ensures
        entries_ok_side(loc0.remove(k), own_side, ov),
{
    let loc1 = loc0.remove(k);
    lemma_loc_remove(loc0, k);
    assert forall|m: int|
        0 <= m < loc1.len() && (#[trigger] loc1[m]).side == own_side implies entry_at(
        ov,
        loc1[m].price,
        loc1[m].id,
    ) by {
        assert(loc1[m] == if m < k {
            loc0[m]
        } else {
            loc0[m + 1]
        });
    }
}

/// Every order surviving on the consumed side is still covered once the
/// head order's entry is retired.
pub proof fn lemma_consume_covered_opp(
    loc0: Seq<Loc>,
    k: int,
    opp_side: Side,
    v: Seq<LevelView>,
)
    requires
        v.len() > 0,
        v[0].queue.len() > 0,
        covered(loc0, opp_side, v),
        loc_distinct(loc0),
        0 <= k < loc0.len(),
        loc0[k].id == v[0].queue[0].id,
        side_unique(v, v[0].queue[0].id),
    ensures
        covered(loc0.remove(k), opp_side, after_head(v)),
{
    let head_id = v[0].queue[0].id;
    let vn = after_head(v);
    let loc1 = loc0.remove(k);
    lemma_loc_remove(loc0, k);
    assert forall|i: int, j: int|
        0 <= i < vn.len() && 0 <= j < vn[i].queue.len() implies loc_has(
        loc1,
        (#[trigger] vn[i].queue[j]).id,
        opp_side,
        vn[i].price,
    ) by {
        let o = vn[i].queue[j];
        if v[0].queue.len() == 1 {
            assert(vn[i] == v[i + 1]);
            assert(o == v[i + 1].queue[j]);
            assert(loc_has(loc0, o.id, opp_side, v[i + 1].price));
            assert(o.id != head_id);
        } else {
            if i == 0 {
                assert(o == v[0].queue[j + 1]);
                assert(loc_has(loc0, o.id, opp_side, v[0].price));
                assert(o.id != head_id);
            } else {
                assert(vn[i] == v[i]);
                assert(o == v[i].queue[j]);
                assert(loc_has(loc0, o.id, opp_side, v[i].price));
                assert(o.id != head_id);
            }
        }
    }
}

/// Orders on the untouched side are still covered: none of them can carry
/// the consumed order's id.
pub proof fn lemma_consume_covered_own(
    loc0: Seq<Loc>,
    k: int,
    opp_side: Side,
    own_side: Side,
    v: Seq<LevelView>,
    ov: Seq<LevelView>,
)
    requires
        opp_side != own_side,
        covered(loc0, opp_side, v),
        covered(loc0, own_side, ov),
        loc_distinct(loc0),
        0 <= k < loc0.len(),
        side_has(v, loc0[k].id),
    ensures
        covered(loc0.remove(k), own_side, ov),
{
    let head_id = loc0[k].id;
    let loc1 = loc0.remove(k);
    lemma_loc_remove(loc0, k);
    lemma_covered_cross(loc0, opp_side, v, own_side, ov, head_id);
    assert forall|i: int, j: int|
        0 <= i < ov.len() && 0 <= j < ov[i].queue.len() implies loc_has(
        loc1,
        (#[trigger] ov[i].queue[j]).id,
        own_side,
        ov[i].price,
    ) by {
        let o = ov[i].queue[j];
        assert(loc_has(loc0, o.id, own_side, ov[i].price));
        assert(queue_has(ov[i].queue, o.id));
        assert(o.id != head_id);
    }
}

/// One unfolding of `match_levels` when nothing can match.
pub proof fn lemma_match_base(q: int, side: Side, limit: u64, v: Seq<LevelView>)
    requires
        q <= 0 || v.len() == 0 || !crosses(side, limit, v[0].price),
    ensures
        match_levels(q, side, limit, v).trades =~= Seq::<(u64, u64)>::empty(),
        match_levels(q, side, limit, v).levels == v,
        match_levels(q, side, limit, v).left == q,
{
}

/// One unfolding of `match_levels` when the head order is fully consumed.
pub proof fn lemma_match_step_full(q: int, side: Side, limit: u64, v: Seq<LevelView>)
    requires
        q > 0,
        v.len() > 0,
        crosses(side, limit, v[0].price),
        v[0].queue.len() > 0,
        q >= v[0].queue[0].quantity,
    ensures
        ({
            let mc = match_levels(q, side, limit, v);
            let mcn = match_levels(
                q - v[0].queue[0].quantity,
                side,
                limit,
                after_head(v),
            );
            &&& mc.trades == seq![(v[0].price, v[0].queue[0].quantity)] + mcn.trades
            &&& mc.levels == mcn.levels
            &&& mc.left == mcn.left
        }),
{
}

/// One unfolding of `match_levels` when the head order absorbs the whole
/// incoming remainder.
pub proof fn lemma_match_step_partial(q: int, side: Side, limit: u64, v: Seq<LevelView>)
    requires
        q > 0,
        v.len() > 0,
        crosses(side, limit, v[0].price),
        v[0].queue.len() > 0,
        q < v[0].queue[0].quantity,
    ensures
        ({
            let head = v[0].queue[0];
            let reduced = Order {
                id: head.id,
                side: head.side,
                price: head.price,
                quantity: (head.quantity - q) as u64,
            };
            let mc = match_levels(q, side, limit, v);
            &&& mc.trades =~= seq![(v[0].price, q as u64)]
            &&& mc.levels == v.update(
                0,
                LevelView { price: v[0].price, queue: v[0].queue.update(0, reduced) },
            )
            &&& mc.left == 0
        }),
{
}

/// Shifting a suffix of the produced executions by one.
pub proof fn lemma_skip_shift(s: Seq<(u64, u64)>, n: int)
    requires
        0 <= n < s.len(),
    ensures
        s.skip(n).drop_first() =~= s.skip(n + 1),
        s.skip(n)[0] == s[n],
{
}

/// Where the recursive insertion lands once the scan reaches position `i`.
pub proof fn lemma_insert_order_at(levels: Seq<LevelView>, ord: Order, i: int)
    requires
        0 <= i <= levels.len(),
        forall|m: int| 0 <= m < i ==> (#[trigger] levels[m]).price != ord.price && !better(
            ord.side,
            ord.price,
            levels[m].price,
        ),
    ensures
        i < levels.len() && levels[i].price == ord.price ==> insert_order(levels, ord) =~= levels
            .update(i, LevelView { price: ord.price, queue: levels[i].queue.push(ord) }),
        i < levels.len() && levels[i].price != ord.price && better(ord.side, ord.price, levels[i].price)
            ==> insert_order(levels, ord) =~= levels.insert(
            i,
            LevelView { price: ord.price, queue: seq![ord] },
        ),
        i == levels.len() ==> insert_order(levels, ord) =~= levels.insert(
            i,
            LevelView { price: ord.price, queue: seq![ord] },
        ),
    decreases i,
{
    if i == 0 {
        if 0 < levels.len() && levels[0].price == ord.price {
        } else if 0 < levels.len() && better(ord.side, ord.price, levels[0].price) {
            assert(insert_order(levels, ord) =~= levels.insert(
                0,
                LevelView { price: ord.price, queue: seq![ord] },
            ));
        } else if levels.len() == 0 {
            assert(insert_order(levels, ord) =~= levels.insert(
                0,
                LevelView { price: ord.price, queue: seq![ord] },
            ));
        }
    } else {
        let sub = levels.drop_first();
        assert forall|m: int| 0 <= m < i - 1 implies (#[trigger] sub[m]).price != ord.price
            && !better(ord.side, ord.price, sub[m].price) by {
            assert(sub[m] == levels[m + 1]);
        }
        lemma_insert_order_at(sub, ord, i - 1);
        assert(levels[0].price != ord.price && !better(ord.side, ord.price, levels[0].price));
        assert(insert_order(levels, ord) == seq![levels[0]] + insert_order(sub, ord));
        if i < levels.len() && levels[i].price == ord.price {
            assert(sub[i - 1] == levels[i]);
            assert(insert_order(levels, ord) =~= levels.update(
                i,
                LevelView { price: ord.price, queue: levels[i].queue.push(ord) },
            ));
        } else if i < levels.len() && better(ord.side, ord.price, levels[i].price) {
            assert(sub[i - 1] == levels[i]);
            assert(insert_order(levels, ord) =~= levels.insert(
                i,
                LevelView { price: ord.price, queue: seq![ord] },
            ));
        } else if i == levels.len() {
            assert(insert_order(levels, ord) =~= levels.insert(
                i,
                LevelView { price: ord.price, queue: seq![ord] },
            ));
        }
    }
}

/// Appending a locator entry keeps every earlier binding and adds the new
/// one; distinctness survives when the new id is fresh.
pub proof fn lemma_loc_push(loc: Seq<Loc>, e: Loc)
    ensures
        forall|id: u128, s: Side, p: u64|
            #[trigger] loc_has(loc, id, s, p) ==> loc_has(loc.push(e), id, s, p),
        loc_has(loc.push(e), e.id, e.side, e.price),
        loc_distinct(loc) && (forall|k: int| 0 <= k < loc.len() ==> (#[trigger] loc[k]).id
            != e.id) ==> loc_distinct(loc.push(e)),
{
    assert forall|id: u128, s: Side, p: u64| #[trigger] loc_has(loc, id, s, p) implies loc_has(
        loc.push(e),
        id,
        s,
        p,
    ) by {
        let k = choose|k: int|
            0 <= k < loc.len() && loc[k].id == id && loc[k].side == s && loc[k].price == p;
        assert(loc.push(e)[k] == loc[k]);
    }
    assert(loc.push(e)[loc.len() as int] == e);
}

/// Resting an order at the tail of an existing level keeps the locator
/// consistent with that side.
pub proof fn lemma_rest_level_append(loc: Seq<Loc>, side: Side, v: Seq<LevelView>, i: int, ord: Order)
    requires
        entries_ok_side(loc, side, v),
        covered(loc, side, v),
        0 <= i < v.len(),
        v[i].price == ord.price,
        ord.side == side,
    ensures
        ({
            let vn = v.update(i, LevelView { price: v[i].price, queue: v[i].queue.push(ord) });
            let ln = loc.push(Loc { id: ord.id, side: ord.side, price: ord.price });
            entries_ok_side(ln, side, vn) && covered(ln, side, vn)
        }),
{
    let vn = v.update(i, LevelView { price: v[i].price, queue: v[i].queue.push(ord) });
    let e = Loc { id: ord.id, side: ord.side, price: ord.price };
    let ln = loc.push(e);
    lemma_loc_push(loc, e);
    assert forall|k: int| 0 <= k < ln.len() && (#[trigger] ln[k]).side == side implies entry_at(
        vn,
        ln[k].price,
        ln[k].id,
    ) by {
        if k < loc.len() {
            assert(ln[k] == loc[k]);
            assert(entry_at(v, loc[k].price, loc[k].id));
            let iw = choose|iw: int|
                0 <= iw < v.len() && v[iw].price == loc[k].price && queue_has(
                    v[iw].queue,
                    loc[k].id,
                );
            let jw = choose|jw: int| 0 <= jw < v[iw].queue.len() && v[iw].queue[jw].id == loc[k].id;
            assert(vn[iw].queue[jw].id == loc[k].id);
            assert(queue_has(vn[iw].queue, loc[k].id));
        } else {
            assert(ln[k] == e);
            assert(vn[i].queue[v[i].queue.len() as int] == ord);
            assert(queue_has(vn[i].queue, ord.id));
        }
    }
    assert forall|i2: int, j2: int|
        0 <= i2 < vn.len() && 0 <= j2 < vn[i2].queue.len() implies loc_has(
        ln,
        (#[trigger] vn[i2].queue[j2]).id,
        side,
        vn[i2].price,
    ) by {
        if i2 == i && j2 == v[i].queue.len() {
            assert(vn[i2].queue[j2] == ord);
        } else {
            assert(vn[i2].queue[j2] == v[i2].queue[j2]);
            assert(loc_has(loc, v[i2].queue[j2].id, side, v[i2].price));
        }
    }
}

/// Resting an order in a freshly created level keeps the locator consistent
/// with that side.
pub proof fn lemma_rest_level_new(loc: Seq<Loc>, side: Side, v: Seq<LevelView>, i: int, ord: Order)
    requires
        entries_ok_side(loc, side, v),
        covered(loc, side, v),
        0 <= i <= v.len(),
        ord.side == side,
    ensures
        ({
            let vn = v.insert(i, LevelView { price: ord.price, queue: seq![ord] });
            let ln = loc.push(Loc { id: ord.id, side: ord.side, price: ord.price });
            entries_ok_side(ln, side, vn) && covered(ln, side, vn)
        }),
{
    let nlv = LevelView { price: ord.price, queue: seq![ord] };
    let vn = v.insert(i, nlv);
    let e = Loc { id: ord.id, side: ord.side, price: ord.price };
    let ln = loc.push(e);
    lemma_loc_push(loc, e);
    assert(vn[i] == nlv);
    assert forall|k: int| 0 <= k < ln.len() && (#[trigger] ln[k]).side == side implies entry_at(
        vn,
        ln[k].price,
        ln[k].id,
    ) by {
        if k < loc.len() {
            assert(ln[k] == loc[k]);
            assert(entry_at(v, loc[k].price, loc[k].id));
            let iw = choose|iw: int|
                0 <= iw < v.len() && v[iw].price == loc[k].price && queue_has(
                    v[iw].queue,
                    loc[k].id,
                );
            if iw < i {
                assert(vn[iw] == v[iw]);
            } else {
                assert(vn[iw + 1] == v[iw]);
            }
        } else {
            assert(ln[k] == e);
            assert(vn[i].queue[0] == ord);
            assert(queue_has(vn[i].queue, ord.id));
        }
    }
    assert forall|i2: int, j2: int|
        0 <= i2 < vn.len() && 0 <= j2 < vn[i2].queue.len() implies loc_has(
        ln,
        (#[trigger] vn[i2].queue[j2]).id,
        side,
        vn[i2].price,
    ) by {
        if i2 == i {
            assert(vn[i2].queue[j2] == ord);
        } else if i2 < i {
            assert(vn[i2] == v[i2]);
            assert(loc_has(loc, v[i2].queue[j2].id, side, v[i2].price));
        } else {
            assert(vn[i2] == v[i2 - 1]);
            assert(loc_has(loc, v[i2 - 1].queue[j2].id, side, v[i2 - 1].price));
        }
    }
}

/// A new entry for the other side leaves this side's locator facts intact.
pub proof fn lemma_rest_other_side(loc: Seq<Loc>, side: Side, ov: Seq<LevelView>, e: Loc)
    requires
        entries_ok_side(loc, side, ov),
        covered(loc, side, ov),
        e.side != side,
    ensures
        entries_ok_side(loc.push(e), side, ov),
        covered(loc.push(e), side, ov),
{
    let ln = loc.push(e);
    lemma_loc_push(loc, e);
    assert forall|k: int| 0 <= k < ln.len() && (#[trigger] ln[k]).side == side implies entry_at(
        ov,
        ln[k].price,
        ln[k].id,
    ) by {
        assert(k < loc.len());
        assert(ln[k] == loc[k]);
    }
    assert forall|i2: int, j2: int|
        0 <= i2 < ov.len() && 0 <= j2 < ov[i2].queue.len() implies loc_has(
        ln,
        (#[trigger] ov[i2].queue[j2]).id,
        side,
        ov[i2].price,
    ) by {
        assert(loc_has(loc, ov[i2].queue[j2].id, side, ov[i2].price));
    }
}

/// Appending to the queue of the level that carries the order's price keeps
/// the side well formed under the raised id bound.
pub proof fn lemma_side_ok_append_queue(side: Side, nid2: u128, v: Seq<LevelView>, i: int, ord: Order)
    requires
        side_ok(side, ord.id, v),
        0 <= i < v.len(),
        v[i].price == ord.price,
        ord.side == side,
        ord.quantity > 0,
        ord.price > 0,
        ord.id < nid2,
    ensures
        side_ok(side, nid2, v.update(i, LevelView { price: v[i].price, queue: v[i].queue.push(ord) })),
{
    let nlv = LevelView { price: v[i].price, queue: v[i].queue.push(ord) };
    let vn = v.update(i, nlv);
    assert(level_ok(side, nid2, nlv)) by {
        assert(level_ok(side, ord.id, v[i]));
        let nq = nlv.queue;
        assert forall|j: int| 0 <= j < nq.len() implies ((#[trigger] nq[j]).price == nlv.price
            && nq[j].side == side && nq[j].quantity > 0 && nq[j].id < nid2) by {
            if j < v[i].queue.len() {
                assert(nq[j] == v[i].queue[j]);
            } else {
                assert(nq[j] == ord);
            }
        }
        assert forall|j: int, k: int| 0 <= j < k < nq.len() implies nq[j].id < nq[k].id by {
            if k < v[i].queue.len() {
                assert(nq[j] == v[i].queue[j]);
                assert(nq[k] == v[i].queue[k]);
            } else {
                assert(nq[j] == v[i].queue[j]);
                assert(nq[k] == ord);
            }
        }
    }
    assert forall|m: int| 0 <= m < vn.len() implies level_ok(side, nid2, #[trigger] vn[m]) by {
        if m != i {
            assert(vn[m] == v[m]);
            assert(level_ok(side, ord.id, v[m]));
        }
    }
    assert forall|m: int, m2: int| 0 <= m < m2 < vn.len() implies better(
        side,
        (#[trigger] vn[m]).price,
        (#[trigger] vn[m2]).price,
    ) by {
        assert(vn[m].price == v[m].price);
        assert(vn[m2].price == v[m2].price);
    }
}

/// Creating a new one-order level at the scan position keeps the side well
/// formed and sorted.
pub proof fn lemma_side_ok_insert_level(side: Side, nid2: u128, v: Seq<LevelView>, i: int, ord: Order)
    requires
        side_ok(side, ord.id, v),
        0 <= i <= v.len(),
        forall|m: int| 0 <= m < i ==> (#[trigger] v[m]).price != ord.price && !better(
            side,
            ord.price,
            v[m].price,
        ),
        i < v.len() ==> better(side, ord.price, v[i].price),
        ord.side == side,
        ord.quantity > 0,
        ord.price > 0,
        ord.id < nid2,
    ensures
        side_ok(side, nid2, v.insert(i, LevelView { price: ord.price, queue: seq![ord] })),
{
    let nlv = LevelView { price: ord.price, queue: seq![ord] };
    let vn = v.insert(i, nlv);
    assert(level_ok(side, nid2, nlv));
    assert forall|m: int| 0 <= m < vn.len() implies level_ok(side, nid2, #[trigger] vn[m]) by {
        if m < i {
            assert(vn[m] == v[m]);
            assert(level_ok(side, ord.id, v[m]));
        } else if m > i {
            assert(vn[m] == v[m - 1]);
            assert(level_ok(side, ord.id, v[m - 1]));
        }
    }
    assert forall|m: int, m2: int| 0 <= m < m2 < vn.len() implies better(
        side,
        (#[trigger] vn[m]).price,
        (#[trigger] vn[m2]).price,
    ) by {
        if m < i {
            assert(vn[m] == v[m]);
        }
        if m > i {
            assert(vn[m] == v[m - 1]);
        }
        if m2 < i {
            assert(vn[m2] == v[m2]);
        }
        if m2 > i {
            assert(vn[m2] == v[m2 - 1]);
        }
        if m2 == i && m < i {
            assert(v[m].price != ord.price && !better(side, ord.price, v[m].price));
        }
        if m == i && m2 > i {
            if i < v.len() {
                assert(better(side, ord.price, v[i].price));
                if m2 - 1 > i {
                    assert(better(side, v[i].price, v[m2 - 1].price));
                }
            }
        }
    }
}

/// The shape a side takes when the order at position (li, j) is removed.
pub open spec fn after_remove(v: Seq<LevelView>, li: int, j: int) -> Seq<LevelView> {
    if v[li].queue.len() == 1 {
        v.remove(li)
    } else {
        v.update(li, LevelView { price: v[li].price, queue: v[li].queue.remove(j) })
    }
}

/// The recursive removal lands exactly at the first position holding `id`.
pub proof fn lemma_remove_order_at(v: Seq<LevelView>, id: u128, li: int, j: int)
    requires
        0 <= li < v.len(),
        0 <= j < v[li].queue.len(),
        v[li].queue[j].id == id,
        forall|m: int| 0 <= m < li ==> !queue_has((#[trigger] v[m]).queue, id),
        j == find_in_queue(v[li].queue, id),
    ensures
        remove_order(v, id) == after_remove(v, li, j),
    decreases li,
{
    if li == 0 {
        assert(queue_has(v[0].queue, id));
        if v[0].queue.len() == 1 {
            assert(v[0].queue.remove(j).len() == 0);
            assert(v.drop_first() =~= v.remove(0));
        } else {
            assert(v[0].queue.remove(j).len() > 0);
        }
    } else {
        assert(!queue_has(v[0].queue, id));
        let sub = v.drop_first();
        assert forall|m: int| 0 <= m < li - 1 implies !queue_has(
            (#[trigger] sub[m]).queue,
            id,
        ) by {
            assert(sub[m] == v[m + 1]);
        }
        assert(sub[li - 1] == v[li]);
        lemma_remove_order_at(sub, id, li - 1, j);
        assert(remove_order(v, id) == seq![v[0]] + remove_order(sub, id));
        if v[li].queue.len() == 1 {
            assert(seq![v[0]] + sub.remove(li - 1) =~= v.remove(li));
        } else {
            let x = LevelView { price: v[li].price, queue: v[li].queue.remove(j) };
            assert(seq![v[0]] + sub.update(li - 1, x) =~= v.update(li, x));
        }
    }
}

/// Replacing any level by a well-formed one at the same price keeps a side
/// well formed.
pub proof fn lemma_side_ok_update_at(side: Side, n: u128, v: Seq<LevelView>, i: int, newlv: LevelView)
    requires
        side_ok(side, n, v),
        0 <= i < v.len(),
        level_ok(side, n, newlv),
        newlv.price == v[i].price,
    ensures
        side_ok(side, n, v.update(i, newlv)),
{
    let up = v.update(i, newlv);
    assert forall|m: int| 0 <= m < up.len() implies level_ok(side, n, #[trigger] up[m]) by {
        if m != i {
            assert(up[m] == v[m]);
        }
    }
    assert forall|m: int, m2: int| 0 <= m < m2 < up.len() implies better(
        side,
        (#[trigger] up[m]).price,
        (#[trigger] up[m2]).price,
    ) by {
        assert(up[m].price == v[m].price);
        assert(up[m2].price == v[m2].price);
    }
}

/// Removing a level keeps a side well formed.
pub proof fn lemma_side_ok_remove_level(side: Side, n: u128, v: Seq<LevelView>, i: int)
    requires
        side_ok(side, n, v),
        0 <= i < v.len(),
    ensures
        side_ok(side, n, v.remove(i)),
{
    let vr = v.remove(i);
    assert forall|m: int| 0 <= m < vr.len() implies level_ok(side, n, #[trigger] vr[m]) by {
        if m < i {
            assert(vr[m] == v[m]);
        } else {
            assert(vr[m] == v[m + 1]);
        }
    }
    assert forall|m: int, m2: int| 0 <= m < m2 < vr.len() implies better(
        side,
        (#[trigger] vr[m]).price,
        (#[trigger] vr[m2]).price,
    ) by {
        if m < i {
            assert(vr[m] == v[m]);
        } else {
            assert(vr[m] == v[m + 1]);
        }
        if m2 < i {
            assert(vr[m2] == v[m2]);
        } else {
            assert(vr[m2] == v[m2 + 1]);
        }
    }
}

/// A queue with at least two orders stays well formed when one leaves.
pub proof fn lemma_level_ok_remove(side: Side, n: u128, lv: LevelView, j: int)
    requires
        level_ok(side, n, lv),
        0 <= j < lv.queue.len(),
        lv.queue.len() > 1,
    ensures
        level_ok(side, n, LevelView { price: lv.price, queue: lv.queue.remove(j) }),
{
    let nq = lv.queue.remove(j);
    assert forall|m: int| 0 <= m < nq.len() implies ((#[trigger] nq[m]).price == lv.price
        && nq[m].side == side && nq[m].quantity > 0 && nq[m].id < n) by {
        if m < j {
            assert(nq[m] == lv.queue[m]);
        } else {
            assert(nq[m] == lv.queue[m + 1]);
        }
    }
    assert forall|m: int, m2: int| 0 <= m < m2 < nq.len() implies nq[m].id < nq[m2].id by {
        if m < j {
            assert(nq[m] == lv.queue[m]);
        } else {
            assert(nq[m] == lv.queue[m + 1]);
        }
        if m2 < j {
            assert(nq[m2] == lv.queue[m2]);
        } else {
            assert(nq[m2] == lv.queue[m2 + 1]);
        }
    }
}

/// Surviving locator entries still point at resting orders after a
/// cancellation on this side.
pub proof fn lemma_cancel_entries_own(
    loc0: Seq<Loc>,
    k: int,
    side: Side,
    v: Seq<LevelView>,
    li: int,
    j: int,
)
    requires
        0 <= li < v.len(),
        0 <= j < v[li].queue.len(),
        0 <= k < loc0.len(),
        loc0[k].id == v[li].queue[j].id,
        entries_ok_side(loc0, side, v),
        loc_distinct(loc0),
        side_unique(v, v[li].queue[j].id),
    ensures
        entries_ok_side(loc0.remove(k), side, after_remove(v, li, j)),
{
    let rid = v[li].queue[j].id;
    let vn = after_remove(v, li, j);
    let loc1 = loc0.remove(k);
    lemma_loc_remove(loc0, k);
    assert forall|m: int|
        0 <= m < loc1.len() && (#[trigger] loc1[m]).side == side implies entry_at(
        vn,
        loc1[m].price,
        loc1[m].id,
    ) by {
        let e = loc1[m];
        assert(e == if m < k {
            loc0[m]
        } else {
            loc0[m + 1]
        });
        assert(e.id != rid);
        assert(entry_at(v, e.price, e.id));
        let i2 = choose|i2: int|
            0 <= i2 < v.len() && v[i2].price == e.price && queue_has(v[i2].queue, e.id);
        let j2 = choose|j2: int| 0 <= j2 < v[i2].queue.len() && v[i2].queue[j2].id == e.id;
        if v[li].queue.len() == 1 {
            if i2 == li {
                assert(j2 == 0 && j == 0);
                assert(false);
            } else if i2 < li {
                assert(vn[i2] == v[i2]);
                assert(queue_has(vn[i2].queue, e.id));
            } else {
                assert(vn[i2 - 1] == v[i2]);
                assert(queue_has(vn[i2 - 1].queue, e.id));
            }
        } else {
            if i2 == li {
                assert(j2 != j);
                if j2 < j {
                    assert(vn[li].queue[j2] == v[li].queue[j2]);
                    assert(queue_has(vn[li].queue, e.id));
                } else {
                    assert(vn[li].queue[j2 - 1] == v[li].queue[j2]);
                    assert(queue_has(vn[li].queue, e.id));
                }
                assert(vn[li].price == e.price);
            } else {
                assert(vn[i2] == v[i2]);
                assert(queue_has(vn[i2].queue, e.id));
            }
        }
    }
}

/// Surviving orders on the cancelled side stay covered.
pub proof fn lemma_cancel_covered_own(
    loc0: Seq<Loc>,
    k: int,
    side: Side,
    v: Seq<LevelView>,
    li: int,
    j: int,
)
    requires
        0 <= li < v.len(),
        0 <= j < v[li].queue.len(),
        0 <= k < loc0.len(),
        loc0[k].id == v[li].queue[j].id,
        covered(loc0, side, v),
        loc_distinct(loc0),
        side_unique(v, v[li].queue[j].id),
    ensures
        covered(loc0.remove(k), side, after_remove(v, li, j)),
{
    let rid = v[li].queue[j].id;
    let vn = after_remove(v, li, j);
    let loc1 = loc0.remove(k);
    lemma_loc_remove(loc0, k);
    assert forall|i2: int, j2: int|
        0 <= i2 < vn.len() && 0 <= j2 < vn[i2].queue.len() implies loc_has(
        loc1,
        (#[trigger] vn[i2].queue[j2]).id,
        side,
        vn[i2].price,
    ) by {
        let o = vn[i2].queue[j2];
        if v[li].queue.len() == 1 {
            if i2 < li {
                assert(vn[i2] == v[i2]);
                assert(o == v[i2].queue[j2]);
                assert(loc_has(loc0, o.id, side, v[i2].price));
                assert(o.id != rid);
            } else {
                assert(vn[i2] == v[i2 + 1]);
                assert(o == v[i2 + 1].queue[j2]);
                assert(loc_has(loc0, o.id, side, v[i2 + 1].price));
                assert(o.id != rid);
            }
        } else {
            if i2 == li {
                if j2 < j {
                    assert(o == v[li].queue[j2]);
                } else {
                    assert(o == v[li].queue[j2 + 1]);
                }
                assert(loc_has(loc0, o.id, side, v[li].price));
                assert(o.id != rid);
            } else {
                assert(vn[i2] == v[i2]);
                assert(o == v[i2].queue[j2]);
                assert(loc_has(loc0, o.id, side, v[i2].price));
                assert(o.id != rid);
            }
        }
    }
}

/// After the removal the cancelled id rests nowhere on that side.
pub proof fn lemma_cancel_no_id(v: Seq<LevelView>, li: int, j: int, id: u128)
    requires
        0 <= li < v.len(),
        0 <= j < v[li].queue.len(),
        v[li].queue[j].id == id,
        side_unique(v, id),
    ensures
        !side_has(after_remove(v, li, j), id),
{
    let vn = after_remove(v, li, j);
    if side_has(vn, id) {
        let i2 = choose|i2: int| 0 <= i2 < vn.len() && queue_has(vn[i2].queue, id);
        let j2 = choose|j2: int| 0 <= j2 < vn[i2].queue.len() && vn[i2].queue[j2].id == id;
        if v[li].queue.len() == 1 {
            if i2 < li {
                assert(v[i2].queue[j2].id == id);
            } else {
                assert(v[i2 + 1].queue[j2].id == id);
            }
            assert(false);
        } else {
            if i2 == li {
                if j2 < j {
                    assert(v[li].queue[j2].id == id);
                } else {
                    assert(v[li].queue[j2 + 1].id == id);
                }
            } else {
                assert(v[i2].queue[j2].id == id);
            }
            assert(false);
        }
    }
}

/// Every locator entry names an id below the book's id counter.
pub proof fn lemma_loc_ids_bounded(loc: Seq<Loc>, bv: Seq<LevelView>, av: Seq<LevelView>, nid: u128)
    requires
        entries_ok_side(loc, Side::Buy, bv),
        entries_ok_side(loc, Side::Sell, av),
        side_ok(Side::Buy, nid, bv),
        side_ok(Side::Sell, nid, av),
    ensures
        forall|k: int| 0 <= k < loc.len() ==> (#[trigger] loc[k]).id < nid,
{
    assert forall|k: int| 0 <= k < loc.len() implies (#[trigger] loc[k]).id < nid by {
        let e = loc[k];
        if e.side == Side::Buy {
            assert(entry_at(bv, e.price, e.id));
            let i = choose|i: int|
                0 <= i < bv.len() && bv[i].price == e.price && queue_has(bv[i].queue, e.id);
            let j = choose|j: int| 0 <= j < bv[i].queue.len() && bv[i].queue[j].id == e.id;
            assert(level_ok(Side::Buy, nid, bv[i]));
        } else {
            assert(entry_at(av, e.price, e.id));
            let i = choose|i: int|
                0 <= i < av.len() && av[i].price == e.price && queue_has(av[i].queue, e.id);
            let j = choose|j: int| 0 <= j < av[i].queue.len() && av[i].queue[j].id == e.id;
            assert(level_ok(Side::Sell, nid, av[i]));
        }
    }
}

/// An id at or above the side's bound rests nowhere on it.
pub proof fn lemma_side_no_id(side: Side, nid: u128, v: Seq<LevelView>, id: u128)
    requires
        side_ok(side, nid, v),
        id >= nid,
    ensures
        !side_has(v, id),
{
    if side_has(v, id) {
        let i = choose|i: int| 0 <= i < v.len() && queue_has(v[i].queue, id);
        let j = choose|j: int| 0 <= j < v[i].queue.len() && v[i].queue[j].id == id;
        assert(level_ok(side, nid, v[i]));
        assert(false);
    }
}

/// A well-formed trade log cannot be longer than the largest sequence
/// number its entries can carry.
pub proof fn lemma_trades_len_bound(t: Seq<Trade>)
    requires
        trades_ok(t),
    ensures
        t.len() <= u64::MAX,
{
    if t.len() > u64::MAX {
        assert(t[u64::MAX as int].sequence == u64::MAX as int + 1);
    }
}

/// The opposing levels an incoming `side` order matches against.
pub open spec fn opp_levels(b: BookView, side: Side) -> Seq<LevelView> {
    match side {
        Side::Buy => b.asks,
        Side::Sell => b.bids,
    }
}

/// The levels of the incoming order's own side.
pub open spec fn own_levels(b: BookView, side: Side) -> Seq<LevelView> {
    match side {
        Side::Buy => b.bids,
        Side::Sell => b.asks,
    }
}

} // verus!
