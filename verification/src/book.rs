//! The depth engine: aggregate per-tick liquidity on both sides, cached best
//! ticks, and the L3 order index.

use vstd::prelude::*;

use crate::ladder::Ladder;
use crate::types::{DepthError, Event, L3Order, Side};
use crate::types::{BUY_EVENT, INVALID_MAX, INVALID_MIN, SELL_EVENT};

verus! {

/// The lots resting at tick `t` of `m`, zero when the tick is absent.
pub open spec fn qty_at(m: Map<i64, u64>, t: i64) -> u64 {
    if m.dom().contains(t) {
        m[t]
    } else {
        0u64
    }
}

/// `a - b`, floored at zero.
pub open spec fn sat_sub(a: u64, b: u64) -> u64 {
    if b < a {
        (a - b) as u64
    } else {
        0u64
    }
}

/// The depth map after an order of `qty` lots leaves tick `t`: the level
/// keeps the difference while it is positive, and is erased otherwise.
pub open spec fn drain(m: Map<i64, u64>, t: i64, qty: u64) -> Map<i64, u64> {
    if qty < qty_at(m, t) {
        m.insert(t, (qty_at(m, t) - qty) as u64)
    } else {
        m.remove(t)
    }
}

/// The order's contribution to the aggregate at `(side, t)`.
pub open spec fn side_qty(o: L3Order, side: Side, t: i64) -> int {
    if o.side == side && o.price_tick == t {
        o.qty as int
    } else {
        0
    }
}

/// Total lots of the orders of `s` resting at `(side, t)`.
pub open spec fn qty_sum(s: Seq<L3Order>, side: Side, t: i64) -> int
    decreases s.len(),
{
    if s.len() == 0 {
        0
    } else {
        qty_sum(s.drop_last(), side, t) + side_qty(s.last(), side, t)
    }
}

proof fn lemma_qty_sum_nonneg(s: Seq<L3Order>, side: Side, t: i64)
    ensures
        qty_sum(s, side, t) >= 0,
    decreases s.len(),
{
    if s.len() > 0 {
        lemma_qty_sum_nonneg(s.drop_last(), side, t);
    }
}

proof fn lemma_qty_sum_push(s: Seq<L3Order>, o: L3Order, side: Side, t: i64)
    ensures
        qty_sum(s.push(o), side, t) == qty_sum(s, side, t) + side_qty(o, side, t),
{
    assert(s.push(o).drop_last() =~= s);
    assert(s.push(o).last() == o);
}

proof fn lemma_qty_sum_remove(s: Seq<L3Order>, i: int, side: Side, t: i64)
    requires
        0 <= i < s.len(),
    ensures
        qty_sum(s.remove(i), side, t) == qty_sum(s, side, t) - side_qty(s[i], side, t),
    decreases s.len(),
{
    if i == s.len() - 1 {
        assert(s.remove(i) =~= s.drop_last());
    } else {
        lemma_qty_sum_remove(s.drop_last(), i, side, t);
        assert(s.remove(i).drop_last() =~= s.drop_last().remove(i));
        assert(s.remove(i).last() == s.last());
    }
}

proof fn lemma_qty_sum_update(s: Seq<L3Order>, i: int, o: L3Order, side: Side, t: i64)
    requires
        0 <= i < s.len(),
    ensures
        qty_sum(s.update(i, o), side, t) == qty_sum(s, side, t) - side_qty(s[i], side, t)
            + side_qty(o, side, t),
    decreases s.len(),
{
    if i == s.len() - 1 {
        assert(s.update(i, o).drop_last() =~= s.drop_last());
        assert(s.update(i, o).last() == o);
    } else {
        lemma_qty_sum_update(s.drop_last(), i, o, side, t);
        assert(s.update(i, o).drop_last() =~= s.drop_last().update(i, o));
        assert(s.update(i, o).last() == s.last());
    }
}

proof fn lemma_qty_sum_member(s: Seq<L3Order>, i: int)
    requires
        0 <= i < s.len(),
    ensures
        qty_sum(s, s[i].side, s[i].price_tick) >= s[i].qty,
    decreases s.len(),
{
    if i == s.len() - 1 {
        lemma_qty_sum_nonneg(s.drop_last(), s[i].side, s[i].price_tick);
    } else {
        lemma_qty_sum_member(s.drop_last(), i);
    }
}

/// Whether an event's flags route it to the bid side.
pub open spec fn is_buy_event(ev: u64) -> bool {
    ev & BUY_EVENT == BUY_EVENT
}

/// Whether an event's flags route it to the ask side.
pub open spec fn is_sell_event(ev: u64) -> bool {
    ev & SELL_EVENT == SELL_EVENT
}

/// The bid map a snapshot batch denotes: records are folded in order, the
/// buy-flagged ones replacing (or, at zero lots, erasing) their level, so
/// colliding ticks resolve last-writer-wins.
pub open spec fn bids_of(evs: Seq<Event>) -> Map<i64, u64>
    decreases evs.len(),
{
    if evs.len() == 0 {
        Map::empty()
    } else {
        let m = bids_of(evs.drop_last());
        let e = evs.last();
        if is_buy_event(e.ev) {
            if e.qty == 0 {
                m.remove(e.price_tick)
            } else {
                m.insert(e.price_tick, e.qty)
            }
        } else {
            m
        }
    }
}

/// The ask map a snapshot batch denotes; a record with both side flags set
/// counts as a bid record, as in `bids_of`.
pub open spec fn asks_of(evs: Seq<Event>) -> Map<i64, u64>
    decreases evs.len(),
{
    if evs.len() == 0 {
        Map::empty()
    } else {
        let m = asks_of(evs.drop_last());
        let e = evs.last();
        if !is_buy_event(e.ev) && is_sell_event(e.ev) {
            if e.qty == 0 {
                m.remove(e.price_tick)
            } else {
                m.insert(e.price_tick, e.qty)
            }
        } else {
            m
        }
    }
}

proof fn lemma_event_flags()
    ensures
        is_buy_event(BUY_EVENT),
        !is_buy_event(SELL_EVENT),
        is_sell_event(SELL_EVENT),
{
    assert(0x20000000u64 & 0x20000000u64 == 0x20000000u64) by (bit_vector);
    assert(0x10000000u64 & 0x20000000u64 != 0x20000000u64) by (bit_vector);
    assert(0x10000000u64 & 0x10000000u64 == 0x10000000u64) by (bit_vector);
}

/// Order-book depth engine. Aggregate depth is keyed by integer price tick;
/// quantities are whole lots. The cached best ticks are summaries of the two
/// maps, refreshed by every mutation.
#[derive(Debug)]
pub struct BTreeMarketDepth {
    bid_depth: Ladder,
    ask_depth: Ladder,
    best_bid_tick: i64,
    best_ask_tick: i64,
    orders: Vec<L3Order>,
}

impl BTreeMarketDepth {
    /// The bid side: tick to aggregate lots.
    pub closed spec fn bids(self) -> Map<i64, u64> {
        self.bid_depth@
    }

    /// The ask side: tick to aggregate lots.
    pub closed spec fn asks(self) -> Map<i64, u64> {
        self.ask_depth@
    }

    /// The cached best bid tick.
    pub closed spec fn best_bid(self) -> i64 {
        self.best_bid_tick
    }

    /// The cached best ask tick.
    pub closed spec fn best_ask(self) -> i64 {
        self.best_ask_tick
    }

    /// The L3 order index, in insertion order.
    pub closed spec fn orders_view(self) -> Seq<L3Order> {
        self.orders@
    }

    /// The cached best bid is the greatest bid tick, or `INVALID_MIN` when no
    /// bid level exists.
    pub open spec fn best_bid_ok(self) -> bool {
        &&& forall|k: i64| #[trigger] self.bids().dom().contains(k) ==> k <= self.best_bid()
        &&& forall|k: i64| #[trigger] self.bids().dom().contains(k) ==> self.bids().dom().contains(
            self.best_bid(),
        )
        &&& self.bids().dom().contains(self.best_bid()) || self.best_bid() == INVALID_MIN
    }

    /// The cached best ask is the least ask tick, or `INVALID_MAX` when no
    /// ask level exists.
    pub open spec fn best_ask_ok(self) -> bool {
        &&& forall|k: i64| #[trigger] self.asks().dom().contains(k) ==> k >= self.best_ask()
        &&& forall|k: i64| #[trigger] self.asks().dom().contains(k) ==> self.asks().dom().contains(
            self.best_ask(),
        )
        &&& self.asks().dom().contains(self.best_ask()) || self.best_ask() == INVALID_MAX
    }

    /// No level with zero lots survives: every populated tick holds at least
    /// one lot.
    pub open spec fn levels_positive(self) -> bool {
        &&& forall|t: i64| #[trigger] self.bids().dom().contains(t) ==> self.bids()[t] >= 1
        &&& forall|t: i64| #[trigger] self.asks().dom().contains(t) ==> self.asks()[t] >= 1
    }

    /// Every order id appears at most once in the index.
    pub open spec fn orders_unique(self) -> bool {
        forall|i: int, j: int|
            0 <= i < j < self.orders_view().len() ==> self.orders_view()[i].order_id
                != self.orders_view()[j].order_id
    }

    /// Every indexed order rests on the buy or the sell side.
    pub open spec fn sides_valid(self) -> bool {
        forall|i: int| 0 <= i < self.orders_view().len() ==> ((#[trigger] self.orders_view()[i]).side
            == Side::Buy || self.orders_view()[i].side == Side::Sell)
    }

    /// Representation invariant of the two ladders.
    pub closed spec fn rep_ok(self) -> bool {
        self.bid_depth.wf() && self.ask_depth.wf()
    }

    /// Engine invariant: established by construction and preserved by every
    /// operation.
    pub open spec fn wf(self) -> bool {
        &&& self.rep_ok()
        &&& self.levels_positive()
        &&& self.best_bid_ok()
        &&& self.best_ask_ok()
        &&& self.orders_unique()
        &&& self.sides_valid()
    }

    /// Some indexed order carries `order_id`.
    pub open spec fn has_order(self, order_id: u64) -> bool {
        exists|i: int| 0 <= i < self.orders_view().len() && self.orders_view()[i].order_id
            == order_id
    }

    /// The index of the order carrying `order_id`.
    pub open spec fn order_index(self, order_id: u64) -> int {
        choose|i: int| 0 <= i < self.orders_view().len() && self.orders_view()[i].order_id
            == order_id
    }

    /// The indexed order carrying `order_id`.
    pub open spec fn order_of(self, order_id: u64) -> L3Order {
        self.orders_view()[self.order_index(order_id)]
    }

    /// The order carrying `order_id`, if indexed, still has a level at its
    /// tick. The L3 mutators keep this for every order; only mixing in L2
    /// replaces or clears on the same side can break it, and deleting or
    /// moving such an orphaned order is out of contract (the engine of record
    /// would panic there).
    pub open spec fn order_backed(self, order_id: u64) -> bool {
        self.has_order(order_id) ==> {
            let o = self.order_of(order_id);
            if o.side == Side::Buy {
                self.bids().dom().contains(o.price_tick)
            } else {
                self.asks().dom().contains(o.price_tick)
            }
        }
    }

    /// Aggregate depth is exactly the per-order arithmetic of the index:
    /// each populated tick totals the lots of the orders resting there, and
    /// every tick where orders rest is populated. Holds from construction on
    /// while only L3 mutators are used; each of them preserves it.
    pub open spec fn l3_consistent(self) -> bool {
        &&& forall|t: i64| #[trigger] self.bids().dom().contains(t) ==> self.bids()[t] == qty_sum(
            self.orders_view(),
            Side::Buy,
            t,
        )
        &&& forall|t: i64| #[trigger] qty_sum(self.orders_view(), Side::Buy, t) > 0
            ==> self.bids().dom().contains(t)
        &&& forall|t: i64| #[trigger] self.asks().dom().contains(t) ==> self.asks()[t] == qty_sum(
            self.orders_view(),
            Side::Sell,
            t,
        )
        &&& forall|t: i64| #[trigger] qty_sum(self.orders_view(), Side::Sell, t) > 0
            ==> self.asks().dom().contains(t)
    }

    /// The aggregate at the tick a modify moves an order to stays within
    /// machine bounds once the order's own lots have left its old level.
    pub open spec fn modify_fits(self, order_id: u64, price_tick: i64, qty: u64) -> bool {
        self.has_order(order_id) ==> {
            let o = self.order_of(order_id);
            let m = if o.side == Side::Buy {
                self.bids()
            } else {
                self.asks()
            };
            if price_tick == o.price_tick {
                sat_sub(qty_at(m, price_tick), o.qty) + qty <= u64::MAX
            } else {
                qty_at(m, price_tick) + qty <= u64::MAX
            }
        }
    }

    /// Index of the order carrying `order_id`, if one is stored.
    fn find_order(&self, order_id: u64) -> (r: Option<usize>)
        ensures
            match r {
                Some(i) => i < self.orders_view().len() && self.orders_view()[i as int].order_id
                    == order_id,
                None => !self.has_order(order_id),
            },
    {
        let mut i: usize = 0;
        while i < self.orders.len()
            invariant
                i <= self.orders@.len(),
                forall|j: int| 0 <= j < i ==> self.orders@[j].order_id != order_id,
            decreases self.orders@.len() - i,
        {
            if self.orders[i].order_id == order_id {
                return Some(i);
            }
            i = i + 1;
        }
        None
    }

    /// Same aggregate depth, cached bests and order index.
    pub open spec fn same_book(self, other: Self) -> bool {
        &&& self.bids() == other.bids()
        &&& self.asks() == other.asks()
        &&& self.best_bid() == other.best_bid()
        &&& self.best_ask() == other.best_ask()
        &&& self.orders_view() == other.orders_view()
    }

    /// Two well-formed caches over equal maps agree: the best tick is a
    /// function of the depth map alone.
    proof fn lemma_best_determined(a: Self, b: Self)
        requires
            a.best_bid_ok(),
            b.best_bid_ok(),
            a.best_ask_ok(),
            b.best_ask_ok(),
            a.bids() == b.bids(),
            a.asks() == b.asks(),
        ensures
            a.best_bid() == b.best_bid(),
            a.best_ask() == b.best_ask(),
    {
        if a.bids().dom().contains(a.best_bid()) {
            assert(a.best_bid() <= b.best_bid() && b.best_bid() <= a.best_bid());
        } else if b.bids().dom().contains(b.best_bid()) {
            assert(a.bids().dom().contains(a.best_bid()));
        }
        if a.asks().dom().contains(a.best_ask()) {
            assert(a.best_ask() >= b.best_ask() && b.best_ask() >= a.best_ask());
        } else if b.asks().dom().contains(b.best_ask()) {
            assert(a.asks().dom().contains(a.best_ask()));
        }
    }

    /// Constructs an empty engine: no levels, both best-tick caches at their
    /// sentinels, no orders.
    pub fn new() -> (r: Self)
        ensures
            r.wf(),
            r.l3_consistent(),
            r.bids() == Map::<i64, u64>::empty(),
            r.asks() == Map::<i64, u64>::empty(),
            r.best_bid() == INVALID_MIN,
            r.best_ask() == INVALID_MAX,
            r.orders_view() == Seq::<L3Order>::empty(),
    {
        BTreeMarketDepth {
            bid_depth: Ladder::new(),
            ask_depth: Ladder::new(),
            best_bid_tick: INVALID_MIN,
            best_ask_tick: INVALID_MAX,
            orders: Vec::new(),
        }
    }

    /// L2 bid update, replace semantics: zero lots erase tick `price_tick`,
    /// any other quantity becomes the level's new total. Returns
    /// `(price_tick, previous best tick, new best tick, lots at the previous
    /// best, new lots, timestamp)`. A zero-lot update of an absent tick is a
    /// no-op.
    pub fn update_bid_depth(&mut self, price_tick: i64, qty: u64, timestamp: i64) -> (r: (
        i64,
        i64,
        i64,
        u64,
        u64,
        i64,
    ))
        requires
            old(self).wf(),
        ensures
            final(self).wf(),
            final(self).bids() == (if qty == 0 {
                old(self).bids().remove(price_tick)
            } else {
                old(self).bids().insert(price_tick, qty)
            }),
            final(self).asks() == old(self).asks(),
            final(self).best_ask() == old(self).best_ask(),
            final(self).orders_view() == old(self).orders_view(),
            r == (
                price_tick,
                old(self).best_bid(),
                final(self).best_bid(),
                qty_at(old(self).bids(), old(self).best_bid()),
                qty,
                timestamp,
            ),
            qty == 0 && !old(self).bids().dom().contains(price_tick) ==> final(self).same_book(*old(self)),
    {
        let prev_best_bid_tick: i64 = self.best_bid_tick;
        let prev_qty: u64 = self.bid_depth.get(prev_best_bid_tick);
        if qty == 0 {
            self.bid_depth.erase(price_tick);
        } else {
            self.bid_depth.set(price_tick, qty);
        }
        self.best_bid_tick = match self.bid_depth.max_key() {
            Some(k) => k,
            None => INVALID_MIN,
        };
        proof {
            self.bid_depth.lemma_positive();
            assert(self.asks() == old(self).asks());
            assert(self.best_ask_ok());
            assert(self.best_bid_ok());
            assert(self.levels_positive());
            if qty == 0 && !old(self).bids().dom().contains(price_tick) {
                assert(self.bids() =~= old(self).bids());
                Self::lemma_best_determined(*self, *old(self));
            }
            assert(self.wf());
        }
        (price_tick, prev_best_bid_tick, self.best_bid_tick, prev_qty, qty, timestamp)
    }

    /// L2 ask update, replace semantics, symmetric to the bid side: the
    /// previous best is read from the ask map. Returns
    /// `(price_tick, previous best tick, new best tick, lots at the previous
    /// best, new lots, timestamp)`.
    pub fn update_ask_depth(&mut self, price_tick: i64, qty: u64, timestamp: i64) -> (r: (
        i64,
        i64,
        i64,
        u64,
        u64,
        i64,
    ))
        requires
            old(self).wf(),
        ensures
            final(self).wf(),
            final(self).asks() == (if qty == 0 {
                old(self).asks().remove(price_tick)
            } else {
                old(self).asks().insert(price_tick, qty)
            }),
            final(self).bids() == old(self).bids(),
            final(self).best_bid() == old(self).best_bid(),
            final(self).orders_view() == old(self).orders_view(),
            r == (
                price_tick,
                old(self).best_ask(),
                final(self).best_ask(),
                qty_at(old(self).asks(), old(self).best_ask()),
                qty,
                timestamp,
            ),
            qty == 0 && !old(self).asks().dom().contains(price_tick) ==> final(self).same_book(*old(self)),
    {
        let prev_best_ask_tick: i64 = self.best_ask_tick;
        let prev_qty: u64 = self.ask_depth.get(prev_best_ask_tick);
        if qty == 0 {
            self.ask_depth.erase(price_tick);
        } else {
            self.ask_depth.set(price_tick, qty);
        }
        self.best_ask_tick = match self.ask_depth.min_key() {
            Some(k) => k,
            None => INVALID_MAX,
        };
        proof {
            self.ask_depth.lemma_positive();
            assert(self.bids() == old(self).bids());
            assert(self.best_bid_ok());
            assert(self.best_ask_ok());
            assert(self.levels_positive());
            if qty == 0 && !old(self).asks().dom().contains(price_tick) {
                assert(self.asks() =~= old(self).asks());
                Self::lemma_best_determined(*self, *old(self));
            }
            assert(self.wf());
        }
        (price_tick, prev_best_ask_tick, self.best_ask_tick, prev_qty, qty, timestamp)
    }

    /// The cached best bid tick, `INVALID_MIN` when no bid level exists.
    pub fn best_bid_tick(&self) -> (r: i64)
        ensures
            r == self.best_bid(),
    {
        self.best_bid_tick
    }

    /// The cached best ask tick, `INVALID_MAX` when no ask level exists.
    pub fn best_ask_tick(&self) -> (r: i64)
        ensures
            r == self.best_ask(),
    {
        self.best_ask_tick
    }

    /// Aggregate lots resting at bid tick `price_tick`, zero when absent.
    pub fn bid_qty_at_tick(&self, price_tick: i64) -> (r: u64)
        requires
            self.wf(),
        ensures
            r == qty_at(self.bids(), price_tick),
    {
        self.bid_depth.get(price_tick)
    }

    /// Aggregate lots resting at ask tick `price_tick`, zero when absent.
    pub fn ask_qty_at_tick(&self, price_tick: i64) -> (r: u64)
        requires
            self.wf(),
        ensures
            r == qty_at(self.asks(), price_tick),
    {
        self.ask_depth.get(price_tick)
    }

    /// L2 range clear, modelling exchange "book reset" messages. For `Buy`,
    /// every bid tick from `clear_upto_tick` up to the best bid (inclusive)
    /// is removed, a no-op when the side is empty; for `Sell`, every ask tick
    /// from the best ask up to `clear_upto_tick`; for `Neither`, both sides
    /// are emptied. The affected best-tick caches are refreshed.
    pub fn clear_depth(&mut self, side: Side, clear_upto_tick: i64)
        requires
            old(self).wf(),
        ensures
            final(self).wf(),
            final(self).orders_view() == old(self).orders_view(),
            side == Side::Buy ==> {
                &&& (forall|k: i64| #[trigger] final(self).bids().dom().contains(k) <==> (
                old(self).bids().dom().contains(k) && !(old(self).best_bid() != INVALID_MIN
                    && clear_upto_tick <= k <= old(self).best_bid())))
                &&& (forall|k: i64| #[trigger] final(self).bids().dom().contains(k) ==> final(self).bids()[k] == old(self).bids()[k])
                &&& final(self).asks() == old(self).asks()
                &&& final(self).best_ask() == old(self).best_ask()
            },
            side == Side::Sell ==> {
                &&& (forall|k: i64| #[trigger] final(self).asks().dom().contains(k) <==> (
                old(self).asks().dom().contains(k) && !(old(self).best_ask() != INVALID_MAX
                    && old(self).best_ask() <= k <= clear_upto_tick)))
                &&& (forall|k: i64| #[trigger] final(self).asks().dom().contains(k) ==> final(self).asks()[k] == old(self).asks()[k])
                &&& final(self).bids() == old(self).bids()
                &&& final(self).best_bid() == old(self).best_bid()
            },
            side == Side::Neither ==> {
                &&& final(self).bids() == Map::<i64, u64>::empty()
                &&& final(self).asks() == Map::<i64, u64>::empty()
                &&& final(self).best_bid() == INVALID_MIN
                &&& final(self).best_ask() == INVALID_MAX
            },
    {
        match side {
            Side::Buy => {
                if self.best_bid_tick != INVALID_MIN {
                    self.bid_depth.erase_from(clear_upto_tick);
                }
                self.best_bid_tick = match self.bid_depth.max_key() {
                    Some(k) => k,
                    None => INVALID_MIN,
                };
                proof {
                    self.bid_depth.lemma_positive();
                    assert(self.levels_positive());
                    assert(self.best_bid_ok());
                    assert(self.asks() == old(self).asks());
                    assert(self.best_ask_ok());
                    assert(self.orders_unique());
                    assert(self.sides_valid());
                    assert(self.wf());
                }
            },
            Side::Sell => {
                if self.best_ask_tick != INVALID_MAX {
                    self.ask_depth.erase_upto(clear_upto_tick);
                }
                self.best_ask_tick = match self.ask_depth.min_key() {
                    Some(k) => k,
                    None => INVALID_MAX,
                };
                proof {
                    self.ask_depth.lemma_positive();
                    assert(self.levels_positive());
                    assert(self.best_ask_ok());
                    assert(self.bids() == old(self).bids());
                    assert(self.best_bid_ok());
                    assert(self.orders_unique());
                    assert(self.sides_valid());
                    assert(self.wf());
                }
            },
            Side::Neither => {
                self.bid_depth.clear();
                self.ask_depth.clear();
                self.best_bid_tick = INVALID_MIN;
                self.best_ask_tick = INVALID_MAX;
                proof {
                    assert(self.wf());
                }
            },
        }
    }

    /// L3-form clear: wipe the aggregate map of the given side, or both when
    /// `Neither` is given, and reset the affected best-tick caches to their
    /// sentinels. As in the L2 replace path, the L3 order index is left
    /// untouched, so aggregate depth and index diverge until the caller
    /// rebuilds or drains the orders.
    pub fn reset_depth(&mut self, side: Side)
        requires
            old(self).wf(),
        ensures
            final(self).wf(),
            final(self).orders_view() == old(self).orders_view(),
            side == Side::Buy ==> final(self).bids() == Map::<i64, u64>::empty() && final(self).best_bid() == INVALID_MIN && final(self).asks() == old(self).asks() && final(self).best_ask() == old(self).best_ask(),
            side == Side::Sell ==> final(self).asks() == Map::<i64, u64>::empty() && final(self).best_ask() == INVALID_MAX && final(self).bids() == old(self).bids() && final(self).best_bid() == old(self).best_bid(),
            side == Side::Neither ==> final(self).bids() == Map::<i64, u64>::empty() && final(self).asks() == Map::<i64, u64>::empty() && final(self).best_bid() == INVALID_MIN && final(self).best_ask() == INVALID_MAX,
    {
        match side {
            Side::Buy => {
                self.bid_depth.clear();
                self.best_bid_tick = INVALID_MIN;
                proof {
                    assert(self.best_bid_ok());
                    assert(self.asks() == old(self).asks());
                    assert(self.best_ask_ok());
                    assert(self.levels_positive());
                    assert(self.wf());
                }
            },
            Side::Sell => {
                self.ask_depth.clear();
                self.best_ask_tick = INVALID_MAX;
                proof {
                    assert(self.best_ask_ok());
                    assert(self.bids() == old(self).bids());
                    assert(self.best_bid_ok());
                    assert(self.levels_positive());
                    assert(self.wf());
                }
            },
            Side::Neither => {
                self.bid_depth.clear();
                self.ask_depth.clear();
                self.best_bid_tick = INVALID_MIN;
                self.best_ask_tick = INVALID_MAX;
                proof {
                    assert(self.best_bid_ok());
                    assert(self.best_ask_ok());
                    assert(self.levels_positive());
                    assert(self.wf());
                }
            },
        }
    }

    /// Inserts a fresh order into the index and folds its lots into the
    /// aggregate at its tick. Leaves the best-tick caches to the caller.
    fn add(&mut self, order: L3Order) -> (r: Result<(), DepthError>)
        requires
            old(self).wf(),
            1 <= order.qty,
            order.side == Side::Buy || order.side == Side::Sell,
            order.side == Side::Buy ==> qty_at(old(self).bids(), order.price_tick) + order.qty
                <= u64::MAX,
            order.side == Side::Sell ==> qty_at(old(self).asks(), order.price_tick) + order.qty
                <= u64::MAX,
        ensures
            final(self).rep_ok(),
            final(self).levels_positive(),
            final(self).orders_unique(),
            final(self).sides_valid(),
            final(self).best_bid() == old(self).best_bid(),
            final(self).best_ask() == old(self).best_ask(),
            old(self).l3_consistent() ==> final(self).l3_consistent(),
            match r {
                Ok(u) => {
                    &&& !old(self).has_order(order.order_id)
                    &&& final(self).orders_view() == old(self).orders_view().push(order)
                    &&& (order.side == Side::Buy ==> final(self).bids() == old(self).bids().insert(
                        order.price_tick,
                        (qty_at(old(self).bids(), order.price_tick) + order.qty) as u64,
                    ) && final(self).asks() == old(self).asks())
                    &&& (order.side == Side::Sell ==> final(self).asks() == old(self).asks().insert(
                        order.price_tick,
                        (qty_at(old(self).asks(), order.price_tick) + order.qty) as u64,
                    ) && final(self).bids() == old(self).bids())
                },
                Err(e) => e == DepthError::OrderIdExist && old(self).has_order(order.order_id)
                    && final(self).same_book(*old(self)),
            },
    {
        match self.find_order(order.order_id) {
            Some(_) => Err(DepthError::OrderIdExist),
            None => {
                self.orders.push(order);
                if order.side == Side::Buy {
                    let cur: u64 = self.bid_depth.get(order.price_tick);
                    self.bid_depth.set(order.price_tick, cur + order.qty);
                } else {
                    let cur: u64 = self.ask_depth.get(order.price_tick);
                    self.ask_depth.set(order.price_tick, cur + order.qty);
                }
                proof {
                    self.bid_depth.lemma_positive();
                    self.ask_depth.lemma_positive();
                    let s1 = old(self).orders_view();
                    let s2 = self.orders_view();
                    assert(s2 == s1.push(order));
                    assert forall|i: int, j: int| 0 <= i < j < s2.len() implies s2[i].order_id
                        != s2[j].order_id by {
                        if j < s1.len() {
                            assert(s1[i].order_id != s1[j].order_id);
                        } else {
                            assert(s2[j] == order);
                            if s2[i].order_id == order.order_id {
                                assert(old(self).has_order(order.order_id));
                            }
                        }
                    }
                    if old(self).l3_consistent() {
                        assert forall|t: i64| #[trigger] self.bids().dom().contains(t) implies
                            self.bids()[t] == qty_sum(s2, Side::Buy, t) by {
                            lemma_qty_sum_push(s1, order, Side::Buy, t);
                            if !old(self).bids().dom().contains(t) {
                                lemma_qty_sum_nonneg(s1, Side::Buy, t);
                            }
                        }
                        assert forall|t: i64| #[trigger] qty_sum(s2, Side::Buy, t) > 0 implies
                            self.bids().dom().contains(t) by {
                            lemma_qty_sum_push(s1, order, Side::Buy, t);
                        }
                        assert forall|t: i64| #[trigger] self.asks().dom().contains(t) implies
                            self.asks()[t] == qty_sum(s2, Side::Sell, t) by {
                            lemma_qty_sum_push(s1, order, Side::Sell, t);
                            if !old(self).asks().dom().contains(t) {
                                lemma_qty_sum_nonneg(s1, Side::Sell, t);
                            }
                        }
                        assert forall|t: i64| #[trigger] qty_sum(s2, Side::Sell, t) > 0 implies
                            self.asks().dom().contains(t) by {
                            lemma_qty_sum_push(s1, order, Side::Sell, t);
                        }
                        assert(self.l3_consistent());
                    }
                }
                Ok(())
            },
        }
    }

    /// L3 add on the buy side: fails with `OrderIdExist` (state unchanged)
    /// when the id is already indexed; otherwise records the order, adds its
    /// lots to the aggregate at its tick, refreshes the best bid and returns
    /// `(previous best bid tick, new best bid tick)`.
    pub fn add_buy_order(&mut self, order_id: u64, price_tick: i64, qty: u64, timestamp: i64) -> (r:
        Result<(i64, i64), DepthError>)
        requires
            old(self).wf(),
            1 <= qty,
            qty_at(old(self).bids(), price_tick) + qty <= u64::MAX,
        ensures
            final(self).wf(),
            old(self).l3_consistent() ==> final(self).l3_consistent(),
            match r {
                Ok(ticks) => {
                    &&& !old(self).has_order(order_id)
                    &&& ticks.0 == old(self).best_bid()
                    &&& ticks.1 == final(self).best_bid()
                    &&& final(self).bids() == old(self).bids().insert(
                        price_tick,
                        (qty_at(old(self).bids(), price_tick) + qty) as u64,
                    )
                    &&& final(self).asks() == old(self).asks()
                    &&& final(self).best_ask() == old(self).best_ask()
                    &&& final(self).orders_view() == old(self).orders_view().push(
                        (L3Order {
                            order_id,
                            side: Side::Buy,
                            price_tick,
                            qty,
                            timestamp,
                        }),
                    )
                },
                Err(e) => e == DepthError::OrderIdExist && old(self).has_order(order_id) && final(self).same_book(*old(self)),
            },
    {
        let order = L3Order { order_id, side: Side::Buy, price_tick, qty, timestamp };
        match self.add(order) {
            Err(e) => Err(e),
            Ok(_) => {
                let prev_best_tick: i64 = self.best_bid_tick;
                if price_tick > self.best_bid_tick {
                    self.best_bid_tick = match self.bid_depth.max_key() {
                        Some(k) => k,
                        None => INVALID_MIN,
                    };
                }
                proof {
                    assert(self.bids().dom().contains(price_tick));
                    assert(self.best_bid_ok());
                    assert(self.best_ask_ok());
                    assert(self.levels_positive());
                    assert(self.wf());
                }
                Ok((prev_best_tick, self.best_bid_tick))
            },
        }
    }

    /// L3 add on the sell side: fails with `OrderIdExist` (state unchanged)
    /// when the id is already indexed; otherwise records the order, adds its
    /// lots to the aggregate at its tick, refreshes the best ask and returns
    /// `(previous best ask tick, new best ask tick)`.
    pub fn add_sell_order(
        &mut self,
        order_id: u64,
        price_tick: i64,
        qty: u64,
        timestamp: i64,
    ) -> (r: Result<(i64, i64), DepthError>)
        requires
            old(self).wf(),
            1 <= qty,
            qty_at(old(self).asks(), price_tick) + qty <= u64::MAX,
        ensures
            final(self).wf(),
            old(self).l3_consistent() ==> final(self).l3_consistent(),
            match r {
                Ok(ticks) => {
                    &&& !old(self).has_order(order_id)
                    &&& ticks.0 == old(self).best_ask()
                    &&& ticks.1 == final(self).best_ask()
                    &&& final(self).asks() == old(self).asks().insert(
                        price_tick,
                        (qty_at(old(self).asks(), price_tick) + qty) as u64,
                    )
                    &&& final(self).bids() == old(self).bids()
                    &&& final(self).best_bid() == old(self).best_bid()
                    &&& final(self).orders_view() == old(self).orders_view().push(
                        (L3Order {
                            order_id,
                            side: Side::Sell,
                            price_tick,
                            qty,
                            timestamp,
                        }),
                    )
                },
                Err(e) => e == DepthError::OrderIdExist && old(self).has_order(order_id) && final(self).same_book(*old(self)),
            },
    {
        let order = L3Order { order_id, side: Side::Sell, price_tick, qty, timestamp };
        match self.add(order) {
            Err(e) => Err(e),
            Ok(_) => {
                let prev_best_tick: i64 = self.best_ask_tick;
                if price_tick < self.best_ask_tick {
                    self.best_ask_tick = match self.ask_depth.min_key() {
                        Some(k) => k,
                        None => INVALID_MAX,
                    };
                }
                proof {
                    assert(self.asks().dom().contains(price_tick));
                    assert(self.best_ask_ok());
                    assert(self.best_bid_ok());
                    assert(self.levels_positive());
                    assert(self.wf());
                }
                Ok((prev_best_tick, self.best_ask_tick))
            },
        }
    }

    /// L3 delete: fails with `OrderNotFound` (state unchanged) when the id
    /// is not indexed; otherwise removes the record, subtracts its lots from
    /// the aggregate at its tick — erasing the level when nothing is left,
    /// and refreshing the best tick where that level was the cached best —
    /// and returns `(side, previous best tick, new best tick)`.
    pub fn delete_order(&mut self, order_id: u64, _timestamp: i64) -> (r: Result<
        (Side, i64, i64),
        DepthError,
    >)
        requires
            old(self).wf(),
            old(self).order_backed(order_id),
        ensures
            final(self).wf(),
            old(self).l3_consistent() ==> final(self).l3_consistent(),
            match r {
                Ok(res) => ({
                    let o = old(self).order_of(order_id);
                    &&& old(self).has_order(order_id)
                    &&& final(self).orders_view() == old(self).orders_view().remove(
                        old(self).order_index(order_id),
                    )
                    &&& res.0 == o.side
                    &&& (o.side == Side::Buy ==> {
                        &&& final(self).bids() == drain(old(self).bids(), o.price_tick, o.qty)
                        &&& final(self).asks() == old(self).asks()
                        &&& final(self).best_ask() == old(self).best_ask()
                        &&& res.1 == old(self).best_bid()
                        &&& res.2 == final(self).best_bid()
                    })
                    &&& (o.side == Side::Sell ==> {
                        &&& final(self).asks() == drain(old(self).asks(), o.price_tick, o.qty)
                        &&& final(self).bids() == old(self).bids()
                        &&& final(self).best_bid() == old(self).best_bid()
                        &&& res.1 == old(self).best_ask()
                        &&& res.2 == final(self).best_ask()
                    })
                }),
                Err(e) => e == DepthError::OrderNotFound && !old(self).has_order(order_id)
                    && final(self).same_book(*old(self)),
            },
    {
        let idx: usize = match self.find_order(order_id) {
            None => {
                return Err(DepthError::OrderNotFound);
            },
            Some(i) => i,
        };
        let order = self.orders.remove(idx);
        proof {
            let s1 = old(self).orders_view();
            let s2 = self.orders_view();
            let iw: int = idx as int;
            assert(old(self).has_order(order_id));
            let ci = old(self).order_index(order_id);
            assert(0 <= ci < s1.len() && s1[ci].order_id == order_id);
            if ci < iw {
                assert(s1[ci].order_id != s1[iw].order_id);
            } else if iw < ci {
                assert(s1[iw].order_id != s1[ci].order_id);
            }
            assert(ci == iw);
            assert(order == s1[iw]);
            assert(forall|j: int| 0 <= j < iw ==> s2[j] == s1[j]);
            assert(forall|j: int| iw <= j < s2.len() ==> s2[j] == s1[j + 1]);
            assert forall|a: int, b: int| 0 <= a < b < s2.len() implies s2[a].order_id
                != s2[b].order_id by {
                let a1: int = if a < iw {
                    a
                } else {
                    a + 1
                };
                let b1: int = if b < iw {
                    b
                } else {
                    b + 1
                };
                assert(s1[a1].order_id != s1[b1].order_id);
            }
            assert(self.orders_unique());
            assert(self.sides_valid());
        }
        if order.side == Side::Buy {
            let prev_best_tick: i64 = self.best_bid_tick;
            let cur: u64 = self.bid_depth.get(order.price_tick);
            if order.qty < cur {
                self.bid_depth.set(order.price_tick, cur - order.qty);
            } else {
                self.bid_depth.erase(order.price_tick);
                if order.price_tick == prev_best_tick {
                    self.best_bid_tick = match self.bid_depth.max_key() {
                        Some(k) => k,
                        None => INVALID_MIN,
                    };
                }
            }
            proof {
                self.bid_depth.lemma_positive();
                assert(self.levels_positive());
                assert(old(self).bids().dom().contains(order.price_tick));
                assert(self.best_bid_ok());
                assert(self.asks() == old(self).asks());
                assert(self.best_ask_ok());
                assert(self.wf());
                if old(self).l3_consistent() {
                    let s1 = old(self).orders_view();
                    let s2 = self.orders_view();
                    let iw: int = idx as int;
                    let t0 = order.price_tick;
                    lemma_qty_sum_member(s1, iw);
                    assert forall|t: i64| #[trigger] self.bids().dom().contains(t) implies
                        self.bids()[t] == qty_sum(s2, Side::Buy, t) by {
                        lemma_qty_sum_remove(s1, iw, Side::Buy, t);
                    }
                    assert forall|t: i64| #[trigger] qty_sum(s2, Side::Buy, t) > 0 implies
                        self.bids().dom().contains(t) by {
                        lemma_qty_sum_remove(s1, iw, Side::Buy, t);
                    }
                    assert forall|t: i64| #[trigger] self.asks().dom().contains(t) implies
                        self.asks()[t] == qty_sum(s2, Side::Sell, t) by {
                        lemma_qty_sum_remove(s1, iw, Side::Sell, t);
                    }
                    assert forall|t: i64| #[trigger] qty_sum(s2, Side::Sell, t) > 0 implies
                        self.asks().dom().contains(t) by {
                        lemma_qty_sum_remove(s1, iw, Side::Sell, t);
                    }
                    assert(self.l3_consistent());
                }
            }
            Ok((Side::Buy, prev_best_tick, self.best_bid_tick))
        } else {
            let prev_best_tick: i64 = self.best_ask_tick;
            let cur: u64 = self.ask_depth.get(order.price_tick);
            if order.qty < cur {
                self.ask_depth.set(order.price_tick, cur - order.qty);
            } else {
                self.ask_depth.erase(order.price_tick);
                if order.price_tick == prev_best_tick {
                    self.best_ask_tick = match self.ask_depth.min_key() {
                        Some(k) => k,
                        None => INVALID_MAX,
                    };
                }
            }
            proof {
                self.ask_depth.lemma_positive();
                assert(self.levels_positive());
                assert(old(self).asks().dom().contains(order.price_tick));
                assert(self.best_ask_ok());
                assert(self.bids() == old(self).bids());
                assert(self.best_bid_ok());
                assert(self.wf());
                if old(self).l3_consistent() {
                    let s1 = old(self).orders_view();
                    let s2 = self.orders_view();
                    let iw: int = idx as int;
                    lemma_qty_sum_member(s1, iw);
                    assert forall|t: i64| #[trigger] self.asks().dom().contains(t) implies
                        self.asks()[t] == qty_sum(s2, Side::Sell, t) by {
                        lemma_qty_sum_remove(s1, iw, Side::Sell, t);
                    }
                    assert forall|t: i64| #[trigger] qty_sum(s2, Side::Sell, t) > 0 implies
                        self.asks().dom().contains(t) by {
                        lemma_qty_sum_remove(s1, iw, Side::Sell, t);
                    }
                    assert forall|t: i64| #[trigger] self.bids().dom().contains(t) implies
                        self.bids()[t] == qty_sum(s2, Side::Buy, t) by {
                        lemma_qty_sum_remove(s1, iw, Side::Buy, t);
                    }
                    assert forall|t: i64| #[trigger] qty_sum(s2, Side::Buy, t) > 0 implies
                        self.bids().dom().contains(t) by {
                        lemma_qty_sum_remove(s1, iw, Side::Buy, t);
                    }
                    assert(self.l3_consistent());
                }
            }
            Ok((Side::Sell, prev_best_tick, self.best_ask_tick))
        }
    }

    /// L3 modify: fails with `OrderNotFound` (state unchanged) when the id
    /// is not indexed. At an unchanged tick, the level aggregate is adjusted
    /// by the quantity difference and the record's quantity rewritten in
    /// place; the best tick and the record's price and timestamp stay. At a
    /// changed tick, the order's lots leave the old level (erasing it when
    /// nothing is left, refreshing the best where it was the cached best),
    /// the record is rewritten with the new tick, quantity and timestamp,
    /// and its lots join the new level, refreshing the best again. Queue
    /// position is not modelled; every modify is a rewrite of the record.
    /// Returns `(side, previous best tick, new best tick)`.
    pub fn modify_order(&mut self, order_id: u64, price_tick: i64, qty: u64, timestamp: i64) -> (r:
        Result<(Side, i64, i64), DepthError>)
        requires
            old(self).wf(),
            1 <= qty,
            old(self).order_backed(order_id),
            old(self).modify_fits(order_id, price_tick, qty),
        ensures
            final(self).wf(),
            old(self).l3_consistent() ==> final(self).l3_consistent(),
            match r {
                Ok(res) => ({
                    let o = old(self).order_of(order_id);
                    let i = old(self).order_index(order_id);
                    &&& old(self).has_order(order_id)
                    &&& res.0 == o.side
                    &&& (price_tick == o.price_tick ==> {
                        &&& final(self).orders_view() == old(self).orders_view().update(
                            i,
                            (L3Order {
                                order_id,
                                side: o.side,
                                price_tick: o.price_tick,
                                qty,
                                timestamp: o.timestamp,
                            }),
                        )
                        &&& final(self).best_bid() == old(self).best_bid()
                        &&& final(self).best_ask() == old(self).best_ask()
                        &&& res.1 == (if o.side == Side::Buy {
                            old(self).best_bid()
                        } else {
                            old(self).best_ask()
                        })
                        &&& res.2 == res.1
                        &&& (o.side == Side::Buy ==> final(self).bids() == old(
                            self,
                        ).bids().insert(
                            price_tick,
                            (sat_sub(qty_at(old(self).bids(), price_tick), o.qty) + qty) as u64,
                        ) && final(self).asks() == old(self).asks())
                        &&& (o.side == Side::Sell ==> final(self).asks() == old(
                            self,
                        ).asks().insert(
                            price_tick,
                            (sat_sub(qty_at(old(self).asks(), price_tick), o.qty) + qty) as u64,
                        ) && final(self).bids() == old(self).bids())
                    })
                    &&& (price_tick != o.price_tick ==> {
                        &&& final(self).orders_view() == old(self).orders_view().update(
                            i,
                            (L3Order { order_id, side: o.side, price_tick, qty, timestamp }),
                        )
                        &&& (o.side == Side::Buy ==> {
                            &&& final(self).bids() == drain(
                                old(self).bids(),
                                o.price_tick,
                                o.qty,
                            ).insert(
                                price_tick,
                                (qty_at(old(self).bids(), price_tick) + qty) as u64,
                            )
                            &&& final(self).asks() == old(self).asks()
                            &&& final(self).best_ask() == old(self).best_ask()
                            &&& res.1 == old(self).best_bid()
                            &&& res.2 == final(self).best_bid()
                        })
                        &&& (o.side == Side::Sell ==> {
                            &&& final(self).asks() == drain(
                                old(self).asks(),
                                o.price_tick,
                                o.qty,
                            ).insert(
                                price_tick,
                                (qty_at(old(self).asks(), price_tick) + qty) as u64,
                            )
                            &&& final(self).bids() == old(self).bids()
                            &&& final(self).best_bid() == old(self).best_bid()
                            &&& res.1 == old(self).best_ask()
                            &&& res.2 == final(self).best_ask()
                        })
                    })
                }),
                Err(e) => e == DepthError::OrderNotFound && !old(self).has_order(order_id)
                    && final(self).same_book(*old(self)),
            },
    {
        let idx: usize = match self.find_order(order_id) {
            None => {
                return Err(DepthError::OrderNotFound);
            },
            Some(i) => i,
        };
        let o = self.orders[idx];
        proof {
            let s1 = old(self).orders_view();
            let iw: int = idx as int;
            assert(old(self).has_order(order_id));
            let ci = old(self).order_index(order_id);
            assert(0 <= ci < s1.len() && s1[ci].order_id == order_id);
            if ci < iw {
                assert(s1[ci].order_id != s1[iw].order_id);
            } else if iw < ci {
                assert(s1[iw].order_id != s1[ci].order_id);
            }
            assert(ci == iw);
            assert(o == old(self).order_of(order_id));
        }
        if o.side == Side::Buy {
            let prev_best_tick: i64 = self.best_bid_tick;
            if price_tick != o.price_tick {
                let cur: u64 = self.bid_depth.get(o.price_tick);
                if o.qty < cur {
                    self.bid_depth.set(o.price_tick, cur - o.qty);
                } else {
                    self.bid_depth.erase(o.price_tick);
                    if o.price_tick == prev_best_tick {
                        self.best_bid_tick = match self.bid_depth.max_key() {
                            Some(k) => k,
                            None => INVALID_MIN,
                        };
                    }
                }
                self.orders[idx] = L3Order { order_id, side: o.side, price_tick, qty, timestamp };
                let at_new: u64 = self.bid_depth.get(price_tick);
                self.bid_depth.set(price_tick, at_new + qty);
                if price_tick > self.best_bid_tick {
                    self.best_bid_tick = match self.bid_depth.max_key() {
                        Some(k) => k,
                        None => INVALID_MIN,
                    };
                }
                proof {
                    self.bid_depth.lemma_positive();
                    assert(self.levels_positive());
                    assert(self.bids().dom().contains(price_tick));
                    assert(self.best_bid_ok());
                    assert(self.asks() == old(self).asks());
                    assert(self.best_ask_ok());
                    self.modify_commute_proof(*old(self), idx as int, o, price_tick, qty);
                    assert(self.wf());
                }
                Ok((Side::Buy, prev_best_tick, self.best_bid_tick))
            } else {
                let cur: u64 = self.bid_depth.get(o.price_tick);
                let rem: u64 = if o.qty < cur {
                    cur - o.qty
                } else {
                    0
                };
                self.bid_depth.set(price_tick, rem + qty);
                self.orders[idx] = L3Order {
                    order_id: o.order_id,
                    side: o.side,
                    price_tick: o.price_tick,
                    qty,
                    timestamp: o.timestamp,
                };
                proof {
                    self.bid_depth.lemma_positive();
                    assert(self.levels_positive());
                    assert(old(self).bids().dom().contains(price_tick));
                    assert(self.bids().dom().contains(price_tick));
                    assert(self.best_bid_ok());
                    assert(self.asks() == old(self).asks());
                    assert(self.best_ask_ok());
                    self.modify_commute_proof(*old(self), idx as int, o, price_tick, qty);
                    assert(self.wf());
                }
                Ok((Side::Buy, prev_best_tick, self.best_bid_tick))
            }
        } else {
            let prev_best_tick: i64 = self.best_ask_tick;
            if price_tick != o.price_tick {
                let cur: u64 = self.ask_depth.get(o.price_tick);
                if o.qty < cur {
                    self.ask_depth.set(o.price_tick, cur - o.qty);
                } else {
                    self.ask_depth.erase(o.price_tick);
                    if o.price_tick == prev_best_tick {
                        self.best_ask_tick = match self.ask_depth.min_key() {
                            Some(k) => k,
                            None => INVALID_MAX,
                        };
                    }
                }
                self.orders[idx] = L3Order { order_id, side: o.side, price_tick, qty, timestamp };
                let at_new: u64 = self.ask_depth.get(price_tick);
                self.ask_depth.set(price_tick, at_new + qty);
                if price_tick < self.best_ask_tick {
                    self.best_ask_tick = match self.ask_depth.min_key() {
                        Some(k) => k,
                        None => INVALID_MAX,
                    };
                }
                proof {
                    self.ask_depth.lemma_positive();
                    assert(self.levels_positive());
                    assert(self.asks().dom().contains(price_tick));
                    assert(self.best_ask_ok());
                    assert(self.bids() == old(self).bids());
                    assert(self.best_bid_ok());
                    self.modify_commute_proof(*old(self), idx as int, o, price_tick, qty);
                    assert(self.wf());
                }
                Ok((Side::Sell, prev_best_tick, self.best_ask_tick))
            } else {
                let cur: u64 = self.ask_depth.get(o.price_tick);
                let rem: u64 = if o.qty < cur {
                    cur - o.qty
                } else {
                    0
                };
                self.ask_depth.set(price_tick, rem + qty);
                self.orders[idx] = L3Order {
                    order_id: o.order_id,
                    side: o.side,
                    price_tick: o.price_tick,
                    qty,
                    timestamp: o.timestamp,
                };
                proof {
                    self.ask_depth.lemma_positive();
                    assert(self.levels_positive());
                    assert(old(self).asks().dom().contains(price_tick));
                    assert(self.asks().dom().contains(price_tick));
                    assert(self.best_ask_ok());
                    assert(self.bids() == old(self).bids());
                    assert(self.best_bid_ok());
                    self.modify_commute_proof(*old(self), idx as int, o, price_tick, qty);
                    assert(self.wf());
                }
                Ok((Side::Sell, prev_best_tick, self.best_ask_tick))
            }
        }
    }

    /// Shared tail of the modify proof: uniqueness and side validity of the
    /// updated index, and preservation of the depth/index consistency.
    proof fn modify_commute_proof(self, pre: Self, iw: int, o: L3Order, price_tick: i64, qty: u64)
        requires
            pre.wf(),
            0 <= iw < pre.orders_view().len(),
            o == pre.orders_view()[iw],
            1 <= qty,
            self.orders_view() == pre.orders_view().update(
                iw,
                (L3Order {
                    order_id: o.order_id,
                    side: o.side,
                    price_tick: if price_tick == o.price_tick {
                        o.price_tick
                    } else {
                        price_tick
                    },
                    qty,
                    timestamp: self.orders_view()[iw].timestamp,
                }),
            ),
            o.side == Side::Buy ==> self.asks() == pre.asks(),
            o.side == Side::Sell ==> self.bids() == pre.bids(),
            o.side == Side::Buy ==> (if price_tick == o.price_tick {
                pre.bids().dom().contains(o.price_tick) ==> self.bids() == pre.bids().insert(
                    price_tick,
                    (sat_sub(qty_at(pre.bids(), price_tick), o.qty) + qty) as u64,
                )
            } else {
                self.bids() == drain(pre.bids(), o.price_tick, o.qty).insert(
                    price_tick,
                    (qty_at(pre.bids(), price_tick) + qty) as u64,
                )
            }),
            o.side == Side::Sell ==> (if price_tick == o.price_tick {
                pre.asks().dom().contains(o.price_tick) ==> self.asks() == pre.asks().insert(
                    price_tick,
                    (sat_sub(qty_at(pre.asks(), price_tick), o.qty) + qty) as u64,
                )
            } else {
                self.asks() == drain(pre.asks(), o.price_tick, o.qty).insert(
                    price_tick,
                    (qty_at(pre.asks(), price_tick) + qty) as u64,
                )
            }),
            o.side == Side::Buy || o.side == Side::Sell,
            pre.bids().dom().contains(o.price_tick) || o.side == Side::Sell,
            pre.asks().dom().contains(o.price_tick) || o.side == Side::Buy,
            o.side == Side::Buy ==> (if price_tick == o.price_tick {
                sat_sub(qty_at(pre.bids(), price_tick), o.qty) + qty <= u64::MAX
            } else {
                qty_at(pre.bids(), price_tick) + qty <= u64::MAX
            }),
            o.side == Side::Sell ==> (if price_tick == o.price_tick {
                sat_sub(qty_at(pre.asks(), price_tick), o.qty) + qty <= u64::MAX
            } else {
                qty_at(pre.asks(), price_tick) + qty <= u64::MAX
            }),
        ensures
            self.orders_unique(),
            self.sides_valid(),
            pre.l3_consistent() ==> self.l3_consistent(),
    {
        let s1 = pre.orders_view();
        let s2 = self.orders_view();
        let o2 = s2[iw];
        assert forall|a: int, b: int| 0 <= a < b < s2.len() implies s2[a].order_id
            != s2[b].order_id by {
            assert(s1[a].order_id != s1[b].order_id);
        }
        assert(self.orders_unique());
        assert(self.sides_valid());
        if pre.l3_consistent() {
            lemma_qty_sum_member(s1, iw);
            if o.side == Side::Buy {
                assert forall|t: i64| #[trigger] self.bids().dom().contains(t) implies
                    self.bids()[t] == qty_sum(s2, Side::Buy, t) by {
                    lemma_qty_sum_update(s1, iw, o2, Side::Buy, t);
                    lemma_qty_sum_nonneg(s1, Side::Buy, t);
                    if price_tick == o.price_tick {
                        if t == o.price_tick {
                            assert(pre.bids().dom().contains(t));
                            assert(qty_sum(s1, Side::Buy, t) == pre.bids()[t]);
                            assert(qty_sum(s1, Side::Buy, t) >= o.qty);
                            assert(side_qty(o, Side::Buy, t) == o.qty);
                            assert(side_qty(o2, Side::Buy, t) == qty);
                        } else {
                            assert(side_qty(o, Side::Buy, t) == 0);
                            assert(side_qty(o2, Side::Buy, t) == 0);
                            assert(self.bids()[t] == pre.bids()[t]);
                        }
                    } else {
                        if t == price_tick {
                            assert(side_qty(o, Side::Buy, t) == 0);
                            assert(side_qty(o2, Side::Buy, t) == qty);
                            if pre.bids().dom().contains(t) {
                                assert(qty_sum(s1, Side::Buy, t) == pre.bids()[t]);
                            } else {
                                assert(qty_sum(s1, Side::Buy, t) == 0);
                            }
                        } else if t == o.price_tick {
                            assert(o.qty < qty_at(pre.bids(), t));
                            assert(side_qty(o, Side::Buy, t) == o.qty);
                            assert(side_qty(o2, Side::Buy, t) == 0);
                            assert(qty_sum(s1, Side::Buy, t) == pre.bids()[t]);
                        } else {
                            assert(side_qty(o, Side::Buy, t) == 0);
                            assert(side_qty(o2, Side::Buy, t) == 0);
                            assert(self.bids()[t] == pre.bids()[t]);
                        }
                    }
                }
                assert forall|t: i64| #[trigger] qty_sum(s2, Side::Buy, t) > 0 implies
                    self.bids().dom().contains(t) by {
                    lemma_qty_sum_update(s1, iw, o2, Side::Buy, t);
                    lemma_qty_sum_nonneg(s1, Side::Buy, t);
                }
                assert forall|t: i64| #[trigger] self.asks().dom().contains(t) implies
                    self.asks()[t] == qty_sum(s2, Side::Sell, t) by {
                    lemma_qty_sum_update(s1, iw, o2, Side::Sell, t);
                }
                assert forall|t: i64| #[trigger] qty_sum(s2, Side::Sell, t) > 0 implies
                    self.asks().dom().contains(t) by {
                    lemma_qty_sum_update(s1, iw, o2, Side::Sell, t);
                }
            } else {
                assert forall|t: i64| #[trigger] self.asks().dom().contains(t) implies
                    self.asks()[t] == qty_sum(s2, Side::Sell, t) by {
                    lemma_qty_sum_update(s1, iw, o2, Side::Sell, t);
                    lemma_qty_sum_nonneg(s1, Side::Sell, t);
                    if price_tick == o.price_tick {
                        if t == o.price_tick {
                            assert(pre.asks().dom().contains(t));
                            assert(qty_sum(s1, Side::Sell, t) == pre.asks()[t]);
                            assert(qty_sum(s1, Side::Sell, t) >= o.qty);
                            assert(side_qty(o, Side::Sell, t) == o.qty);
                            assert(side_qty(o2, Side::Sell, t) == qty);
                        } else {
                            assert(side_qty(o, Side::Sell, t) == 0);
                            assert(side_qty(o2, Side::Sell, t) == 0);
                            assert(self.asks()[t] == pre.asks()[t]);
                        }
                    } else {
                        if t == price_tick {
                            assert(side_qty(o, Side::Sell, t) == 0);
                            assert(side_qty(o2, Side::Sell, t) == qty);
                            if pre.asks().dom().contains(t) {
                                assert(qty_sum(s1, Side::Sell, t) == pre.asks()[t]);
                            } else {
                                assert(qty_sum(s1, Side::Sell, t) == 0);
                            }
                        } else if t == o.price_tick {
                            assert(o.qty < qty_at(pre.asks(), t));
                            assert(side_qty(o, Side::Sell, t) == o.qty);
                            assert(side_qty(o2, Side::Sell, t) == 0);
                            assert(qty_sum(s1, Side::Sell, t) == pre.asks()[t]);
                        } else {
                            assert(side_qty(o, Side::Sell, t) == 0);
                            assert(side_qty(o2, Side::Sell, t) == 0);
                            assert(self.asks()[t] == pre.asks()[t]);
                        }
                    }
                }
                assert forall|t: i64| #[trigger] qty_sum(s2, Side::Sell, t) > 0 implies
                    self.asks().dom().contains(t) by {
                    lemma_qty_sum_update(s1, iw, o2, Side::Sell, t);
                    lemma_qty_sum_nonneg(s1, Side::Sell, t);
                }
                assert forall|t: i64| #[trigger] self.bids().dom().contains(t) implies
                    self.bids()[t] == qty_sum(s2, Side::Buy, t) by {
                    lemma_qty_sum_update(s1, iw, o2, Side::Buy, t);
                }
                assert forall|t: i64| #[trigger] qty_sum(s2, Side::Buy, t) > 0 implies
                    self.bids().dom().contains(t) by {
                    lemma_qty_sum_update(s1, iw, o2, Side::Buy, t);
                }
            }
            assert(self.l3_consistent());
        }
    }

    /// Replaces both depth maps wholesale with what the batch denotes (see
    /// `bids_of` / `asks_of`: last writer wins per tick, zero lots erase) and
    /// refreshes both best-tick caches. The L3 order index is not touched:
    /// snapshot and L3 tracking are parallel concerns.
    pub fn apply_snapshot(&mut self, data: &Vec<Event>)
        requires
            old(self).wf(),
        ensures
            final(self).wf(),
            final(self).bids() == bids_of(data@),
            final(self).asks() == asks_of(data@),
            final(self).orders_view() == old(self).orders_view(),
    {
        self.bid_depth.clear();
        self.ask_depth.clear();
        let mut i: usize = 0;
        while i < data.len()
            invariant
                i <= data@.len(),
                self.bid_depth.wf(),
                self.ask_depth.wf(),
                self.bid_depth@ == bids_of(data@.subrange(0, i as int)),
                self.ask_depth@ == asks_of(data@.subrange(0, i as int)),
                self.orders@ == old(self).orders_view(),
            decreases data@.len() - i,
        {
            let e = data[i];
            proof {
                assert(data@.subrange(0, i + 1).drop_last() =~= data@.subrange(0, i as int));
                assert(data@.subrange(0, i + 1).last() == e);
            }
            if e.ev & BUY_EVENT == BUY_EVENT {
                if e.qty == 0 {
                    self.bid_depth.erase(e.price_tick);
                } else {
                    self.bid_depth.set(e.price_tick, e.qty);
                }
            } else if e.ev & SELL_EVENT == SELL_EVENT {
                if e.qty == 0 {
                    self.ask_depth.erase(e.price_tick);
                } else {
                    self.ask_depth.set(e.price_tick, e.qty);
                }
            }
            i = i + 1;
        }
        proof {
            assert(data@.subrange(0, data@.len() as int) =~= data@);
        }
        self.best_bid_tick = match self.bid_depth.max_key() {
            Some(k) => k,
            None => INVALID_MIN,
        };
        self.best_ask_tick = match self.ask_depth.min_key() {
            Some(k) => k,
            None => INVALID_MAX,
        };
        proof {
            self.bid_depth.lemma_positive();
            self.ask_depth.lemma_positive();
            assert(self.levels_positive());
            assert(self.best_bid_ok());
            assert(self.best_ask_ok());
            assert(self.wf());
        }
    }

    /// Emits one record per populated tick on each side — buy-flagged for
    /// bids, sell-flagged for asks, carrying the stored lots — so that
    /// feeding the batch to `apply_snapshot` reconstructs the aggregate
    /// depth exactly. The order of records is unconstrained.
    pub fn snapshot(&self) -> (r: Vec<Event>)
        requires
            self.wf(),
        ensures
            bids_of(r@) == self.bids(),
            asks_of(r@) == self.asks(),
            forall|i: int| 0 <= i < r@.len() ==> ((#[trigger] r@[i]).exch_ts == 0
                && r@[i].local_ts == 0 && ((r@[i].ev == BUY_EVENT && self.bids().dom().contains(
                r@[i].price_tick,
            ) && r@[i].qty == self.bids()[r@[i].price_tick]) || (r@[i].ev == SELL_EVENT
                && self.asks().dom().contains(r@[i].price_tick) && r@[i].qty == self.asks()[r@[i].price_tick]))),
            forall|i1: int, i2: int| 0 <= i1 < i2 < r@.len() ==> ((#[trigger] r@[i1]).ev != (
            #[trigger] r@[i2]).ev || r@[i1].price_tick != r@[i2].price_tick),
    {
        proof {
            lemma_event_flags();
        }
        let mut events: Vec<Event> = Vec::new();
        let bid_items = self.bid_depth.items();
        let mut i: usize = 0;
        while i < bid_items.len()
            invariant
                i <= bid_items@.len(),
                self.wf(),
                forall|j: int| 0 <= j < bid_items@.len() ==> self.bids().dom().contains(
                    (#[trigger] bid_items@[j]).0,
                ) && self.bids()[bid_items@[j].0] == bid_items@[j].1,
                forall|j1: int, j2: int| 0 <= j1 < j2 < bid_items@.len() ==> bid_items@[j1].0
                    != bid_items@[j2].0,
                forall|k: i64| #[trigger] self.bids().dom().contains(k) ==> exists|j: int|
                    0 <= j < bid_items@.len() && bid_items@[j].0 == k,
                forall|k: i64| #[trigger] bids_of(events@).dom().contains(k)
                    ==> self.bids().dom().contains(k) && bids_of(events@)[k] == self.bids()[k],
                forall|j: int| 0 <= j < i ==> bids_of(events@).dom().contains(
                    (#[trigger] bid_items@[j]).0,
                ),
                asks_of(events@) == Map::<i64, u64>::empty(),
                events@.len() == i,
                forall|j: int| 0 <= j < i ==> (#[trigger] events@[j]).price_tick
                    == bid_items@[j].0,
                forall|j: int| 0 <= j < events@.len() ==> ((#[trigger] events@[j]).exch_ts == 0
                    && events@[j].local_ts == 0 && events@[j].ev == BUY_EVENT
                    && self.bids().dom().contains(events@[j].price_tick) && events@[j].qty
                    == self.bids()[events@[j].price_tick]),
            decreases bid_items@.len() - i,
        {
            let it = bid_items[i];
            let e = Event {
                ev: BUY_EVENT,
                exch_ts: 0,
                local_ts: 0,
                price_tick: it.0,
                qty: it.1,
            };
            let ghost evs0 = events@;
            events.push(e);
            i = i + 1;
            proof {
                lemma_event_flags();
                assert(e.qty >= 1);
                assert(events@ == evs0.push(e));
                assert(events@.drop_last() =~= evs0);
                assert(events@.last() == e);
                assert(bids_of(events@) == bids_of(evs0).insert(e.price_tick, e.qty));
                assert(asks_of(events@) == asks_of(evs0));
            }
        }
        proof {
            assert(bids_of(events@) =~= self.bids());
        }
        let ask_items = self.ask_depth.items();
        let mut j: usize = 0;
        while j < ask_items.len()
            invariant
                j <= ask_items@.len(),
                self.wf(),
                forall|j1: int| 0 <= j1 < ask_items@.len() ==> self.asks().dom().contains(
                    (#[trigger] ask_items@[j1]).0,
                ) && self.asks()[ask_items@[j1].0] == ask_items@[j1].1,
                forall|j1: int, j2: int| 0 <= j1 < j2 < ask_items@.len() ==> ask_items@[j1].0
                    != ask_items@[j2].0,
                forall|k: i64| #[trigger] self.asks().dom().contains(k) ==> exists|j1: int|
                    0 <= j1 < ask_items@.len() && ask_items@[j1].0 == k,
                bids_of(events@) == self.bids(),
                forall|k: i64| #[trigger] asks_of(events@).dom().contains(k)
                    ==> self.asks().dom().contains(k) && asks_of(events@)[k] == self.asks()[k],
                forall|j1: int| 0 <= j1 < j ==> asks_of(events@).dom().contains(
                    (#[trigger] ask_items@[j1]).0,
                ),
                events@.len() == bid_items@.len() + j,
                forall|j1: int| 0 <= j1 < bid_items@.len() ==> (#[trigger] events@[j1]).ev
                    == BUY_EVENT && events@[j1].price_tick == bid_items@[j1].0,
                forall|j1: int| bid_items@.len() <= j1 < events@.len() ==> (
                #[trigger] events@[j1]).ev == SELL_EVENT && events@[j1].price_tick == ask_items@[j1
                    - bid_items@.len()].0,
                forall|j1: int| 0 <= j1 < events@.len() ==> ((#[trigger] events@[j1]).exch_ts == 0
                    && events@[j1].local_ts == 0 && ((events@[j1].ev == BUY_EVENT
                    && self.bids().dom().contains(events@[j1].price_tick) && events@[j1].qty
                    == self.bids()[events@[j1].price_tick]) || (events@[j1].ev == SELL_EVENT
                    && self.asks().dom().contains(events@[j1].price_tick) && events@[j1].qty
                    == self.asks()[events@[j1].price_tick]))),
            decreases ask_items@.len() - j,
        {
            let it = ask_items[j];
            let e = Event {
                ev: SELL_EVENT,
                exch_ts: 0,
                local_ts: 0,
                price_tick: it.0,
                qty: it.1,
            };
            let ghost evs0 = events@;
            events.push(e);
            j = j + 1;
            proof {
                lemma_event_flags();
                assert(e.qty >= 1);
                assert(events@ == evs0.push(e));
                assert(events@.drop_last() =~= evs0);
                assert(events@.last() == e);
                assert(asks_of(events@) == asks_of(evs0).insert(e.price_tick, e.qty));
                assert(bids_of(events@) == bids_of(evs0));
            }
        }
        proof {
            assert(asks_of(events@) =~= self.asks());
            assert forall|i1: int, i2: int| 0 <= i1 < i2 < events@.len() implies ((
            #[trigger] events@[i1]).ev != (#[trigger] events@[i2]).ev || events@[i1].price_tick
                != events@[i2].price_tick) by {
                let nb = bid_items@.len() as int;
                if i1 < nb && i2 < nb {
                    assert(bid_items@[i1].0 != bid_items@[i2].0);
                } else if nb <= i1 && nb <= i2 {
                    assert(ask_items@[i1 - nb].0 != ask_items@[i2 - nb].0);
                }
            }
        }
        events
    }

    /// The L3 order index.
    pub fn orders(&self) -> (r: &Vec<L3Order>)
        ensures
            r@ == self.orders_view(),
    {
        &self.orders
    }
}

/// Snapshot round trip: a batch that denotes a book's aggregate depth — as
/// `snapshot` emits of `src` — rebuilds, through `apply_snapshot` on `dst`,
/// the very same depth maps; and since the cached best ticks of a well-formed
/// book are a function of its depth maps alone, the rebuilt caches agree with
/// the source's too.
pub proof fn lemma_snapshot_round_trip(
    src: BTreeMarketDepth,
    dst: BTreeMarketDepth,
    events: Seq<Event>,
)
    requires
        src.wf(),
        dst.wf(),
        bids_of(events) == src.bids(),
        asks_of(events) == src.asks(),
        dst.bids() == bids_of(events),
        dst.asks() == asks_of(events),
    ensures
        dst.bids() == src.bids(),
        dst.asks() == src.asks(),
        dst.best_bid() == src.best_bid(),
        dst.best_ask() == src.best_ask(),
{
    BTreeMarketDepth::lemma_best_determined(src, dst);
}

} // verus!
