//! Plain data carried in and out of the depth engine.

use vstd::prelude::*;

verus! {

/// Sentinel bid tick: no bid exists. Any legitimate bid tick is strictly
/// greater, so "better bid" comparisons need no null check.
pub const INVALID_MIN: i64 = i64::MIN;

/// Sentinel ask tick: no ask exists. Any legitimate ask tick is strictly
/// less, so "better ask" comparisons need no null check.
pub const INVALID_MAX: i64 = i64::MAX;

/// Event-flag bit that routes a snapshot record to the bid side.
pub const BUY_EVENT: u64 = 0x20000000;

/// Event-flag bit that routes a snapshot record to the ask side.
pub const SELL_EVENT: u64 = 0x10000000;

/// Which side of the book an operation addresses. `Neither` selects both
/// sides where an operation accepts it (clearing the book).
#[derive(Clone, Copy, Debug, PartialEq, Eq, Structural)]
pub enum Side {
    Buy,
    Sell,
    Neither,
}

/// An individual resting order tracked by the L3 facet. The quantity is a
/// whole number of lots; the timestamp is the logical time of the mutation
/// that last rewrote the record.
#[derive(Clone, Copy, Debug, PartialEq, Eq, Structural)]
pub struct L3Order {
    pub order_id: u64,
    pub side: Side,
    pub price_tick: i64,
    pub qty: u64,
    pub timestamp: i64,
}

/// A depth record of a snapshot batch. The `ev` bitmask routes the record:
/// the `BUY_EVENT` bit to the bid side, else the `SELL_EVENT` bit to the ask
/// side. A record whose quantity is zero lots erases its level.
#[derive(Clone, Copy, Debug, PartialEq, Eq, Structural)]
pub struct Event {
    pub ev: u64,
    pub exch_ts: i64,
    pub local_ts: i64,
    pub price_tick: i64,
    pub qty: u64,
}

/// Errors of the L3 order operations. The engine state is unchanged whenever
/// one is returned.
#[derive(Clone, Copy, Debug, PartialEq, Eq, Structural)]
pub enum DepthError {
    /// An add was given an order id that is already in the index.
    OrderIdExist,
    /// A delete or modify was given an order id that is not in the index.
    OrderNotFound,
}

} // verus!
