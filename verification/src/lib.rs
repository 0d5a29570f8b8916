//! Order-book depth engine for a single instrument.
//!
//! The engine keeps, per side, the aggregate quantity resting at each price
//! level, a cached best tick, and an index of individual resting orders.
//! All interior coordinates are integers: prices are ticks (the price divided
//! by the tick size, rounded to nearest) and quantities are whole lots (the
//! quantity divided by the lot size, rounded to nearest), so equality,
//! ordering and absence are exact.

mod ladder;

pub mod book;
pub mod types;

pub use book::BTreeMarketDepth;
pub use types::{DepthError, Event, L3Order, Side};
pub use types::{BUY_EVENT, INVALID_MAX, INVALID_MIN, SELL_EVENT};
