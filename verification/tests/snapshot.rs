// Snapshot emission and wholesale application, including the round trip.

use market_depth::{BTreeMarketDepth, Event, BUY_EVENT, INVALID_MAX, INVALID_MIN, SELL_EVENT};

#[test]
fn snapshot_round_trip_rebuilds_depth_and_bests() {
    let mut src = BTreeMarketDepth::new();
    let _ = src.update_bid_depth(5001, 1, 0);
    let _ = src.update_bid_depth(5003, 2, 0);
    let _ = src.update_bid_depth(5005, 3, 0);
    let _ = src.update_ask_depth(5010, 4, 0);
    let _ = src.update_ask_depth(5012, 5, 0);

    let batch = src.snapshot();
    assert_eq!(batch.len(), 5);

    let mut dst = BTreeMarketDepth::new();
    dst.apply_snapshot(&batch);

    for t in [5001, 5003, 5005, 5010, 5012] {
        assert_eq!(dst.bid_qty_at_tick(t), src.bid_qty_at_tick(t));
        assert_eq!(dst.ask_qty_at_tick(t), src.ask_qty_at_tick(t));
    }
    assert_eq!(dst.best_bid_tick(), src.best_bid_tick());
    assert_eq!(dst.best_ask_tick(), src.best_ask_tick());
    assert_eq!(dst.best_bid_tick(), 5005);
    assert_eq!(dst.best_ask_tick(), 5010);
}

#[test]
fn snapshot_of_empty_book_is_empty() {
    let src = BTreeMarketDepth::new();
    let batch = src.snapshot();
    assert_eq!(batch.len(), 0);

    let mut dst = BTreeMarketDepth::new();
    let _ = dst.update_bid_depth(5001, 1, 0);
    dst.apply_snapshot(&batch);
    assert_eq!(dst.best_bid_tick(), INVALID_MIN);
    assert_eq!(dst.best_ask_tick(), INVALID_MAX);
    assert_eq!(dst.bid_qty_at_tick(5001), 0);
}

#[test]
fn snapshot_records_carry_side_flags_and_stored_lots() {
    let mut src = BTreeMarketDepth::new();
    let _ = src.update_bid_depth(5001, 7, 0);
    let _ = src.update_ask_depth(5010, 9, 0);

    let batch = src.snapshot();
    assert_eq!(batch.len(), 2);
    let bid = batch.iter().find(|e| e.ev == BUY_EVENT).unwrap();
    assert_eq!(bid.price_tick, 5001);
    assert_eq!(bid.qty, 7);
    let ask = batch.iter().find(|e| e.ev == SELL_EVENT).unwrap();
    assert_eq!(ask.price_tick, 5010);
    assert_eq!(ask.qty, 9);
}

#[test]
fn apply_snapshot_replaces_prior_state_last_writer_wins() {
    let mut depth = BTreeMarketDepth::new();
    let _ = depth.update_bid_depth(4000, 9, 0);
    let _ = depth.add_buy_order(1, 4100, 2, 0).unwrap();

    let batch = vec![
        Event { ev: BUY_EVENT, exch_ts: 0, local_ts: 0, price_tick: 5001, qty: 1 },
        Event { ev: SELL_EVENT, exch_ts: 0, local_ts: 0, price_tick: 5010, qty: 2 },
        // later record at the same tick wins
        Event { ev: BUY_EVENT, exch_ts: 0, local_ts: 0, price_tick: 5001, qty: 6 },
        // a record with no side flag is ignored
        Event { ev: 0, exch_ts: 0, local_ts: 0, price_tick: 5002, qty: 5 },
    ];
    depth.apply_snapshot(&batch);

    assert_eq!(depth.bid_qty_at_tick(4000), 0);
    assert_eq!(depth.bid_qty_at_tick(4100), 0);
    assert_eq!(depth.bid_qty_at_tick(5001), 6);
    assert_eq!(depth.bid_qty_at_tick(5002), 0);
    assert_eq!(depth.ask_qty_at_tick(5010), 2);
    assert_eq!(depth.best_bid_tick(), 5001);
    assert_eq!(depth.best_ask_tick(), 5010);
    // the order index is a parallel concern and is left alone
    assert_eq!(depth.orders().len(), 1);
}

#[test]
fn apply_snapshot_zero_lot_record_erases_its_level() {
    let mut depth = BTreeMarketDepth::new();
    let batch = vec![
        Event { ev: BUY_EVENT, exch_ts: 0, local_ts: 0, price_tick: 5001, qty: 3 },
        Event { ev: BUY_EVENT, exch_ts: 0, local_ts: 0, price_tick: 5001, qty: 0 },
    ];
    depth.apply_snapshot(&batch);
    assert_eq!(depth.bid_qty_at_tick(5001), 0);
    assert_eq!(depth.best_bid_tick(), INVALID_MIN);
}
