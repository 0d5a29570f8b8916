// The L2 replace-semantics updaters, the range clears, and the accessors.

use market_depth::{BTreeMarketDepth, Side, INVALID_MAX, INVALID_MIN};

#[test]
fn l2_update_bid_replaces_and_reports() {
    let mut depth = BTreeMarketDepth::new();

    let r = depth.update_bid_depth(5001, 3, 100);
    assert_eq!(r, (5001, INVALID_MIN, 5001, 0, 3, 100));
    assert_eq!(depth.bid_qty_at_tick(5001), 3);

    let r = depth.update_bid_depth(5003, 7, 101);
    assert_eq!(r, (5003, 5001, 5003, 3, 7, 101));

    // replace, not additive
    let r = depth.update_bid_depth(5003, 2, 102);
    assert_eq!(r, (5003, 5003, 5003, 7, 2, 102));
    assert_eq!(depth.bid_qty_at_tick(5003), 2);

    // zero lots erase the level; the best falls back
    let r = depth.update_bid_depth(5003, 0, 103);
    assert_eq!(r, (5003, 5003, 5001, 2, 0, 103));
    assert_eq!(depth.bid_qty_at_tick(5003), 0);
    assert_eq!(depth.best_bid_tick(), 5001);
}

#[test]
fn l2_update_ask_reads_previous_best_from_asks() {
    let mut depth = BTreeMarketDepth::new();

    let r = depth.update_ask_depth(5010, 4, 200);
    assert_eq!(r, (5010, INVALID_MAX, 5010, 0, 4, 200));

    let r = depth.update_ask_depth(5008, 6, 201);
    assert_eq!(r, (5008, 5010, 5008, 4, 6, 201));
    assert_eq!(depth.best_ask_tick(), 5008);

    let r = depth.update_ask_depth(5008, 0, 202);
    assert_eq!(r, (5008, 5008, 5010, 6, 0, 202));
    assert_eq!(depth.ask_qty_at_tick(5008), 0);
}

#[test]
fn l2_zero_update_of_absent_tick_is_a_noop() {
    let mut depth = BTreeMarketDepth::new();
    let _ = depth.update_bid_depth(5001, 3, 300);
    let _ = depth.update_ask_depth(5010, 4, 300);

    let r = depth.update_bid_depth(4990, 0, 301);
    assert_eq!(r, (4990, 5001, 5001, 3, 0, 301));
    assert_eq!(depth.best_bid_tick(), 5001);
    assert_eq!(depth.bid_qty_at_tick(5001), 3);
    assert_eq!(depth.bid_qty_at_tick(4990), 0);

    let r = depth.update_ask_depth(5020, 0, 302);
    assert_eq!(r, (5020, 5010, 5010, 4, 0, 302));
    assert_eq!(depth.best_ask_tick(), 5010);
    assert_eq!(depth.ask_qty_at_tick(5010), 4);
}

#[test]
fn l2_clear_depth_removes_range_up_to_best() {
    let mut depth = BTreeMarketDepth::new();
    let _ = depth.update_bid_depth(5001, 1, 0);
    let _ = depth.update_bid_depth(5003, 2, 0);
    let _ = depth.update_bid_depth(5005, 3, 0);
    let _ = depth.update_ask_depth(5010, 4, 0);

    depth.clear_depth(Side::Buy, 5003);
    assert_eq!(depth.best_bid_tick(), 5001);
    assert_eq!(depth.bid_qty_at_tick(5001), 1);
    assert_eq!(depth.bid_qty_at_tick(5003), 0);
    assert_eq!(depth.bid_qty_at_tick(5005), 0);
    // the ask side is untouched
    assert_eq!(depth.best_ask_tick(), 5010);

    let mut depth = BTreeMarketDepth::new();
    let _ = depth.update_ask_depth(5010, 4, 0);
    let _ = depth.update_ask_depth(5012, 5, 0);
    let _ = depth.update_ask_depth(5014, 6, 0);

    depth.clear_depth(Side::Sell, 5012);
    assert_eq!(depth.best_ask_tick(), 5014);
    assert_eq!(depth.ask_qty_at_tick(5010), 0);
    assert_eq!(depth.ask_qty_at_tick(5012), 0);
    assert_eq!(depth.ask_qty_at_tick(5014), 6);
}

#[test]
fn l2_clear_depth_neither_empties_both_sides() {
    let mut depth = BTreeMarketDepth::new();
    let _ = depth.update_bid_depth(5001, 1, 0);
    let _ = depth.update_ask_depth(5010, 4, 0);

    depth.clear_depth(Side::Neither, 0);
    assert_eq!(depth.best_bid_tick(), INVALID_MIN);
    assert_eq!(depth.best_ask_tick(), INVALID_MAX);
    assert_eq!(depth.bid_qty_at_tick(5001), 0);
    assert_eq!(depth.ask_qty_at_tick(5010), 0);
}

#[test]
fn l2_clear_depth_on_empty_side_is_a_noop() {
    let mut depth = BTreeMarketDepth::new();
    let _ = depth.update_ask_depth(5010, 4, 0);
    depth.clear_depth(Side::Buy, 5000);
    assert_eq!(depth.best_bid_tick(), INVALID_MIN);
    assert_eq!(depth.best_ask_tick(), 5010);
}

#[test]
fn reset_depth_wipes_levels_but_keeps_orders() {
    let mut depth = BTreeMarketDepth::new();
    let _ = depth.add_buy_order(1, 5001, 2, 0).unwrap();
    let _ = depth.add_sell_order(2, 5010, 3, 0).unwrap();

    depth.reset_depth(Side::Buy);
    assert_eq!(depth.best_bid_tick(), INVALID_MIN);
    assert_eq!(depth.bid_qty_at_tick(5001), 0);
    assert_eq!(depth.best_ask_tick(), 5010);
    assert_eq!(depth.orders().len(), 2);

    depth.reset_depth(Side::Neither);
    assert_eq!(depth.best_ask_tick(), INVALID_MAX);
    assert_eq!(depth.ask_qty_at_tick(5010), 0);
    assert_eq!(depth.orders().len(), 2);
}

#[test]
fn new_engine_is_empty_with_sentinel_bests() {
    let depth = BTreeMarketDepth::new();
    assert_eq!(depth.best_bid_tick(), INVALID_MIN);
    assert_eq!(depth.best_ask_tick(), INVALID_MAX);
    assert_eq!(depth.bid_qty_at_tick(0), 0);
    assert_eq!(depth.ask_qty_at_tick(0), 0);
    assert_eq!(depth.orders().len(), 0);
}

#[test]
fn crossed_book_is_surfaced_as_is() {
    let mut depth = BTreeMarketDepth::new();
    let _ = depth.update_bid_depth(5015, 2, 0);
    let _ = depth.update_ask_depth(5010, 3, 0);
    assert_eq!(depth.best_bid_tick(), 5015);
    assert_eq!(depth.best_ask_tick(), 5010);
}
