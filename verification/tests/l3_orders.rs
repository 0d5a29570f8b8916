// The L3 order lifecycle, driven in the engine's own coordinates: prices as
// ticks of 0.1 and quantities as lots of 0.001, converted exactly as the
// engine's float-facing callers do.

use market_depth::{BTreeMarketDepth, Side, INVALID_MAX, INVALID_MIN};

const TICK_SIZE: f64 = 0.1;
const LOT_SIZE: f64 = 0.001;

fn tick(px: f64) -> i64 {
    (px / TICK_SIZE).round() as i64
}

fn lots(qty: f64) -> u64 {
    (qty / LOT_SIZE).round() as u64
}

#[test]
fn test_l3_add_delete_buy_order() {
    let mut depth = BTreeMarketDepth::new();

    let (prev_best, best) = depth.add_buy_order(1, tick(500.1), lots(0.001), 0).unwrap();
    assert_eq!(prev_best, INVALID_MIN);
    assert_eq!(best, 5001);
    assert_eq!(depth.best_bid_tick(), 5001);
    assert_eq!(depth.bid_qty_at_tick(5001), lots(0.001));

    assert!(depth.add_buy_order(1, tick(500.2), lots(0.001), 0).is_err());

    let (prev_best, best) = depth.add_buy_order(2, tick(500.3), lots(0.005), 0).unwrap();
    assert_eq!(prev_best, 5001);
    assert_eq!(best, 5003);
    assert_eq!(depth.best_bid_tick(), 5003);
    assert_eq!(depth.bid_qty_at_tick(5003), lots(0.005));

    let (prev_best, best) = depth.add_buy_order(3, tick(500.1), lots(0.005), 0).unwrap();
    assert_eq!(prev_best, 5003);
    assert_eq!(best, 5003);
    assert_eq!(depth.best_bid_tick(), 5003);
    assert_eq!(depth.bid_qty_at_tick(5001), lots(0.006));

    let (prev_best, best) = depth.add_buy_order(4, tick(500.5), lots(0.005), 0).unwrap();
    assert_eq!(prev_best, 5003);
    assert_eq!(best, 5005);
    assert_eq!(depth.best_bid_tick(), 5005);
    assert_eq!(depth.bid_qty_at_tick(5005), lots(0.005));

    assert!(depth.delete_order(10, 0).is_err());

    let (side, prev_best, best) = depth.delete_order(2, 0).unwrap();
    assert_eq!(side, Side::Buy);
    assert_eq!(prev_best, 5005);
    assert_eq!(best, 5005);
    assert_eq!(depth.best_bid_tick(), 5005);
    assert_eq!(depth.bid_qty_at_tick(5003), lots(0.0));

    let (side, prev_best, best) = depth.delete_order(4, 0).unwrap();
    assert_eq!(side, Side::Buy);
    assert_eq!(prev_best, 5005);
    assert_eq!(best, 5001);
    assert_eq!(depth.best_bid_tick(), 5001);
    assert_eq!(depth.bid_qty_at_tick(5005), lots(0.0));

    let (side, prev_best, best) = depth.delete_order(3, 0).unwrap();
    assert_eq!(side, Side::Buy);
    assert_eq!(prev_best, 5001);
    assert_eq!(best, 5001);
    assert_eq!(depth.best_bid_tick(), 5001);
    assert_eq!(depth.bid_qty_at_tick(5001), lots(0.001));

    let (side, prev_best, best) = depth.delete_order(1, 0).unwrap();
    assert_eq!(side, Side::Buy);
    assert_eq!(prev_best, 5001);
    assert_eq!(best, INVALID_MIN);
    assert_eq!(depth.best_bid_tick(), INVALID_MIN);
    assert_eq!(depth.bid_qty_at_tick(5001), lots(0.0));
}

#[test]
fn test_l3_add_delete_sell_order() {
    let mut depth = BTreeMarketDepth::new();

    let (prev_best, best) = depth.add_sell_order(1, tick(500.1), lots(0.001), 0).unwrap();
    assert_eq!(prev_best, INVALID_MAX);
    assert_eq!(best, 5001);
    assert_eq!(depth.best_ask_tick(), 5001);
    assert_eq!(depth.ask_qty_at_tick(5001), lots(0.001));

    assert!(depth.add_sell_order(1, tick(500.2), lots(0.001), 0).is_err());

    let (prev_best, best) = depth.add_sell_order(2, tick(499.3), lots(0.005), 0).unwrap();
    assert_eq!(prev_best, 5001);
    assert_eq!(best, 4993);
    assert_eq!(depth.best_ask_tick(), 4993);
    assert_eq!(depth.ask_qty_at_tick(4993), lots(0.005));

    let (prev_best, best) = depth.add_sell_order(3, tick(500.1), lots(0.005), 0).unwrap();
    assert_eq!(prev_best, 4993);
    assert_eq!(best, 4993);
    assert_eq!(depth.best_ask_tick(), 4993);
    assert_eq!(depth.ask_qty_at_tick(5001), lots(0.006));

    let (prev_best, best) = depth.add_sell_order(4, tick(498.5), lots(0.005), 0).unwrap();
    assert_eq!(prev_best, 4993);
    assert_eq!(best, 4985);
    assert_eq!(depth.best_ask_tick(), 4985);
    assert_eq!(depth.ask_qty_at_tick(4985), lots(0.005));

    assert!(depth.delete_order(10, 0).is_err());

    let (side, prev_best, best) = depth.delete_order(2, 0).unwrap();
    assert_eq!(side, Side::Sell);
    assert_eq!(prev_best, 4985);
    assert_eq!(best, 4985);
    assert_eq!(depth.best_ask_tick(), 4985);
    assert_eq!(depth.ask_qty_at_tick(4993), lots(0.0));

    let (side, prev_best, best) = depth.delete_order(4, 0).unwrap();
    assert_eq!(side, Side::Sell);
    assert_eq!(prev_best, 4985);
    assert_eq!(best, 5001);
    assert_eq!(depth.best_ask_tick(), 5001);
    assert_eq!(depth.ask_qty_at_tick(4985), lots(0.0));

    let (side, prev_best, best) = depth.delete_order(3, 0).unwrap();
    assert_eq!(side, Side::Sell);
    assert_eq!(prev_best, 5001);
    assert_eq!(best, 5001);
    assert_eq!(depth.best_ask_tick(), 5001);
    assert_eq!(depth.ask_qty_at_tick(5001), lots(0.001));

    let (side, prev_best, best) = depth.delete_order(1, 0).unwrap();
    assert_eq!(side, Side::Sell);
    assert_eq!(prev_best, 5001);
    assert_eq!(best, INVALID_MAX);
    assert_eq!(depth.best_ask_tick(), INVALID_MAX);
    assert_eq!(depth.ask_qty_at_tick(5001), lots(0.0));
}

#[test]
fn test_l3_modify_buy_order() {
    let mut depth = BTreeMarketDepth::new();

    let _ = depth.add_buy_order(1, tick(500.1), lots(0.001), 0).unwrap();
    let _ = depth.add_buy_order(2, tick(500.3), lots(0.005), 0).unwrap();
    let _ = depth.add_buy_order(3, tick(500.1), lots(0.005), 0).unwrap();
    let _ = depth.add_buy_order(4, tick(500.5), lots(0.005), 0).unwrap();

    assert!(depth.modify_order(10, tick(500.5), lots(0.001), 0).is_err());

    let (side, prev_best, best) = depth.modify_order(2, tick(500.5), lots(0.001), 0).unwrap();
    assert_eq!(side, Side::Buy);
    assert_eq!(prev_best, 5005);
    assert_eq!(best, 5005);
    assert_eq!(depth.best_bid_tick(), 5005);
    assert_eq!(depth.bid_qty_at_tick(5005), lots(0.006));

    let (side, prev_best, best) = depth.modify_order(2, tick(500.7), lots(0.002), 0).unwrap();
    assert_eq!(side, Side::Buy);
    assert_eq!(prev_best, 5005);
    assert_eq!(best, 5007);
    assert_eq!(depth.best_bid_tick(), 5007);
    assert_eq!(depth.bid_qty_at_tick(5005), lots(0.005));
    assert_eq!(depth.bid_qty_at_tick(5007), lots(0.002));

    let (side, prev_best, best) = depth.modify_order(2, tick(500.6), lots(0.002), 0).unwrap();
    assert_eq!(side, Side::Buy);
    assert_eq!(prev_best, 5007);
    assert_eq!(best, 5006);
    assert_eq!(depth.best_bid_tick(), 5006);
    assert_eq!(depth.bid_qty_at_tick(5007), lots(0.0));

    let _ = depth.delete_order(4, 0).unwrap();
    let (side, prev_best, best) = depth.modify_order(2, tick(500.0), lots(0.002), 0).unwrap();
    assert_eq!(side, Side::Buy);
    assert_eq!(prev_best, 5006);
    assert_eq!(best, 5001);
    assert_eq!(depth.best_bid_tick(), 5001);
    assert_eq!(depth.bid_qty_at_tick(5006), lots(0.0));
    assert_eq!(depth.bid_qty_at_tick(5000), lots(0.002));
}

#[test]
fn test_l3_modify_sell_order() {
    let mut depth = BTreeMarketDepth::new();

    let _ = depth.add_sell_order(1, tick(500.1), lots(0.001), 0).unwrap();
    let _ = depth.add_sell_order(2, tick(499.3), lots(0.005), 0).unwrap();
    let _ = depth.add_sell_order(3, tick(500.1), lots(0.005), 0).unwrap();
    let _ = depth.add_sell_order(4, tick(498.5), lots(0.005), 0).unwrap();

    assert!(depth.modify_order(10, tick(500.5), lots(0.001), 0).is_err());

    let (side, prev_best, best) = depth.modify_order(2, tick(498.5), lots(0.001), 0).unwrap();
    assert_eq!(side, Side::Sell);
    assert_eq!(prev_best, 4985);
    assert_eq!(best, 4985);
    assert_eq!(depth.best_ask_tick(), 4985);
    assert_eq!(depth.ask_qty_at_tick(4985), lots(0.006));

    let (side, prev_best, best) = depth.modify_order(2, tick(497.7), lots(0.002), 0).unwrap();
    assert_eq!(side, Side::Sell);
    assert_eq!(prev_best, 4985);
    assert_eq!(best, 4977);
    assert_eq!(depth.best_ask_tick(), 4977);
    assert_eq!(depth.ask_qty_at_tick(4985), lots(0.005));
    assert_eq!(depth.ask_qty_at_tick(4977), lots(0.002));

    let (side, prev_best, best) = depth.modify_order(2, tick(498.1), lots(0.002), 0).unwrap();
    assert_eq!(side, Side::Sell);
    assert_eq!(prev_best, 4977);
    assert_eq!(best, 4981);
    assert_eq!(depth.best_ask_tick(), 4981);
    assert_eq!(depth.ask_qty_at_tick(4977), lots(0.0));

    let _ = depth.delete_order(4, 0).unwrap();
    let (side, prev_best, best) = depth.modify_order(2, tick(500.2), lots(0.002), 0).unwrap();
    assert_eq!(side, Side::Sell);
    assert_eq!(prev_best, 4981);
    assert_eq!(best, 5001);
    assert_eq!(depth.best_ask_tick(), 5001);
    assert_eq!(depth.ask_qty_at_tick(4981), lots(0.0));
    assert_eq!(depth.ask_qty_at_tick(5002), lots(0.002));
}

#[test]
fn l3_errors_leave_state_unchanged() {
    let mut depth = BTreeMarketDepth::new();
    let _ = depth.add_buy_order(7, 5001, 3, 11).unwrap();

    let dup = depth.add_buy_order(7, 5002, 1, 12);
    assert!(matches!(dup, Err(market_depth::DepthError::OrderIdExist)));
    assert_eq!(depth.best_bid_tick(), 5001);
    assert_eq!(depth.bid_qty_at_tick(5001), 3);
    assert_eq!(depth.bid_qty_at_tick(5002), 0);
    assert_eq!(depth.orders().len(), 1);

    let gone = depth.delete_order(8, 13);
    assert!(matches!(gone, Err(market_depth::DepthError::OrderNotFound)));
    let gone = depth.modify_order(8, 5003, 1, 13);
    assert!(matches!(gone, Err(market_depth::DepthError::OrderNotFound)));
    assert_eq!(depth.best_bid_tick(), 5001);
    assert_eq!(depth.bid_qty_at_tick(5001), 3);
}

#[test]
fn l3_orders_index_reflects_adds_and_deletes() {
    let mut depth = BTreeMarketDepth::new();
    let _ = depth.add_buy_order(1, 5001, 2, 5).unwrap();
    let _ = depth.add_sell_order(2, 5010, 4, 6).unwrap();

    let orders = depth.orders();
    assert_eq!(orders.len(), 2);
    assert_eq!(orders[0].order_id, 1);
    assert_eq!(orders[0].side, Side::Buy);
    assert_eq!(orders[0].price_tick, 5001);
    assert_eq!(orders[0].qty, 2);
    assert_eq!(orders[0].timestamp, 5);
    assert_eq!(orders[1].order_id, 2);
    assert_eq!(orders[1].side, Side::Sell);

    let _ = depth.delete_order(1, 7).unwrap();
    assert_eq!(depth.orders().len(), 1);
    assert_eq!(depth.orders()[0].order_id, 2);
}
