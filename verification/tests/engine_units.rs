// Unit-level checks of the formulas and small operations.

use perp_engine::book::{best_price, OrderBook};
use perp_engine::pnl::{
    calculate_pnl, check_liquidation, maintenance_margin_percent, stop_loss_triggered,
    take_profit_triggered,
};
use perp_engine::processor::process_trade_create;
use perp_engine::reconcile::{apply_balance_snapshot, apply_holdings_snapshot, handle_price_update};
use perp_engine::state::EngineState;
use perp_engine::types::{
    opposite, order_to_trade, trade_to_order, CreateTradeRequest, EngineEvent, Order, OrderStatus,
    OrderType, PriceUpdate, RejectReason, Side,
};

#[test]
fn pnl_formula_exact() {
    // (close - entry) * qty * leverage for longs
    assert_eq!(calculate_pnl(Side::Buy, 50, 60, 10, 5), 500);
    assert_eq!(calculate_pnl(Side::Buy, 60, 50, 10, 5), -500);
    // (entry - close) * qty * leverage for shorts
    assert_eq!(calculate_pnl(Side::Sell, 50, 60, 10, 5), -500);
    assert_eq!(calculate_pnl(Side::Sell, 60, 50, 10, 5), 500);
    assert_eq!(calculate_pnl(Side::Buy, 100, 100, 1_000, 1), 0);
}

#[test]
fn maintenance_margin_tiers() {
    assert_eq!(maintenance_margin_percent(0), 1);
    assert_eq!(maintenance_margin_percent(99), 1);
    assert_eq!(maintenance_margin_percent(100), 2);
    assert_eq!(maintenance_margin_percent(999), 2);
    assert_eq!(maintenance_margin_percent(1_000), 3);
    assert_eq!(maintenance_margin_percent(9_999), 3);
    assert_eq!(maintenance_margin_percent(10_000), 4);
    assert_eq!(maintenance_margin_percent(99_999), 4);
    assert_eq!(maintenance_margin_percent(100_000), 5);
}

#[test]
fn liquidation_threshold_exact() {
    // margin 100, 2%: equity must stay at or above 2
    assert!(check_liquidation(Side::Buy, 100, 98, 10, 5, 100, 2));
    assert!(!check_liquidation(Side::Buy, 100, 99, 10, 5, 100, 2));
    // a profitable short is never liquidated
    assert!(!check_liquidation(Side::Sell, 100, 98, 10, 5, 100, 2));
}

#[test]
fn stop_loss_take_profit_triggers() {
    // long, tp 10%: trigger at or above 110
    assert!(take_profit_triggered(Side::Buy, 100, 110, 10));
    assert!(!take_profit_triggered(Side::Buy, 100, 109, 10));
    // short, tp 10%: trigger at or below 90
    assert!(take_profit_triggered(Side::Sell, 100, 90, 10));
    assert!(!take_profit_triggered(Side::Sell, 100, 91, 10));
    // long, sl 10%: trigger at or below 90
    assert!(stop_loss_triggered(Side::Buy, 100, 90, 10));
    assert!(!stop_loss_triggered(Side::Buy, 100, 91, 10));
    // short, sl 10%: trigger at or above 110
    assert!(stop_loss_triggered(Side::Sell, 100, 110, 10));
    assert!(!stop_loss_triggered(Side::Sell, 100, 109, 10));
}

#[test]
fn price_updates_reject_nonpositive() {
    let mut state = EngineState::new();
    assert!(!handle_price_update(
        &mut state,
        &PriceUpdate { asset: 1, price: 0, timestamp: 1 },
    ));
    assert!(state.prices.is_empty());
    assert!(handle_price_update(
        &mut state,
        &PriceUpdate { asset: 1, price: 42, timestamp: 2 },
    ));
    assert_eq!(state.get_price(1), Some(42));
    // a later tick replaces the stored price
    assert!(handle_price_update(
        &mut state,
        &PriceUpdate { asset: 1, price: 43, timestamp: 3 },
    ));
    assert_eq!(state.get_price(1), Some(43));
    assert_eq!(state.prices.len(), 1);
}

#[test]
fn balance_snapshot_is_idempotent() {
    let mut s1 = EngineState::new();
    apply_balance_snapshot(&mut s1, 9, 777);
    let once = s1.balances.clone();
    apply_balance_snapshot(&mut s1, 9, 777);
    assert_eq!(s1.balances, once);
    assert_eq!(s1.get_balance(9), Some(777));

    apply_holdings_snapshot(&mut s1, 9, 3, -5);
    let once = s1.holdings.clone();
    apply_holdings_snapshot(&mut s1, 9, 3, -5);
    assert_eq!(s1.holdings, once);
}

#[test]
fn empty_book_and_best_price() {
    let book = OrderBook::new();
    assert!(best_price(&book.buy).is_none());
    assert!(best_price(&book.sell).is_none());
}

#[test]
fn converters_carry_fields() {
    let order = Order {
        id: 4,
        uuid: String::from("abc"),
        user_id: 1,
        asset: 2,
        side: Side::Sell,
        order_type: OrderType::Limit,
        price: 55,
        quantity: 12,
        filled: 3,
        status: OrderStatus::PartiallyFilled,
        margin: 70,
        leverage: 9,
        stop_loss_percent: Some(5),
        take_profit_percent: None,
        created_at: 123,
        expiry: None,
    };
    let t = order_to_trade(&order);
    assert_eq!(t.id, 4);
    assert_eq!(t.entry_price, 55);
    assert_eq!(t.quantity, 12);
    assert_eq!(t.margin, 70);
    let back = trade_to_order(&t);
    assert_eq!(back.id, 4);
    assert_eq!(back.price, 55);
    assert_eq!(back.filled, 0);
    assert!(matches!(back.order_type, OrderType::Market));
    assert!(matches!(opposite(Side::Buy), Side::Sell));
    assert!(matches!(opposite(Side::Sell), Side::Buy));
}

fn plain_request(user: u64, qty: u64, margin: u64) -> CreateTradeRequest {
    CreateTradeRequest {
        user_id: user,
        correlation_id: None,
        asset: 1,
        side: Side::Buy,
        margin,
        leverage: 2,
        quantity: qty,
        order_type: OrderType::Limit,
        limit_price: Some(10),
        stop_loss_percent: None,
        take_profit_percent: None,
        expiry_timestamp: None,
        timestamp: 0,
    }
}

#[test]
fn malformed_request_rejected() {
    let mut state = EngineState::new();
    apply_balance_snapshot(&mut state, 1, 1_000);
    apply_holdings_snapshot(&mut state, 1, 1, 0);
    // zero quantity is out of range
    let evs = process_trade_create(&mut state, plain_request(1, 0, 10));
    assert_eq!(evs.len(), 1);
    match &evs[0] {
        EngineEvent::Response(r) => {
            assert!(!r.accepted);
            assert!(matches!(r.reason, Some(RejectReason::MalformedRequest)));
        }
        _ => panic!("expected a response"),
    }
    // zero leverage as well
    let mut bad = plain_request(1, 5, 10);
    bad.leverage = 0;
    let evs = process_trade_create(&mut state, bad);
    match &evs[0] {
        EngineEvent::Response(r) => assert!(!r.accepted),
        _ => panic!("expected a response"),
    }
    // a limit order without a limit price as well
    let mut bad = plain_request(1, 5, 10);
    bad.limit_price = None;
    let evs = process_trade_create(&mut state, bad);
    match &evs[0] {
        EngineEvent::Response(r) => assert!(!r.accepted),
        _ => panic!("expected a response"),
    }
}

#[test]
fn limit_order_rests_and_mints_uuid() {
    let mut state = EngineState::new();
    apply_balance_snapshot(&mut state, 1, 1_000);
    apply_holdings_snapshot(&mut state, 1, 1, 0);
    let evs = process_trade_create(&mut state, plain_request(1, 5, 10));
    match &evs[0] {
        EngineEvent::Response(r) => {
            assert!(r.accepted);
            assert_eq!(r.order_id, Some(0));
            let uuid = r.order_uuid.as_ref().expect("uuid minted");
            assert_eq!(uuid.len(), 36);
        }
        _ => panic!("expected a response"),
    }
    let book = &state.order_books.iter().find(|(a, _)| *a == 1).unwrap().1;
    assert_eq!(book.buy.len(), 1);
    assert_eq!(book.buy[0].price, 10);
    assert_eq!(book.buy[0].orders[0].quantity, 5);
    // the reservation for the resting order stays locked
    assert_eq!(state.get_locked_margin_or(0, 0), 10);
    assert_eq!(state.get_balance(1), Some(990));
}
