// Book behaviour: price-time priority, self-match prevention, and the
// uncrossed-book rule, exercised end to end.

use perp_engine::processor::process_trade_create;
use perp_engine::reconcile::{apply_balance_snapshot, apply_holdings_snapshot};
use perp_engine::state::EngineState;
use perp_engine::types::{CreateTradeRequest, EngineEvent, OrderType, Side};

const ASSET: u64 = 3;

fn request(
    user: u64,
    side: Side,
    order_type: OrderType,
    qty: u64,
    margin: u64,
    limit_price: Option<u64>,
    timestamp: i64,
) -> CreateTradeRequest {
    CreateTradeRequest {
        user_id: user,
        correlation_id: None,
        asset: ASSET,
        side,
        margin,
        leverage: 1,
        quantity: qty,
        order_type,
        limit_price,
        stop_loss_percent: None,
        take_profit_percent: None,
        expiry_timestamp: None,
        timestamp,
    }
}

fn seed(state: &mut EngineState, user: u64, bal: i64) {
    apply_balance_snapshot(state, user, bal);
    apply_holdings_snapshot(state, user, ASSET, 0);
}

fn accepted(evs: &[EngineEvent]) -> bool {
    matches!(&evs[0], EngineEvent::Response(r) if r.accepted)
}

/// Two sells rest at the same price; a buy for exactly the first one's
/// size consumes the earlier one completely and leaves the later one
/// untouched: strict time priority within a level.
#[test]
fn fifo_among_equal_prices() {
    let mut state = EngineState::new();
    seed(&mut state, 1, 1_000);
    seed(&mut state, 2, 1_000);
    seed(&mut state, 3, 1_000);

    assert!(accepted(&process_trade_create(
        &mut state,
        request(1, Side::Sell, OrderType::Limit, 5, 50, Some(50), 100),
    )));
    assert!(accepted(&process_trade_create(
        &mut state,
        request(2, Side::Sell, OrderType::Limit, 5, 50, Some(50), 200),
    )));
    assert!(accepted(&process_trade_create(
        &mut state,
        request(3, Side::Buy, OrderType::Market, 5, 50, None, 300),
    )));

    // the earlier resting order (user 1) traded; user 2's still rests whole
    assert!(state.open_trades.iter().any(|t| t.user_id == 1 && t.quantity == 5));
    assert!(!state.open_trades.iter().any(|t| t.user_id == 2));
    let book = &state.order_books.iter().find(|(a, _)| *a == ASSET).unwrap().1;
    assert_eq!(book.sell.len(), 1);
    assert_eq!(book.sell[0].orders.len(), 1);
    assert_eq!(book.sell[0].orders[0].user_id, 2);
    assert_eq!(book.sell[0].orders[0].filled, 0);
}

/// A taker never trades with its own resting order: the matcher skips
/// it and the remainder of the market order retires.
#[test]
fn no_self_match() {
    let mut state = EngineState::new();
    seed(&mut state, 1, 1_000);

    assert!(accepted(&process_trade_create(
        &mut state,
        request(1, Side::Sell, OrderType::Limit, 5, 50, Some(50), 100),
    )));
    let before = state.open_trades.len();
    assert!(accepted(&process_trade_create(
        &mut state,
        request(1, Side::Buy, OrderType::Market, 5, 50, None, 200),
    )));

    // no fill happened: no position appeared and the sell still rests
    assert_eq!(state.open_trades.len(), before);
    let book = &state.order_books.iter().find(|(a, _)| *a == ASSET).unwrap().1;
    assert_eq!(book.sell[0].orders.len(), 1);
    assert_eq!(book.sell[0].orders[0].filled, 0);
}

/// A limit buy that crosses takes liquidity first; its remainder rests
/// on the buy side below the surviving ask, so the book stays
/// uncrossed at every depth.
#[test]
fn crossing_limit_buy_rests_uncrossed() {
    let mut state = EngineState::new();
    seed(&mut state, 1, 1_000);
    seed(&mut state, 2, 1_000);

    assert!(accepted(&process_trade_create(
        &mut state,
        request(1, Side::Sell, OrderType::Limit, 10, 100, Some(50), 100),
    )));
    // buys 10 at 50, rests the other 5 at its limit of 60
    assert!(accepted(&process_trade_create(
        &mut state,
        request(2, Side::Buy, OrderType::Limit, 15, 150, Some(60), 200),
    )));

    let book = &state.order_books.iter().find(|(a, _)| *a == ASSET).unwrap().1;
    assert!(book.sell.is_empty());
    assert_eq!(book.buy.len(), 1);
    assert_eq!(book.buy[0].price, 60);
    assert_eq!(book.buy[0].orders[0].quantity, 5);

    // the taker opened 10 at the executed price
    let taker_pos = state
        .open_trades
        .iter()
        .find(|t| t.user_id == 2)
        .expect("taker position");
    assert_eq!(taker_pos.quantity, 10);
    assert_eq!(taker_pos.entry_price, 50);

    // a later sell above the resting bid rests; the book is uncrossed
    seed(&mut state, 3, 1_000);
    assert!(accepted(&process_trade_create(
        &mut state,
        request(3, Side::Sell, OrderType::Limit, 5, 50, Some(70), 300),
    )));
    let book = &state.order_books.iter().find(|(a, _)| *a == ASSET).unwrap().1;
    assert!(book.buy[0].price < book.sell[0].price);
}

/// Conservation across a whole sequence: every user's balance plus
/// locked margin moves only by realised PnL, and the engine as a whole
/// squares to what was deposited.
#[test]
fn conservation_across_a_session() {
    let mut state = EngineState::new();
    seed(&mut state, 1, 1_000);
    seed(&mut state, 2, 1_000);

    process_trade_create(
        &mut state,
        request(1, Side::Sell, OrderType::Limit, 10, 100, Some(50), 100),
    );
    process_trade_create(
        &mut state,
        request(2, Side::Buy, OrderType::Market, 4, 100, None, 200),
    );

    let balances: i128 = state.balances.iter().map(|(_, b)| *b).sum();
    let locked: i128 = state.locked_margins.iter().map(|(_, (_, m))| *m as i128).sum();
    // no position has closed yet, so no PnL was realised: everything
    // deposited is either available or locked
    assert_eq!(balances + locked, 2_000);
}
