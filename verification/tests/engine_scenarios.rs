// Concrete end-to-end scenarios of the matching and netting kernel,
// with every money value an integer at scale one.

use perp_engine::liquidations::monitor_stop_loss_take_profit;
use perp_engine::processor::{handle_balance_snapshot, handle_holdings_snapshot, process_trade_create};
use perp_engine::reconcile::{apply_balance_snapshot, apply_holdings_snapshot, handle_price_update};
use perp_engine::state::EngineState;
use perp_engine::types::{
    CreateTradeRequest, EngineEvent, OrderType, OutcomeStatus, PriceUpdate, RejectReason, Side,
};

const U: u64 = 1;
const V: u64 = 2;
const ASSET: u64 = 10;

fn request(
    user: u64,
    side: Side,
    order_type: OrderType,
    qty: u64,
    margin: u64,
    leverage: u64,
    limit_price: Option<u64>,
) -> CreateTradeRequest {
    CreateTradeRequest {
        user_id: user,
        correlation_id: None,
        asset: ASSET,
        side,
        margin,
        leverage,
        quantity: qty,
        order_type,
        limit_price,
        stop_loss_percent: None,
        take_profit_percent: None,
        expiry_timestamp: None,
        timestamp: 1_000,
    }
}

fn balance(state: &EngineState, user: u64) -> i128 {
    state
        .balances
        .iter()
        .find(|(u, _)| *u == user)
        .map(|(_, b)| *b)
        .unwrap_or(0)
}

fn holdings(state: &EngineState, user: u64) -> i128 {
    state
        .holdings
        .iter()
        .find(|(k, _)| *k == (user, ASSET))
        .map(|(_, q)| *q)
        .unwrap_or(0)
}

fn position_of(state: &EngineState, user: u64) -> Option<&perp_engine::types::Trade> {
    state
        .open_trades
        .iter()
        .find(|t| t.user_id == user && t.asset == ASSET)
}

fn seed(state: &mut EngineState, user: u64, bal: i64) {
    apply_balance_snapshot(state, user, bal);
    apply_holdings_snapshot(state, user, ASSET, 0);
}

fn accepted(evs: &[EngineEvent]) -> bool {
    matches!(&evs[0], EngineEvent::Response(r) if r.accepted)
}

/// Open a long via a market buy against a resting sell.
#[test]
fn open_long_via_market_buy() {
    let mut state = EngineState::new();
    seed(&mut state, U, 1_000);
    seed(&mut state, V, 1_000);

    // V rests a limit sell of 10 at 50 with margin 100, leverage 5
    let evs = process_trade_create(
        &mut state,
        request(V, Side::Sell, OrderType::Limit, 10, 100, 5, Some(50)),
    );
    assert!(accepted(&evs));
    assert_eq!(balance(&state, V), 900);

    // U takes it with a market buy of 10, margin 100, leverage 5
    let evs = process_trade_create(
        &mut state,
        request(U, Side::Buy, OrderType::Market, 10, 100, 5, None),
    );
    assert!(accepted(&evs));

    assert_eq!(balance(&state, U), 900);
    assert_eq!(balance(&state, V), 900);
    assert_eq!(holdings(&state, U), 10);
    assert_eq!(holdings(&state, V), -10);

    let pu = position_of(&state, U).expect("U has a position");
    assert_eq!(pu.quantity, 10);
    assert_eq!(pu.entry_price, 50);
    assert_eq!(pu.margin, 100);
    assert!(matches!(pu.side, Side::Buy));

    let pv = position_of(&state, V).expect("V has a position");
    assert_eq!(pv.quantity, 10);
    assert_eq!(pv.entry_price, 50);
    assert_eq!(pv.margin, 100);
    assert!(matches!(pv.side, Side::Sell));
}

/// Close the long with profit after the mark price rises; then the
/// counterparty closes its short with the mirror loss.
#[test]
fn close_long_with_pnl() {
    let mut state = EngineState::new();
    seed(&mut state, U, 1_000);
    seed(&mut state, V, 1_000);
    process_trade_create(
        &mut state,
        request(V, Side::Sell, OrderType::Limit, 10, 100, 5, Some(50)),
    );
    process_trade_create(
        &mut state,
        request(U, Side::Buy, OrderType::Market, 10, 100, 5, None),
    );

    // the mark price ticks to 60
    assert!(handle_price_update(
        &mut state,
        &PriceUpdate { asset: ASSET, price: 60, timestamp: 2_000 },
    ));

    // U sells 10 market with no margin: the book is empty, so the
    // closing portion executes at the mark
    let evs = process_trade_create(
        &mut state,
        request(U, Side::Sell, OrderType::Market, 10, 0, 5, None),
    );
    assert!(accepted(&evs));
    // closing PnL = (60 - 50) * 10 * 5 = 500, plus the 100 margin back
    assert_eq!(balance(&state, U), 1_500);
    assert!(position_of(&state, U).is_none());
    assert_eq!(holdings(&state, U), 0);

    // V buys back 10 market: short closed at 60 with the mirror loss
    let evs = process_trade_create(
        &mut state,
        request(V, Side::Buy, OrderType::Market, 10, 0, 5, None),
    );
    assert!(accepted(&evs));
    assert_eq!(balance(&state, V), 500);
    assert!(position_of(&state, V).is_none());
    assert_eq!(holdings(&state, V), 0);
}

/// A market buy for part of a resting order leaves the rest on the
/// book with its margin pro-rated down.
#[test]
fn partial_fill_with_residual_on_book() {
    let mut state = EngineState::new();
    seed(&mut state, U, 1_000);
    seed(&mut state, V, 1_000);
    process_trade_create(
        &mut state,
        request(V, Side::Sell, OrderType::Limit, 10, 100, 5, Some(50)),
    );
    let evs = process_trade_create(
        &mut state,
        request(U, Side::Buy, OrderType::Market, 4, 100, 5, None),
    );
    assert!(accepted(&evs));

    // 4 of 10 matched at 50
    let pu = position_of(&state, U).expect("U has a position");
    assert_eq!(pu.quantity, 4);
    assert_eq!(pu.entry_price, 50);

    // V's position carries margin pro-rated by 4/10; the other 60
    // stay locked behind the resting remainder
    let pv = position_of(&state, V).expect("V has a position");
    assert_eq!(pv.quantity, 4);
    assert_eq!(pv.margin, 40);

    let book = &state
        .order_books
        .iter()
        .find(|(a, _)| *a == ASSET)
        .expect("book exists")
        .1;
    assert_eq!(book.sell.len(), 1);
    assert_eq!(book.sell[0].price, 50);
    assert_eq!(book.sell[0].orders.len(), 1);
    let resting = &book.sell[0].orders[0];
    assert_eq!(resting.quantity, 10);
    assert_eq!(resting.filled, 4);
    assert!(matches!(
        resting.status,
        perp_engine::types::OrderStatus::PartiallyFilled
    ));
    // the book record's margin is pro-rated down by 4/10
    assert_eq!(resting.margin, 60);

    // the locked-margin ledger still holds V's full hundred:
    // 40 behind the open position, 60 behind the resting remainder
    assert_eq!(state.get_locked_margin_or(resting.id, 0), 100);
}

/// A request whose margin exceeds the balance is rejected and the
/// state is untouched.
#[test]
fn insufficient_balance_rejection() {
    let mut state = EngineState::new();
    seed(&mut state, U, 30);
    let mut req = request(U, Side::Buy, OrderType::Market, 10, 100, 5, None);
    req.correlation_id = Some(7);
    let evs = process_trade_create(&mut state, req);
    assert_eq!(evs.len(), 1);
    match &evs[0] {
        EngineEvent::Response(r) => {
            assert!(!r.accepted);
            assert!(matches!(r.reason, Some(RejectReason::InsufficientBalance)));
            assert!(r.order_id.is_none());
            assert_eq!(r.correlation_id, Some(7));
        }
        _ => panic!("expected a response"),
    }
    assert_eq!(balance(&state, U), 30);
    assert!(state.open_trades.is_empty());
    assert!(state.locked_margins.is_empty());
}

/// A request from a user with no balance on file is parked, a balance
/// snapshot is requested, and the snapshot replays it to acceptance.
#[test]
fn parked_request_completes_after_snapshot() {
    let mut state = EngineState::new();
    let evs = process_trade_create(
        &mut state,
        request(U, Side::Buy, OrderType::Market, 10, 100, 5, None),
    );
    assert_eq!(evs.len(), 1);
    assert!(matches!(&evs[0], EngineEvent::BalanceRequest { user_id } if *user_id == U));
    assert_eq!(state.pending_trades.len(), 1);

    // the balance arrives: the parked request replays, now parking on
    // holdings, which arrive next and complete it
    let evs = handle_balance_snapshot(&mut state, U, 1_000);
    assert!(matches!(
        &evs[0],
        EngineEvent::HoldingsRequest { user_id, asset } if *user_id == U && *asset == ASSET
    ));
    let evs = handle_holdings_snapshot(&mut state, U, ASSET, 0);
    assert!(accepted(&evs));
    // the book was empty, so the market order retired unexecuted and
    // its reservation flowed back: nothing stays locked
    assert_eq!(balance(&state, U), 1_000);
    assert!(state.locked_margins.is_empty());
}

/// A replayed request with the same correlation id mints no second
/// order: the duplicate is dropped without a response and the state
/// is untouched.
#[test]
fn duplicate_correlation_id_admits_once() {
    let mut state = EngineState::new();
    seed(&mut state, U, 1_000);
    let mut req = request(U, Side::Buy, OrderType::Limit, 5, 50, 2, Some(40));
    req.correlation_id = Some(99);

    let evs = process_trade_create(&mut state, req);
    assert!(accepted(&evs));
    assert_eq!(balance(&state, U), 950);
    let orders_after_first = state.next_order_id;

    // identical request again: no events, nothing moves
    let evs = process_trade_create(&mut state, req);
    assert!(evs.is_empty());
    assert_eq!(balance(&state, U), 950);
    assert_eq!(state.next_order_id, orders_after_first);
    let book = &state.order_books.iter().find(|(a, _)| *a == ASSET).unwrap().1;
    assert_eq!(book.buy[0].orders.len(), 1);

    // a rejection does not burn the correlation id: a later retry
    // with more margin than balance is still answered
    let mut poor = request(U, Side::Buy, OrderType::Limit, 5, 2_000, 2, Some(40));
    poor.correlation_id = Some(100);
    let evs = process_trade_create(&mut state, poor);
    assert_eq!(evs.len(), 1);
    assert!(!accepted(&evs));
    let evs = process_trade_create(&mut state, poor);
    assert_eq!(evs.len(), 1);
    assert!(!accepted(&evs));
}

/// A long with a take-profit closes on the risk pass once the mark
/// reaches the configured gain.
#[test]
fn take_profit_closes_position() {
    let mut state = EngineState::new();
    seed(&mut state, U, 1_100);
    seed(&mut state, V, 1_000);
    process_trade_create(
        &mut state,
        request(V, Side::Sell, OrderType::Limit, 10, 100, 5, Some(100)),
    );
    let mut buy = request(U, Side::Buy, OrderType::Market, 10, 100, 5, None);
    buy.take_profit_percent = Some(5);
    process_trade_create(&mut state, buy);
    assert_eq!(balance(&state, U), 1_000);

    // 104 is below the 5% threshold of 105: nothing closes
    handle_price_update(&mut state, &PriceUpdate { asset: ASSET, price: 104, timestamp: 2_000 });
    let evs = monitor_stop_loss_take_profit(&mut state);
    assert!(evs.iter().all(|ev| !matches!(ev, EngineEvent::Outcome(o) if o.user_id == U)));
    assert!(position_of(&state, U).is_some());

    // at 105 the take-profit fires: PnL (105-100)*10*5 = 250 plus the
    // 100 margin back
    handle_price_update(&mut state, &PriceUpdate { asset: ASSET, price: 105, timestamp: 3_000 });
    let evs = monitor_stop_loss_take_profit(&mut state);
    let closed = evs.iter().find_map(|ev| match ev {
        EngineEvent::Outcome(o) if o.user_id == U => Some(o),
        _ => None,
    });
    let closed = closed.expect("U's outcome");
    assert!(matches!(closed.status, OutcomeStatus::Closed));
    assert_eq!(closed.pnl, 250);
    assert!(position_of(&state, U).is_none());
    assert_eq!(balance(&state, U), 1_350);
}

/// Quantity bounds: the largest admissible quantity is accepted, one
/// more is malformed.
#[test]
fn quantity_bounds() {
    let mut state = EngineState::new();
    seed(&mut state, U, 1_000);
    let max_qty = 1_000_000_000_000u64;

    let mut big = request(U, Side::Buy, OrderType::Limit, max_qty, 100, 1, Some(50));
    let evs = process_trade_create(&mut state, big);
    assert!(accepted(&evs));

    big = request(U, Side::Buy, OrderType::Limit, max_qty + 1, 100, 1, Some(50));
    let evs = process_trade_create(&mut state, big);
    match &evs[0] {
        EngineEvent::Response(r) => {
            assert!(!r.accepted);
            assert!(matches!(r.reason, Some(RejectReason::MalformedRequest)));
        }
        _ => panic!("expected a response"),
    }
}

/// A position whose equity falls below its maintenance margin is
/// liquidated on the next risk pass.
#[test]
fn liquidation_below_maintenance_margin() {
    let mut state = EngineState::new();
    seed(&mut state, U, 1_100);
    seed(&mut state, V, 1_000);
    // build the position: U long 10 at 100 with margin 100, leverage 5
    process_trade_create(
        &mut state,
        request(V, Side::Sell, OrderType::Limit, 10, 100, 5, Some(100)),
    );
    process_trade_create(
        &mut state,
        request(U, Side::Buy, OrderType::Market, 10, 100, 5, None),
    );
    assert_eq!(balance(&state, U), 1_000);

    // price drops to 98: unrealised PnL = (98-100)*10*5 = -100;
    // equity 0 falls below the 2% maintenance margin
    assert!(handle_price_update(
        &mut state,
        &PriceUpdate { asset: ASSET, price: 98, timestamp: 2_000 },
    ));
    let evs = monitor_stop_loss_take_profit(&mut state);

    let mut liquidated_u = false;
    for ev in &evs {
        if let EngineEvent::Outcome(o) = ev {
            if o.user_id == U {
                assert!(matches!(o.status, OutcomeStatus::Liquidated));
                assert_eq!(o.pnl, -100);
                assert_eq!(o.quantity, 10);
                liquidated_u = true;
            }
        }
    }
    assert!(liquidated_u);
    assert!(position_of(&state, U).is_none());
    // balance 1000 + (-100) + 100 returned margin = 1000
    assert_eq!(balance(&state, U), 1_000);
}
