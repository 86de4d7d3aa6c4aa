use vstd::prelude::*;

use crate::alist::{
    alist_del, alist_lookup, alist_remove, alist_update, lemma_alist_absent,
    lemma_alist_entries_remove, lemma_alist_entries_update, lemma_alist_lookup_entry,
    lemma_alist_remove, lemma_alist_update,
};
use crate::book::{
    book_ids_below, book_uncrossed, book_wf, ladder_ids_below, ladder_insert, ladder_insert_exec,
    ladder_sorted, ladder_view, ladder_wf, lemma_ladder_insert_ids, lemma_ladder_insert_wf, OrderBook,
};
use crate::execution::{
    apply_execution, apply_netting, close_against_positions, mul_div, refund_excess_margin,
};
use crate::hlist::hlist_lookup;
use crate::matching::{
    fill_ok, fills_qty, fills_vwap, lemma_match_ladder_ids, lemma_match_ladder_props,
    match_ladder_spec, match_market_order, price_in,
};
use crate::state::{
    bal_of, lemma_keys_below_update, lemma_locked_sum_update, locked_sum, map_val, opp_total,
    state_inv, EngineState,
};
use crate::types::{
    opposite, opposite_of, valid_order, valid_request, CreateTradeRequest, EngineEvent, Order,
    OrderStatus, OrderType, RejectReason, Side, TradeResponse, MAX_PRICE,
};

verus! {

/// Relies on uuid::Uuid::new_v4 and uuid's Display form: a fresh v4
/// UUID renders as the canonical 36-character hyphenated ASCII string.
#[verifier::external_body]
fn mint_order_uuid() -> (r: String)
    ensures
        r@.len() == 36,
{
    uuid::Uuid::new_v4().to_string()
}

/// The buy ladder of the book an asset currently has, empty when the
/// asset has no book yet.
pub open spec fn book_buy_view(books: Seq<(u64, OrderBook)>, asset: u64) -> Seq<
    crate::book::LevelView,
> {
    match alist_lookup(books, asset) {
        Some(b) => ladder_view(b.buy@),
        None => Seq::empty(),
    }
}

/// The sell ladder, likewise.
pub open spec fn book_sell_view(books: Seq<(u64, OrderBook)>, asset: u64) -> Seq<
    crate::book::LevelView,
> {
    match alist_lookup(books, asset) {
        Some(b) => ladder_view(b.sell@),
        None => Seq::empty(),
    }
}

/// A request whose correlation id some accepted request already used:
/// the engine admits it at most once.
pub open spec fn duplicate_request(s: EngineState, req: CreateTradeRequest) -> bool {
    match req.correlation_id {
        Some(c) => crate::alist::alist_has(s.correlation_ids@, c),
        None => false,
    }
}

/// Margin a request must lock: the share of its requested margin that
/// belongs to the quantity opening net-new exposure, after existing
/// opposite positions absorb the rest.
pub open spec fn required_margin_spec(s: EngineState, req: CreateTradeRequest) -> int {
    let opp = opp_total(s.open_trades@, req.user_id, req.asset, opposite_of(req.side));
    let closing = if req.quantity as int <= opp {
        req.quantity as int
    } else {
        opp
    };
    req.margin as int * (req.quantity - closing) / req.quantity as int
}

/// Park a request until its reference data arrives; per-user queues
/// keep arrival order.
fn park_request(state: &mut EngineState, req: CreateTradeRequest)
    requires
        state_inv(*old(state)),
    ensures
        state_inv(*final(state)),
        final(state).balances@ == old(state).balances@,
        final(state).open_trades@ == old(state).open_trades@,
        final(state).order_books@ == old(state).order_books@,
        final(state).prices@ == old(state).prices@,
        final(state).holdings@ == old(state).holdings@,
        final(state).locked_margins@ == old(state).locked_margins@,
        final(state).correlation_ids@ == old(state).correlation_ids@,
        final(state).next_order_id == old(state).next_order_id,
        final(state).deposits@ == old(state).deposits@,
        final(state).realized@ == old(state).realized@,
        final(state).hold_base@ == old(state).hold_base@,
        (match alist_lookup(final(state).pending_trades@, req.user_id) {
            Some(q) => q@ == (match alist_lookup(old(state).pending_trades@, req.user_id) {
                Some(q0) => q0@,
                None => Seq::<CreateTradeRequest>::empty(),
            }).push(req),
            None => false,
        }),
        forall|u2: u64| u2 != req.user_id ==> alist_lookup(final(state).pending_trades@, u2)
            == alist_lookup(old(state).pending_trades@, u2),
{
    let ghost pre = *state;
    let drained = alist_del(&mut state.pending_trades, req.user_id);
    let mut queue: Vec<CreateTradeRequest> = match drained {
        Some(q) => q,
        None => Vec::new(),
    };
    queue.push(req);
    let ghost gq = queue;
    crate::alist::alist_set(&mut state.pending_trades, req.user_id, queue);
    proof {
        lemma_alist_remove(pre.pending_trades@, req.user_id);
        lemma_alist_update(alist_remove(pre.pending_trades@, req.user_id), req.user_id, gq);
    }
}

/// One rejected response, echoing the request's correlation id.
fn reject_response(req: &CreateTradeRequest, reason: RejectReason) -> (r: TradeResponse)
    ensures
        r.correlation_id == req.correlation_id,
        r.user_id == req.user_id,
        !r.accepted,
        r.reason == Some(reason),
        r.order_id is None,
{
    TradeResponse {
        correlation_id: req.correlation_id,
        order_id: None,
        order_uuid: None,
        user_id: req.user_id,
        accepted: false,
        reason: Some(reason),
    }
}

/// The admission decision for a request whose reference data is on
/// hand: reject it when the balance cannot cover the margin owed for
/// its net-new exposure, otherwise debit that margin, lock it under
/// the freshly minted order id, and hand back the accepted response
/// with the order to execute. Acceptance is atomic with the debit:
/// both happen here or neither does.
pub fn admit_trade(state: &mut EngineState, req: CreateTradeRequest) -> (r: (
    TradeResponse,
    Option<Order>,
))
    requires
        state_inv(*old(state)),
        valid_request(req),
        old(state).next_order_id != u64::MAX,
        alist_lookup(old(state).balances@, req.user_id) is Some,
        hlist_lookup(old(state).holdings@, (req.user_id, req.asset)) is Some,
    ensures
        state_inv(*final(state)),
        // unaffordable: rejected, nothing touched
        (match alist_lookup(old(state).balances@, req.user_id) {
            Some(b) => b < required_margin_spec(*old(state), req),
            None => false,
        }) ==> (*final(state) == *old(state) && r.1 is None && !r.0.accepted && r.0.reason
            == Some(RejectReason::InsufficientBalance) && r.0.correlation_id
            == req.correlation_id && r.0.user_id == req.user_id && r.0.order_id is None),
        // affordable: accepted atomically with the margin debit
        (match alist_lookup(old(state).balances@, req.user_id) {
            Some(b) => b >= required_margin_spec(*old(state), req),
            None => false,
        }) ==> ({
            let required = required_margin_spec(*old(state), req);
            let oid = old(state).next_order_id;
            &&& bal_of(final(state).balances@, req.user_id) == bal_of(
                old(state).balances@,
                req.user_id,
            ) - required
            &&& (forall|u2: u64|
                u2 != req.user_id ==> bal_of(final(state).balances@, u2) == bal_of(
                    old(state).balances@,
                    u2,
                ))
            &&& (required > 0 ==> final(state).locked_margins@ == alist_update(
                old(state).locked_margins@,
                oid,
                (req.user_id, required as u64),
            ))
            &&& (required == 0 ==> final(state).locked_margins@ == old(state).locked_margins@)
            &&& final(state).next_order_id == oid + 1
            &&& final(state).correlation_ids@ == (match req.correlation_id {
                Some(c) => alist_update(old(state).correlation_ids@, c, oid),
                None => old(state).correlation_ids@,
            })
            &&& final(state).open_trades@ == old(state).open_trades@
            &&& final(state).order_books@ == old(state).order_books@
            &&& final(state).holdings@ == old(state).holdings@
            &&& final(state).pending_trades@ == old(state).pending_trades@
            &&& final(state).prices@ == old(state).prices@
            &&& final(state).deposits@ == old(state).deposits@
            &&& final(state).realized@ == old(state).realized@
            &&& final(state).hold_base@ == old(state).hold_base@
            &&& r.0.accepted && r.0.order_id == Some(oid) && r.0.correlation_id
                == req.correlation_id && r.0.user_id == req.user_id && r.0.reason is None
            &&& (match r.1 {
                Some(o) => o.id == oid && o.user_id == req.user_id && o.asset == req.asset
                    && o.side == req.side && o.order_type == req.order_type && o.quantity
                    == req.quantity && o.filled == 0 && o.margin == req.margin && o.leverage
                    == req.leverage && o.stop_loss_percent == req.stop_loss_percent
                    && o.take_profit_percent == req.take_profit_percent && o.created_at
                    == req.timestamp && o.expiry == req.expiry_timestamp && o.status
                    == OrderStatus::Open && valid_order(o) && (req.order_type
                    == OrderType::Limit ==> Some(o.price) == req.limit_price) && (req.order_type
                    == OrderType::Market ==> o.price == 1),
                None => false,
            })
        }),
{
    let user = req.user_id;
    let bal = match state.get_balance(user) {
        Some(b) => b,
        None => 0,
    };
    let closing = state.closable_qty(user, req.asset, opposite(req.side), req.quantity);
    let opening = req.quantity - closing;
    let required = mul_div(req.margin, opening, req.quantity);
    proof {
        assert(required as int == required_margin_spec(*state, req));
    }
    if bal < required as i128 {
        return (reject_response(&req, RejectReason::InsufficientBalance), None);
    }
    let oid = state.next_order_id;
    let uuid = mint_order_uuid();
    let ghost pre_admit = *state;
    state.next_order_id = oid + 1;
    let nb = bal - required as i128;
    crate::alist::alist_set(&mut state.balances, user, nb);
    state.set_locked_margin(oid, user, required);
    proof {
        lemma_alist_update(pre_admit.balances@, user, nb);
        assert forall|j: int| 0 <= j < pre_admit.locked_margins@.len() implies (
        #[trigger] pre_admit.locked_margins@[j]).0 != oid by {
            assert(pre_admit.locked_margins@[j].0 < oid);
        }
        lemma_alist_absent(pre_admit.locked_margins@, oid, (user, required));
        if required > 0 {
            lemma_alist_update(pre_admit.locked_margins@, oid, (user, required));
            lemma_keys_below_update(
                pre_admit.locked_margins@,
                oid,
                (user, required),
                (oid + 1) as u64,
            );
        }
        assert forall|u2: u64|
            bal_of(state.balances@, u2) + locked_sum(state.locked_margins@, u2) == map_val(
                state.deposits@,
                u2,
            ) + map_val(state.realized@, u2) by {
            if required > 0 {
                lemma_locked_sum_update(pre_admit.locked_margins@, oid, (user, required), u2);
            }
            if u2 != user {
                assert(bal_of(state.balances@, u2) == bal_of(pre_admit.balances@, u2));
            }
        }
        assert forall|j: int| 0 <= j < state.open_trades@.len() implies {
            let tj = #[trigger] state.open_trades@[j];
            match alist_lookup(state.locked_margins@, tj.id) {
                Some(e) => e.0 == tj.user_id && e.1 >= tj.margin,
                None => tj.margin == 0,
            }
        } by {
            let tj = state.open_trades@[j];
            assert(tj.id != oid);
            if required > 0 {
                assert(alist_lookup(state.locked_margins@, tj.id) == alist_lookup(
                    pre_admit.locked_margins@,
                    tj.id,
                ));
            }
        }
        assert forall|i: int| 0 <= i < state.order_books@.len() implies book_ids_below(
            (#[trigger] state.order_books@[i]).1,
            state.next_order_id,
        ) by {
            assert(book_ids_below(pre_admit.order_books@[i].1, pre_admit.next_order_id));
        }
        assert forall|u2: u64| u2 != user implies bal_of(state.balances@, u2) == bal_of(
            pre_admit.balances@,
            u2,
        ) by {}
    }
    match req.correlation_id {
        Some(c) => {
            let ghost pre_corr = state.correlation_ids@;
            crate::alist::alist_set(&mut state.correlation_ids, c, oid);
            proof {
                lemma_alist_update(pre_corr, c, oid);
            }
        },
        None => {},
    }
    let limit_price: u64 = match req.order_type {
        OrderType::Limit => match req.limit_price {
            Some(p) => p,
            None => 1,
        },
        OrderType::Market => 1,
    };
    let order = Order {
        id: oid,
        uuid: uuid.clone(),
        user_id: user,
        asset: req.asset,
        side: req.side,
        order_type: req.order_type,
        price: limit_price,
        quantity: req.quantity,
        filled: 0,
        status: OrderStatus::Open,
        margin: req.margin,
        leverage: req.leverage,
        stop_loss_percent: req.stop_loss_percent,
        take_profit_percent: req.take_profit_percent,
        created_at: req.timestamp,
        expiry: req.expiry_timestamp,
    };
    let resp = TradeResponse {
        correlation_id: req.correlation_id,
        order_id: Some(oid),
        order_uuid: Some(uuid),
        user_id: user,
        accepted: true,
        reason: None,
    };
    (resp, Some(order))
}

/// Admit one trade request, as the admission controller specifies:
/// malformed requests are rejected outright; missing reference data
/// parks the request and asks for a snapshot; an unaffordable request
/// is rejected without touching any ledger; an affordable one is
/// accepted atomically with its margin debit, matched price-time
/// against the opposite ladder, netted, and any limit remainder rests
/// on its own side of the book.
#[verifier::rlimit(100)]
#[verifier::loop_isolation(false)]
pub fn process_trade_create(state: &mut EngineState, req: CreateTradeRequest) -> (evs: Vec<
    EngineEvent,
>)
    requires
        state_inv(*old(state)),
    ensures
        state_inv(*final(state)),
        final(state).prices@ == old(state).prices@,
        final(state).deposits@ == old(state).deposits@,
        final(state).hold_base@ == old(state).hold_base@,
        forall|u2: u64| u2 != req.user_id ==> alist_lookup(final(state).pending_trades@, u2)
            == alist_lookup(old(state).pending_trades@, u2),
        // a malformed request, or an exhausted id mint, changes nothing
        (!valid_request(req) || old(state).next_order_id == u64::MAX) ==> (*final(state) == *old(state) && evs@.len() == 1 && (match evs@[0] {
            EngineEvent::Response(r) => !r.accepted && r.reason == Some(
                RejectReason::MalformedRequest,
            ) && r.correlation_id == req.correlation_id && r.user_id == req.user_id
                && r.order_id is None,
            _ => false,
        })),
        // a duplicate correlation id is dropped: at most one OrderId
        // per correlation id, and no second response
        (valid_request(req) && old(state).next_order_id != u64::MAX && duplicate_request(
            *old(state),
            req,
        )) ==> (*final(state) == *old(state) && evs@.len() == 0),
        // unknown balance: ask for it and park the request
        (valid_request(req) && old(state).next_order_id != u64::MAX && !duplicate_request(
            *old(state),
            req,
        ) && alist_lookup(
            old(state).balances@,
            req.user_id,
        ) is None) ==> (evs@.len() == 1 && (match evs@[0] {
            EngineEvent::BalanceRequest { user_id } => user_id == req.user_id,
            _ => false,
        }) && final(state).balances@ == old(state).balances@ && final(state).open_trades@ == old(state).open_trades@ && final(state).order_books@ == old(state).order_books@ && final(state).holdings@ == old(state).holdings@ && final(state).locked_margins@ == old(state).locked_margins@ && final(state).correlation_ids@ == old(state).correlation_ids@ && final(state).next_order_id == old(state).next_order_id && (
        match alist_lookup(final(state).pending_trades@, req.user_id) {
            Some(q) => q@ == (match alist_lookup(old(state).pending_trades@, req.user_id) {
                Some(q0) => q0@,
                None => Seq::<CreateTradeRequest>::empty(),
            }).push(req),
            None => false,
        })),
        // unknown holdings: ask for them and park the request
        (valid_request(req) && old(state).next_order_id != u64::MAX && !duplicate_request(
            *old(state),
            req,
        ) && alist_lookup(
            old(state).balances@,
            req.user_id,
        ) is Some && hlist_lookup(old(state).holdings@, (req.user_id, req.asset)) is None) ==> (
        evs@.len() == 1 && (match evs@[0] {
            EngineEvent::HoldingsRequest { user_id, asset } => user_id == req.user_id && asset
                == req.asset,
            _ => false,
        }) && final(state).balances@ == old(state).balances@ && final(state).open_trades@ == old(state).open_trades@ && final(state).order_books@ == old(state).order_books@ && final(state).holdings@ == old(state).holdings@ && final(state).locked_margins@ == old(state).locked_margins@ && final(state).correlation_ids@ == old(state).correlation_ids@ && final(state).next_order_id == old(state).next_order_id && (
        match alist_lookup(final(state).pending_trades@, req.user_id) {
            Some(q) => q@ == (match alist_lookup(old(state).pending_trades@, req.user_id) {
                Some(q0) => q0@,
                None => Seq::<CreateTradeRequest>::empty(),
            }).push(req),
            None => false,
        })),
        // insufficient balance: reject, mutate nothing
        (valid_request(req) && old(state).next_order_id != u64::MAX && !duplicate_request(
            *old(state),
            req,
        ) && (match alist_lookup(
            old(state).balances@,
            req.user_id,
        ) {
            Some(b) => b < required_margin_spec(*old(state), req),
            None => false,
        }) && hlist_lookup(old(state).holdings@, (req.user_id, req.asset)) is Some) ==> (*final(state) == *old(state) && evs@.len() == 1 && (match evs@[0] {
            EngineEvent::Response(r) => !r.accepted && r.reason == Some(
                RejectReason::InsufficientBalance,
            ) && r.correlation_id == req.correlation_id && r.user_id == req.user_id
                && r.order_id is None,
            _ => false,
        })),
        // otherwise the request is admitted: exactly one accepted
        // response, carrying the freshly minted order id, recorded
        // against the correlation id
        (valid_request(req) && old(state).next_order_id != u64::MAX && !duplicate_request(
            *old(state),
            req,
        ) && (match alist_lookup(
            old(state).balances@,
            req.user_id,
        ) {
            Some(b) => b >= required_margin_spec(*old(state), req),
            None => false,
        }) && hlist_lookup(old(state).holdings@, (req.user_id, req.asset)) is Some) ==> (
        final(state).next_order_id == old(state).next_order_id + 1 && evs@.len() >= 1 && (
        match evs@[0] {
            EngineEvent::Response(r) => r.accepted && r.order_id == Some(
                old(state).next_order_id,
            ) && r.correlation_id == req.correlation_id && r.user_id == req.user_id && r.reason
                is None,
            _ => false,
        }) && (forall|k: int| 1 <= k < evs@.len() ==> (#[trigger] evs@[k]) is Outcome)
            && final(state).correlation_ids@ == (match req.correlation_id {
            Some(c) => alist_update(old(state).correlation_ids@, c, old(state).next_order_id),
            None => old(state).correlation_ids@,
        }) && final(state).pending_trades@ == old(state).pending_trades@ && (forall|a2: u64|
            a2 != req.asset ==> alist_lookup(final(state).order_books@, a2) == alist_lookup(
                old(state).order_books@,
                a2,
            )) && ({
            // the opposite ladder afterwards is exactly what price-time
            // matching leaves of it
            let obv = if req.side == Side::Buy {
                book_sell_view(old(state).order_books@, req.asset)
            } else {
                book_buy_view(old(state).order_books@, req.asset)
            };
            let m = crate::matching::match_ladder_spec(
                obv,
                req.user_id,
                req.quantity,
                req.side == Side::Buy,
                if req.order_type == OrderType::Limit {
                    req.limit_price
                } else {
                    None
                },
            );
            (if req.side == Side::Buy {
                book_sell_view(final(state).order_books@, req.asset)
            } else {
                book_buy_view(final(state).order_books@, req.asset)
            }) == m.ladder
        }) && (req.order_type == OrderType::Market ==> (if req.side == Side::Buy {
            book_buy_view(final(state).order_books@, req.asset)
        } else {
            book_sell_view(final(state).order_books@, req.asset)
        }) == (if req.side == Side::Buy {
            book_buy_view(old(state).order_books@, req.asset)
        } else {
            book_sell_view(old(state).order_books@, req.asset)
        })) && ({
            // a limit remainder that would cross the surviving book --
            // possible only against the taker's own skipped orders --
            // is not rested: its side stays as it was and the margin
            // reserved for it flows back through the refund path
            let obv = if req.side == Side::Buy {
                book_sell_view(old(state).order_books@, req.asset)
            } else {
                book_buy_view(old(state).order_books@, req.asset)
            };
            let m = crate::matching::match_ladder_spec(
                obv,
                req.user_id,
                req.quantity,
                req.side == Side::Buy,
                req.limit_price,
            );
            (req.order_type == OrderType::Limit && m.remaining > 0 && m.ladder.len() > 0
                && crate::matching::crosses(
                req.side == Side::Buy,
                req.limit_price,
                m.ladder[0].price,
            )) ==> (if req.side == Side::Buy {
                book_buy_view(final(state).order_books@, req.asset)
            } else {
                book_sell_view(final(state).order_books@, req.asset)
            }) == (if req.side == Side::Buy {
                book_buy_view(old(state).order_books@, req.asset)
            } else {
                book_sell_view(old(state).order_books@, req.asset)
            })
        })),
{
    let mut evs: Vec<EngineEvent> = Vec::new();
    let user = req.user_id;
    let asset = req.asset;

    // range checks: numbers the engine's fixed-point model cannot carry
    // make a malformed request
    let valid = 0 < req.quantity && req.quantity <= crate::types::MAX_QTY && req.margin
        <= crate::types::MAX_MARGIN && 1 <= req.leverage && req.leverage
        <= crate::types::MAX_LEVERAGE && (match req.order_type {
        OrderType::Limit => match req.limit_price {
            Some(p) => 0 < p && p <= MAX_PRICE,
            None => false,
        },
        OrderType::Market => true,
    }) && (match req.stop_loss_percent {
        Some(p) => p <= crate::types::MAX_PERCENT,
        None => true,
    }) && (match req.take_profit_percent {
        Some(p) => p <= crate::types::MAX_PERCENT,
        None => true,
    });
    proof {
        assert(valid == valid_request(req));
    }
    if !valid || state.next_order_id == u64::MAX {
        // an exhausted id mint can never accept again; it borrows the
        // malformed reason for lack of a better wire code
        evs.push(EngineEvent::Response(reject_response(&req, RejectReason::MalformedRequest)));
        return evs;
    }

    // at-most-once: a correlation id that already minted an order is
    // dropped without a second response
    match req.correlation_id {
        Some(c) => {
            if state.correlation_used(c) {
                return evs;
            }
        },
        None => {},
    }

    // reference data must be present, else ask and park
    let bal = match state.get_balance(user) {
        Some(b) => b,
        None => {
            evs.push(EngineEvent::BalanceRequest { user_id: user });
            park_request(state, req);
            return evs;
        },
    };
    match state.get_holdings(user, asset) {
        Some(_) => {},
        None => {
            evs.push(EngineEvent::HoldingsRequest { user_id: user, asset });
            park_request(state, req);
            return evs;
        },
    }

    // admission proper: affordability check and atomic margin debit
    let (resp, admitted) = admit_trade(state, req);
    evs.push(EngineEvent::Response(resp));
    let order = match admitted {
        Some(o) => o,
        None => {
            return evs;
        },
    };
    let oid = order.id;
    let limit_price = order.price;

    let ghost pre_book = *state;
    let book_opt = alist_del(&mut state.order_books, asset);
    proof {
        if alist_lookup(pre_book.order_books@, asset) is Some {
            lemma_alist_lookup_entry(pre_book.order_books@, asset);
        }
        lemma_alist_remove(pre_book.order_books@, asset);
        lemma_alist_entries_remove(pre_book.order_books@, asset);
        assert forall|i: int| 0 <= i < state.order_books@.len() implies book_wf(
            (#[trigger] state.order_books@[i]).1,
            state.order_books@[i].0,
        ) && book_ids_below(state.order_books@[i].1, state.next_order_id) by {
            let i0 = choose|i0: int|
                0 <= i0 < pre_book.order_books@.len() && alist_remove(
                    pre_book.order_books@,
                    asset,
                )[i] == #[trigger] pre_book.order_books@[i0];
            assert(book_wf(pre_book.order_books@[i0].1, pre_book.order_books@[i0].0));
        }
    }
    let book = match book_opt {
        Some(b) => b,
        None => OrderBook::new(),
    };
    let OrderBook { buy, sell } = book;
    let is_buy = matches!(req.side, Side::Buy);
    let (same_side, opp_side) = if is_buy {
        (buy, sell)
    } else {
        (sell, buy)
    };
    let ghost same_view = ladder_view(same_side@);
    let ghost opp_view = ladder_view(opp_side@);
    let ghost opp_kind = opposite_of(req.side);
    let ghost limit_ghost: Option<u64> = if req.order_type == OrderType::Limit {
        Some(limit_price)
    } else {
        None
    };
    proof {
        assert(ladder_wf(same_view, asset, req.side));
        assert(ladder_wf(opp_view, asset, opp_kind));
        assert(ladder_ids_below(same_view, (oid + 1) as u64) && ladder_ids_below(
            opp_view,
            (oid + 1) as u64,
        ));
        assert(same_view.len() > 0 && opp_view.len() > 0 ==> (if is_buy {
            same_view[0].price < opp_view[0].price
        } else {
            opp_view[0].price < same_view[0].price
        }));
        assert forall|i: int, j: int|
            0 <= i < opp_side@.len() && 0 <= j < (#[trigger] opp_side@[i])@.orders.len() implies (
        #[trigger] opp_side@[i]@.orders[j]).filled <= opp_side@[i]@.orders[j].quantity by {
            assert(crate::book::level_wf(opp_view[i], asset, opp_kind));
            assert(opp_view[i].orders[j] == opp_side@[i]@.orders[j]);
        }
    }
    let (fills, opp_after, rem_out) = match_market_order(&order, opp_side);
    let ghost mres = match_ladder_spec(opp_view, user, req.quantity, is_buy, limit_ghost);
    proof {
        lemma_match_ladder_props(opp_view, user, req.quantity, asset, opp_kind, is_buy, limit_ghost);
        lemma_match_ladder_ids(opp_view, user, req.quantity, is_buy, limit_ghost, (oid + 1) as u64);
    }

    // settle every counterparty fill
    let ghost ev0 = evs@[0];
    let mut k: usize = 0;
    while k < fills.len()
        invariant
            state_inv(*state),
            state.order_books@ == alist_remove(pre_book.order_books@, asset),
            state.prices@ == pre_book.prices@,
            state.pending_trades@ == pre_book.pending_trades@,
            state.deposits@ == pre_book.deposits@,
            state.hold_base@ == pre_book.hold_base@,
            state.correlation_ids@ == pre_book.correlation_ids@,
            state.next_order_id == oid + 1,
            fills@ == mres.fills,
            forall|k2: int| 0 <= k2 < fills@.len() ==> fill_ok(
                #[trigger] fills@[k2],
                asset,
                opp_kind,
                user,
            ),
            forall|k2: int| 0 <= k2 < fills@.len() ==> (#[trigger] fills@[k2]).order_id < oid
                + 1,
            evs@.len() >= 1,
            evs@[0] == ev0,
            forall|k2: int| 1 <= k2 < evs@.len() ==> (#[trigger] evs@[k2]) is Outcome,
        decreases fills@.len() - k,
    {
        let (mut fevs, _fault) = apply_execution(state, &fills[k]);
        evs.append(&mut fevs);
        k = k + 1;
    }

    // settle the taker at the volume-weighted execution price
    proof {
        assert forall|k2: int| 0 <= k2 < fills@.len() implies 0 < (#[trigger] fills@[k2]).price
            <= MAX_PRICE by {
            assert(fill_ok(fills@[k2], asset, opp_kind, user));
        }
    }
    proof {
        assert(fills_qty(fills@) == req.quantity - mres.remaining);
        assert(valid_order(order));
    }
    let (executed, vwap) = fills_vwap(&fills);
    if executed > 0 {
        let (mut tevs, _fault) = apply_netting(state, &order, executed, vwap);
        evs.append(&mut tevs);
    }

    // a market order's unmatched remainder closes what it can at the
    // mark price and hands its margin back; a limit remainder rests,
    // unless resting it would cross the book
    let mut same_after = same_side;
    if rem_out > 0 && matches!(req.order_type, OrderType::Limit) {
        let best_opp = crate::book::best_price(&opp_after);
        let crossing = match best_opp {
            Some(bp) => if is_buy {
                bp <= limit_price
            } else {
                bp >= limit_price
            },
            None => false,
        };
        if crossing {
            let _leftover = refund_excess_margin(state, oid, user);
            proof {
                lemma_uncrossed_after_match(same_view, opp_view, mres.ladder, is_buy);
                assert(uncrossed_sides(ladder_view(same_after@), ladder_view(opp_after@), is_buy));
            }
        } else {
            let rest_order = Order {
                id: oid,
                uuid: order.uuid.clone(),
                user_id: user,
                asset,
                side: req.side,
                order_type: OrderType::Limit,
                price: limit_price,
                quantity: rem_out,
                filled: 0,
                status: OrderStatus::Open,
                margin: req.margin,
                leverage: req.leverage,
                stop_loss_percent: req.stop_loss_percent,
                take_profit_percent: req.take_profit_percent,
                created_at: req.timestamp,
                expiry: req.expiry_timestamp,
            };
            proof {
                lemma_ladder_insert_wf(same_view, rest_order, asset, req.side);
                lemma_ladder_insert_ids(same_view, rest_order, req.side, (oid + 1) as u64);
            }
            same_after = ladder_insert_exec(same_after, rest_order, req.side);
            proof {
                lemma_uncrossed_after_match(same_view, opp_view, mres.ladder, is_buy);
                let bv = ladder_view(same_after@);
                let sv = ladder_view(opp_after@);
                assert(bv == ladder_insert(same_view, rest_order, req.side));
                if sv.len() > 0 {
                    assert(sv[0] == opp_after@[0]@);
                    assert(if is_buy {
                        sv[0].price > limit_price
                    } else {
                        sv[0].price < limit_price
                    });
                }
                assert(uncrossed_sides(bv, sv, is_buy));
            }
        }
    } else {
        if rem_out > 0 {
            match state.get_price(asset) {
                Some(mark) => {
                    proof {
                        lemma_alist_lookup_entry(state.prices@, asset);
                    }
                    let c2 = state.closable_qty(user, asset, opposite(req.side), rem_out);
                    if c2 > 0 {
                        let cs2 = close_against_positions(
                            state,
                            user,
                            asset,
                            opposite(req.side),
                            c2,
                            mark,
                        );
                        if cs2.closed > 0 {
                            let ub = match state.get_balance(user) {
                                Some(b) => b,
                                None => 0,
                            };
                            let uh = match state.get_holdings(user, asset) {
                                Some(h) => h,
                                None => 0,
                            };
                            let ret_report: u64 = if cs2.returned > 0xffff_ffff_ffff_ffffu64
                                as u128 {
                                0xffff_ffff_ffff_ffffu64
                            } else {
                                cs2.returned as u64
                            };
                            evs.push(
                                EngineEvent::Outcome(
                                    crate::types::TradeOutcome {
                                        trade_id: oid,
                                        trade_uuid: order.uuid.clone(),
                                        user_id: user,
                                        asset,
                                        side: req.side,
                                        quantity: cs2.closed,
                                        entry_price: cs2.entry_price,
                                        close_price: mark,
                                        pnl: cs2.pnl,
                                        status: crate::types::OutcomeStatus::Closed,
                                        timestamp: req.timestamp,
                                        margin: ret_report,
                                        leverage: req.leverage,
                                        updated_balance: ub,
                                        updated_holdings: uh,
                                        order_type: req.order_type,
                                        limit_price: None,
                                    },
                                ),
                            );
                        }
                    }
                },
                None => {},
            }
            let _leftover = refund_excess_margin(state, oid, user);
        }
        proof {
            lemma_uncrossed_after_match(same_view, opp_view, mres.ladder, is_buy);
            assert(uncrossed_sides(ladder_view(same_after@), ladder_view(opp_after@), is_buy));
        }
    }

    // reassemble the book and hand it back, well formed
    let (new_buy, new_sell) = if is_buy {
        (same_after, opp_after)
    } else {
        (opp_after, same_after)
    };
    let new_book = OrderBook { buy: new_buy, sell: new_sell };
    proof {
        assert(book_wf(new_book, asset));
        assert(book_ids_below(new_book, (oid + 1) as u64));
    }
    let ghost gbook = new_book;
    let ghost pre_put = *state;
    crate::alist::alist_set(&mut state.order_books, asset, new_book);
    proof {
        lemma_alist_update(pre_put.order_books@, asset, gbook);
        lemma_alist_entries_update(pre_put.order_books@, asset, gbook);
        assert forall|i: int| 0 <= i < state.order_books@.len() implies book_wf(
            (#[trigger] state.order_books@[i]).1,
            state.order_books@[i].0,
        ) && book_ids_below(state.order_books@[i].1, state.next_order_id) by {
            if state.order_books@[i] != (asset, gbook) {
                let i0 = choose|i0: int|
                    0 <= i0 < pre_put.order_books@.len() && alist_update(
                        pre_put.order_books@,
                        asset,
                        gbook,
                    )[i] == #[trigger] pre_put.order_books@[i0];
                assert(book_wf(pre_put.order_books@[i0].1, pre_put.order_books@[i0].0));
            }
        }
        assert forall|a2: u64| a2 != asset implies alist_lookup(state.order_books@, a2)
            == alist_lookup(old(state).order_books@, a2) by {}
        assert(alist_lookup(state.order_books@, asset) == Some(gbook));
        if alist_lookup(old(state).order_books@, asset) is None {
            assert(same_view =~= Seq::<crate::book::LevelView>::empty());
            assert(opp_view =~= Seq::<crate::book::LevelView>::empty());
        }
        assert(ladder_view(opp_after@) == mres.ladder);
        if is_buy {
            assert(book_sell_view(state.order_books@, asset) == mres.ladder);
        } else {
            assert(book_buy_view(state.order_books@, asset) == mres.ladder);
        }
    }
    evs
}

/// Install a balance snapshot, then replay every request the user had
/// parked, in arrival order. The install re-anchors the conservation
/// baseline: the user's deposits become the snapshot amount plus the
/// margin still locked, net of realised PnL; nothing the replay does
/// moves that baseline again.
pub fn handle_balance_snapshot(state: &mut EngineState, user: u64, amount: i64) -> (evs: Vec<
    EngineEvent,
>)
    requires
        state_inv(*old(state)),
    ensures
        state_inv(*final(state)),
        final(state).deposits@ == old(state).deposits@.insert(
            user,
            amount + locked_sum(old(state).locked_margins@, user) - map_val(
                old(state).realized@,
                user,
            ),
        ),
        final(state).hold_base@ == old(state).hold_base@,
        final(state).prices@ == old(state).prices@,
{
    crate::reconcile::apply_balance_snapshot(state, user, amount);
    let ghost pre = *state;
    let drained = alist_del(&mut state.pending_trades, user);
    proof {
        lemma_alist_remove(pre.pending_trades@, user);
    }
    let mut queue: Vec<CreateTradeRequest> = match drained {
        Some(q) => q,
        None => Vec::new(),
    };
    let mut evs: Vec<EngineEvent> = Vec::new();
    while queue.len() > 0
        invariant
            state_inv(*state),
            state.deposits@ == pre.deposits@,
            state.hold_base@ == pre.hold_base@,
            state.prices@ == pre.prices@,
        decreases queue@.len(),
    {
        let next = queue.remove(0);
        let mut more = process_trade_create(state, next);
        evs.append(&mut more);
    }
    evs
}

/// Install a holdings snapshot, then replay every request the user had
/// parked, in arrival order. The install re-anchors the holdings
/// baseline for the pair; the replay never moves a baseline.
pub fn handle_holdings_snapshot(state: &mut EngineState, user: u64, asset: u64, quantity: i64) -> (evs: Vec<EngineEvent>)
    requires
        state_inv(*old(state)),
    ensures
        state_inv(*final(state)),
        final(state).hold_base@ == old(state).hold_base@.insert(
            (user, asset),
            quantity - crate::state::positions_net(old(state).open_trades@, user, asset),
        ),
        final(state).deposits@ == old(state).deposits@,
        final(state).prices@ == old(state).prices@,
{
    crate::reconcile::apply_holdings_snapshot(state, user, asset, quantity);
    let ghost pre = *state;
    let drained = alist_del(&mut state.pending_trades, user);
    proof {
        lemma_alist_remove(pre.pending_trades@, user);
    }
    let mut queue: Vec<CreateTradeRequest> = match drained {
        Some(q) => q,
        None => Vec::new(),
    };
    let mut evs: Vec<EngineEvent> = Vec::new();
    while queue.len() > 0
        invariant
            state_inv(*state),
            state.hold_base@ == pre.hold_base@,
            state.deposits@ == pre.deposits@,
            state.prices@ == pre.prices@,
        decreases queue@.len(),
    {
        let next = queue.remove(0);
        let mut more = process_trade_create(state, next);
        evs.append(&mut more);
    }
    evs
}

/// The two sides, named by which one the taker owns.
pub open spec fn uncrossed_sides(same: Seq<crate::book::LevelView>, opp: Seq<crate::book::LevelView>, taker_is_buy: bool) -> bool {
    if taker_is_buy {
        book_uncrossed(same, opp)
    } else {
        book_uncrossed(opp, same)
    }
}

/// After matching, the surviving opposite best price is one of the old
/// opposite prices, so the untouched side still sits on the right side
/// of it.
proof fn lemma_uncrossed_after_match(
    same: Seq<crate::book::LevelView>,
    opp_before: Seq<crate::book::LevelView>,
    opp_after: Seq<crate::book::LevelView>,
    taker_is_buy: bool,
)
    requires
        forall|i: int| 0 <= i < opp_after.len() ==> price_in(
            opp_before,
            (#[trigger] opp_after[i]).price,
        ),
        ladder_sorted(
            opp_before,
            if taker_is_buy {
                Side::Sell
            } else {
                Side::Buy
            },
        ),
        (same.len() > 0 && opp_before.len() > 0) ==> (if taker_is_buy {
            same[0].price < opp_before[0].price
        } else {
            opp_before[0].price < same[0].price
        }),
    ensures
        uncrossed_sides(same, opp_after, taker_is_buy),
{
    if same.len() > 0 && opp_after.len() > 0 {
        assert(price_in(opp_before, opp_after[0].price));
        let j = choose|j: int|
            0 <= j < opp_before.len() && (#[trigger] opp_before[j]).price == opp_after[0].price;
        if j > 0 {
            assert(if taker_is_buy {
                opp_before[0].price < opp_before[j].price
            } else {
                opp_before[j].price < opp_before[0].price
            });
        }
    }
}

} // verus!
