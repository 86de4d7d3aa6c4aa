use vstd::prelude::*;

use crate::alist::{alist_lookup, lemma_alist_remove, lemma_alist_update};
use crate::hlist::{hold_of, lemma_hlist_update, hlist_set};
use crate::pnl::{
    calculate_pnl, check_liquidation, maintenance_margin_percent, pnl_of, stop_loss_triggered,
    take_profit_triggered,
};
use crate::state::{
    bal_of, checked_add_i128, lemma_locked_sum_remove, lemma_locked_sum_update,
    lemma_positions_net_remove, lemma_trades_remove, lemma_trades_unique_pairwise, locked_sum,
    map_val, pair_val, positions_net, state_inv, trade_by_id, EngineState,
};
use crate::types::{
    valid_trade, EngineEvent, OutcomeStatus, Side, TradeOutcome, MAX_PRICE,
};

verus! {

use vstd::pervasive::VecAdditionalExecFns;

/// Close the whole position under `order_id` at the mark price: credit
/// its PnL and its remaining locked margin to the owner, release the
/// ledger entry, retire the position. `None` when there is no such
/// position or an arithmetic guard refuses the credit; the state is
/// then unchanged.
#[verifier::rlimit(100)]
pub fn close_trade_at(
    state: &mut EngineState,
    order_id: u64,
    mark: u64,
    liquidation: bool,
) -> (r: Option<TradeOutcome>)
    requires
        state_inv(*old(state)),
        0 < mark <= MAX_PRICE,
    ensures
        state_inv(*final(state)),
        final(state).order_books@ == old(state).order_books@,
        final(state).prices@ == old(state).prices@,
        final(state).pending_trades@ == old(state).pending_trades@,
        final(state).next_order_id == old(state).next_order_id,
        final(state).deposits@ == old(state).deposits@,
        final(state).hold_base@ == old(state).hold_base@,
        final(state).correlation_ids@ == old(state).correlation_ids@,
        r is None ==> *final(state) == *old(state),
        forall|id2: u64| id2 != order_id ==> #[trigger] trade_by_id(
            final(state).open_trades@,
            id2,
        ) == trade_by_id(old(state).open_trades@, id2),
        // completeness: the close is owed whenever the position exists
        // and the credited amounts stay within 128-bit range
        (match trade_by_id(old(state).open_trades@, order_id) {
            Some(t) => {
                let pnl = pnl_of(
                    t.side,
                    t.entry_price as int,
                    mark as int,
                    t.quantity as int,
                    t.leverage as int,
                );
                let nb = bal_of(old(state).balances@, t.user_id) + pnl + t.margin;
                let nh = hold_of(old(state).holdings@, (t.user_id, t.asset)) + (if t.side
                    == Side::Sell {
                    t.quantity as int
                } else {
                    -(t.quantity as int)
                });
                (i128::MIN <= nb <= i128::MAX && i128::MIN <= nh <= i128::MAX) ==> r is Some
            },
            None => r is None,
        }),
        (match r {
            Some(out) => match trade_by_id(old(state).open_trades@, order_id) {
                Some(t) => {
                    let pnl = pnl_of(
                        t.side,
                        t.entry_price as int,
                        mark as int,
                        t.quantity as int,
                        t.leverage as int,
                    );
                    &&& trade_by_id(final(state).open_trades@, order_id) is None
                    &&& bal_of(final(state).balances@, t.user_id) == bal_of(
                        old(state).balances@,
                        t.user_id,
                    ) + pnl + t.margin
                    &&& map_val(final(state).realized@, t.user_id) == map_val(
                        old(state).realized@,
                        t.user_id,
                    ) + pnl
                    &&& hold_of(final(state).holdings@, (t.user_id, t.asset)) == hold_of(
                        old(state).holdings@,
                        (t.user_id, t.asset),
                    ) + (if t.side == Side::Sell {
                        t.quantity as int
                    } else {
                        -(t.quantity as int)
                    })
                    &&& (forall|u2: u64|
                        u2 != t.user_id ==> bal_of(final(state).balances@, u2) == bal_of(
                            old(state).balances@,
                            u2,
                        ) && map_val(final(state).realized@, u2) == map_val(
                            old(state).realized@,
                            u2,
                        ))
                    &&& (forall|k2: (u64, u64)|
                        k2 != (t.user_id, t.asset) ==> #[trigger] hold_of(
                            final(state).holdings@,
                            k2,
                        ) == hold_of(old(state).holdings@, k2))
                    &&& out.pnl == pnl
                    &&& out.quantity == t.quantity
                    &&& out.user_id == t.user_id
                    &&& out.asset == t.asset
                    &&& out.trade_id == order_id
                    &&& out.entry_price == t.entry_price
                    &&& out.close_price == mark
                    &&& out.margin == t.margin
                    &&& out.status == (if liquidation {
                        OutcomeStatus::Liquidated
                    } else {
                        OutcomeStatus::Closed
                    })
                },
                None => false,
            },
            None => true,
        }),
{
    let found = state.find_trade(order_id);
    let i = match found {
        Some(i) => i,
        None => {
            return None;
        },
    };
    let ghost t0 = state.open_trades@[i as int];
    let t = &state.open_trades[i];
    let user = t.user_id;
    let asset = t.asset;
    let side = t.side;
    let tqty = t.quantity;
    let tmargin = t.margin;
    let tentry = t.entry_price;
    let tlev = t.leverage;
    let uuid = t.uuid.clone();
    let created_at = t.created_at;
    proof {
        assert(valid_trade(t0));
        assert(match alist_lookup(state.locked_margins@, t0.id) {
            Some(e) => e.0 == t0.user_id && e.1 >= t0.margin,
            None => t0.margin == 0,
        });
        if alist_lookup(state.locked_margins@, t0.id) is Some {
            crate::alist::lemma_alist_some_key_at(state.locked_margins@, t0.id);
        }
    }
    let pnl: i128 = calculate_pnl(side, tentry, mark, tqty, tlev);
    let old_bal = match state.get_balance(user) {
        Some(b) => b,
        None => 0,
    };
    let nb = match checked_add_i128(old_bal, pnl + tmargin as i128) {
        Some(nb) => nb,
        None => {
            return None;
        },
    };
    let old_h = match state.get_holdings(user, asset) {
        Some(h) => h,
        None => 0,
    };
    let hdelta: i128 = if matches!(side, Side::Buy) {
        -(tqty as i128)
    } else {
        tqty as i128
    };
    let nh = match checked_add_i128(old_h, hdelta) {
        Some(nh) => nh,
        None => {
            return None;
        },
    };
    let ghost pre = *state;
    proof {
        lemma_trades_unique_pairwise(pre.open_trades@);
    }
    crate::alist::alist_set(&mut state.balances, user, nb);
    hlist_set(&mut state.holdings, (user, asset), nh);
    let amt = state.get_locked_margin_or(order_id, 0);
    state.set_locked_margin(order_id, user, amt - tmargin);
    state.open_trades.remove(i);
    proof {
        state.realized = Ghost(pre.realized@.insert(user, map_val(pre.realized@, user) + pnl));
    }
    proof {
        lemma_alist_update(pre.balances@, user, nb);
        lemma_hlist_update(pre.holdings@, (user, asset), nh);
        let e2 = (user, (amt - tmargin) as u64);
        if amt - tmargin > 0 {
            lemma_alist_update(pre.locked_margins@, order_id, e2);
            crate::state::lemma_keys_below_update(
                pre.locked_margins@,
                order_id,
                e2,
                pre.next_order_id,
            );
        } else {
            lemma_alist_remove(pre.locked_margins@, order_id);
            crate::state::lemma_keys_below_remove(pre.locked_margins@, order_id, pre.next_order_id);
        }
        lemma_trades_remove(pre.open_trades@, i as int);
        lemma_positions_net_remove(pre.open_trades@, i as int, user, asset);
        assert forall|u2: u64|
            bal_of(state.balances@, u2) + locked_sum(state.locked_margins@, u2) == map_val(
                state.deposits@,
                u2,
            ) + map_val(state.realized@, u2) by {
            if amt - tmargin > 0 {
                lemma_locked_sum_update(pre.locked_margins@, order_id, (user, (amt - tmargin) as u64), u2);
            } else {
                lemma_locked_sum_remove(pre.locked_margins@, order_id, u2);
            }
            if u2 == user {
                assert(bal_of(state.balances@, user) == nb as int);
            } else {
                assert(bal_of(state.balances@, u2) == bal_of(pre.balances@, u2));
            }
        }
        assert forall|u2: u64, a2: u64|
            hold_of(state.holdings@, (u2, a2)) == pair_val(state.hold_base@, (u2, a2))
                + positions_net(state.open_trades@, u2, a2) by {
            if !(u2 == user && a2 == asset) {
                lemma_positions_net_remove(pre.open_trades@, i as int, u2, a2);
                assert(hold_of(state.holdings@, (u2, a2)) == hold_of(pre.holdings@, (u2, a2)));
            } else {
                assert(hold_of(state.holdings@, (user, asset)) == nh as int);
            }
        }
        assert forall|j: int| 0 <= j < state.open_trades@.len() implies valid_trade(
            #[trigger] state.open_trades@[j],
        ) && state.open_trades@[j].id < state.next_order_id by {
            let jj = if j < i as int {
                j
            } else {
                j + 1
            };
            assert(state.open_trades@[j] == pre.open_trades@[jj]);
        }
        assert forall|j: int| 0 <= j < state.open_trades@.len() implies {
            let tj = #[trigger] state.open_trades@[j];
            match alist_lookup(state.locked_margins@, tj.id) {
                Some(e) => e.0 == tj.user_id && e.1 >= tj.margin,
                None => tj.margin == 0,
            }
        } by {
            let jj = if j < i as int {
                j
            } else {
                j + 1
            };
            assert(state.open_trades@[j] == pre.open_trades@[jj]);
            assert(pre.open_trades@[jj].id != order_id);
            if amt - tmargin > 0 {
                assert(alist_lookup(state.locked_margins@, pre.open_trades@[jj].id)
                    == alist_lookup(pre.locked_margins@, pre.open_trades@[jj].id));
            }
        }
    }
    let ub = match state.get_balance(user) {
        Some(b) => b,
        None => 0,
    };
    let uh = match state.get_holdings(user, asset) {
        Some(h) => h,
        None => 0,
    };
    Some(
        TradeOutcome {
            trade_id: order_id,
            trade_uuid: uuid,
            user_id: user,
            asset,
            side,
            quantity: tqty,
            entry_price: tentry,
            close_price: mark,
            pnl,
            status: if liquidation {
                OutcomeStatus::Liquidated
            } else {
                OutcomeStatus::Closed
            },
            timestamp: created_at,
            margin: tmargin,
            leverage: tlev,
            updated_balance: ub,
            updated_holdings: uh,
            order_type: crate::types::OrderType::Market,
            limit_price: None,
        },
    )
}

/// Liquidate the position under `order_id` at the mark price: the
/// full close with a `Liquidated` outcome. Carries `close_trade_at`'s
/// whole contract: credits, ledger release, frame on other positions,
/// and completeness when the credits fit.
pub fn liquidate_trade(state: &mut EngineState, order_id: u64, latest_price: u64) -> (r: Option<
    TradeOutcome,
>)
    requires
        state_inv(*old(state)),
        0 < latest_price <= MAX_PRICE,
    ensures
        state_inv(*final(state)),
        final(state).order_books@ == old(state).order_books@,
        final(state).prices@ == old(state).prices@,
        final(state).pending_trades@ == old(state).pending_trades@,
        final(state).next_order_id == old(state).next_order_id,
        final(state).deposits@ == old(state).deposits@,
        final(state).hold_base@ == old(state).hold_base@,
        final(state).correlation_ids@ == old(state).correlation_ids@,
        r is None ==> *final(state) == *old(state),
        forall|id2: u64| id2 != order_id ==> #[trigger] trade_by_id(
            final(state).open_trades@,
            id2,
        ) == trade_by_id(old(state).open_trades@, id2),
        (match trade_by_id(old(state).open_trades@, order_id) {
            Some(t) => {
                let pnl = pnl_of(
                    t.side,
                    t.entry_price as int,
                    latest_price as int,
                    t.quantity as int,
                    t.leverage as int,
                );
                let nb = bal_of(old(state).balances@, t.user_id) + pnl + t.margin;
                let nh = hold_of(old(state).holdings@, (t.user_id, t.asset)) + (if t.side
                    == Side::Sell {
                    t.quantity as int
                } else {
                    -(t.quantity as int)
                });
                (i128::MIN <= nb <= i128::MAX && i128::MIN <= nh <= i128::MAX) ==> r is Some
            },
            None => r is None,
        }),
        (match r {
            Some(out) => match trade_by_id(old(state).open_trades@, order_id) {
                Some(t) => {
                    let pnl = pnl_of(
                        t.side,
                        t.entry_price as int,
                        latest_price as int,
                        t.quantity as int,
                        t.leverage as int,
                    );
                    &&& trade_by_id(final(state).open_trades@, order_id) is None
                    &&& bal_of(final(state).balances@, t.user_id) == bal_of(
                        old(state).balances@,
                        t.user_id,
                    ) + pnl + t.margin
                    &&& map_val(final(state).realized@, t.user_id) == map_val(
                        old(state).realized@,
                        t.user_id,
                    ) + pnl
                    &&& hold_of(final(state).holdings@, (t.user_id, t.asset)) == hold_of(
                        old(state).holdings@,
                        (t.user_id, t.asset),
                    ) + (if t.side == Side::Sell {
                        t.quantity as int
                    } else {
                        -(t.quantity as int)
                    })
                    &&& out.pnl == pnl
                    &&& out.quantity == t.quantity
                    &&& out.user_id == t.user_id
                    &&& out.trade_id == order_id
                    &&& out.margin == t.margin
                    &&& out.status == OutcomeStatus::Liquidated
                },
                None => false,
            },
            None => true,
        }),
{
    close_trade_at(state, order_id, latest_price, true)
}

/// Whether the recorded mark price puts this position over any risk
/// line: maintenance-margin liquidation, take-profit, or stop-loss.
pub open spec fn risk_trigger(s: EngineState, t: crate::types::Trade) -> bool {
    match crate::alist::alist_lookup(s.prices@, t.asset) {
        Some(mark) => crate::pnl::should_liquidate(
            t.side,
            t.entry_price as int,
            mark as int,
            t.quantity as int,
            t.leverage as int,
            t.margin as int,
            crate::pnl::mm_percent_of(t.margin as int),
        ) || (match t.take_profit_percent {
            Some(tp) => crate::pnl::take_profit_hit(
                t.side,
                t.entry_price as int,
                mark as int,
                tp as int,
            ),
            None => false,
        }) || (match t.stop_loss_percent {
            Some(sl) => crate::pnl::stop_loss_hit(
                t.side,
                t.entry_price as int,
                mark as int,
                sl as int,
            ),
            None => false,
        }),
        None => false,
    }
}

/// Headroom under which a whole risk pass provably never trips an
/// arithmetic guard: every balance and holding well inside 128 bits,
/// and a position count the credit bound absorbs.
pub open spec fn risk_pass_ready(s: EngineState) -> bool {
    &&& forall|i: int|
        0 <= i < s.balances@.len() ==> -crate::types::CREDIT_HEADROOM <= (
        #[trigger] s.balances@[i]).1 <= crate::types::CREDIT_HEADROOM
    &&& forall|i: int|
        0 <= i < s.holdings@.len() ==> -crate::types::CREDIT_HEADROOM <= (
        #[trigger] s.holdings@[i]).1 <= crate::types::CREDIT_HEADROOM
    &&& s.open_trades@.len() <= 0x1_0000_0000
}

/// One risk pass: snapshot every open position against the latest mark
/// price, decide liquidation, take-profit and stop-loss in that order,
/// then apply the decisions. Collect first, apply second, so the scan
/// never walks a list it is mutating. Positions the pass does not
/// trigger are untouched; with headroom on the ledgers, every
/// triggered position is closed.
#[verifier::rlimit(100)]
#[verifier::loop_isolation(false)]
pub fn monitor_stop_loss_take_profit(state: &mut EngineState) -> (evs: Vec<EngineEvent>)
    requires
        state_inv(*old(state)),
    ensures
        state_inv(*final(state)),
        final(state).order_books@ == old(state).order_books@,
        final(state).prices@ == old(state).prices@,
        final(state).pending_trades@ == old(state).pending_trades@,
        final(state).next_order_id == old(state).next_order_id,
        final(state).deposits@ == old(state).deposits@,
        final(state).hold_base@ == old(state).hold_base@,
        final(state).correlation_ids@ == old(state).correlation_ids@,
        // untriggered positions are exactly preserved; in particular
        // only triggered positions ever close
        forall|id: u64|
            (match trade_by_id(old(state).open_trades@, id) {
                Some(t) => !risk_trigger(*old(state), t),
                None => true,
            }) ==> #[trigger] trade_by_id(final(state).open_trades@, id) == trade_by_id(
                old(state).open_trades@,
                id,
            ),
        // the pass emits only outcome reports
        forall|k: int| 0 <= k < evs@.len() ==> (#[trigger] evs@[k]) is Outcome,
        // with ledger headroom, every triggered position is closed
        risk_pass_ready(*old(state)) ==> (forall|id: u64|
            (match trade_by_id(old(state).open_trades@, id) {
                Some(t) => risk_trigger(*old(state), t),
                None => false,
            }) ==> #[trigger] trade_by_id(final(state).open_trades@, id) is None),
{
    let mut actions: Vec<(u64, bool, u64)> = Vec::new();
    let mut i: usize = 0;
    proof {
        crate::state::lemma_trades_unique_pairwise(state.open_trades@);
    }
    while i < state.open_trades.len()
        invariant
            i <= state.open_trades@.len(),
            actions@.len() <= i,
            forall|k: int| 0 <= k < actions@.len() ==> 0 < (#[trigger] actions@[k]).2 <= MAX_PRICE,
            forall|k: int|
                0 <= k < actions@.len() ==> exists|idx: int|
                    0 <= idx < i && (#[trigger] actions@[k]).0 == (
                    #[trigger] state.open_trades@[idx]).id,
            forall|k: int|
                0 <= k < actions@.len() ==> (match trade_by_id(
                    state.open_trades@,
                    (#[trigger] actions@[k]).0,
                ) {
                    Some(t) => risk_trigger(*state, t),
                    None => false,
                }),
            forall|k1: int, k2: int|
                0 <= k1 < k2 < actions@.len() ==> (#[trigger] actions@[k1]).0 != (
                #[trigger] actions@[k2]).0,
            forall|idx: int|
                0 <= idx < i ==> (risk_trigger(*state, #[trigger] state.open_trades@[idx])
                    ==> exists|k: int|
                    0 <= k < actions@.len() && (#[trigger] actions@[k]).0
                        == state.open_trades@[idx].id),
        decreases state.open_trades@.len() - i,
    {
        let t = &state.open_trades[i];
        proof {
            assert(valid_trade(state.open_trades@[i as int]));
        }
        let mark_opt = state.get_price(t.asset);
        let t = &state.open_trades[i];
        let mut triggered = false;
        let mut liq = false;
        let mut mark_hit: u64 = 0;
        match mark_opt {
            Some(mark) => {
                proof {
                    crate::alist::lemma_alist_lookup_entry(state.prices@, t.asset);
                }
                let mm = maintenance_margin_percent(t.margin);
                if check_liquidation(
                    t.side,
                    t.entry_price,
                    mark,
                    t.quantity,
                    t.leverage,
                    t.margin,
                    mm,
                ) {
                    triggered = true;
                    liq = true;
                    mark_hit = mark;
                } else {
                    match t.take_profit_percent {
                        Some(tp) => {
                            if take_profit_triggered(t.side, t.entry_price, mark, tp) {
                                triggered = true;
                                mark_hit = mark;
                            }
                        },
                        None => {},
                    }
                    if !triggered {
                        match t.stop_loss_percent {
                            Some(sl) => {
                                if stop_loss_triggered(t.side, t.entry_price, mark, sl) {
                                    triggered = true;
                                    mark_hit = mark;
                                }
                            },
                            None => {},
                        }
                    }
                }
            },
            None => {},
        }
        if triggered {
            let tid = t.id;
            let ghost pre_actions = actions@;
            proof {
                assert forall|j2: int| 0 <= j2 < i as int implies (
                #[trigger] state.open_trades@[j2]).id != state.open_trades@[i as int].id by {}
                crate::state::lemma_trade_by_id_at(state.open_trades@, i as int);
                assert(risk_trigger(*state, state.open_trades@[i as int]));
                assert forall|k: int| 0 <= k < pre_actions.len() implies (
                #[trigger] pre_actions[k]).0 != tid by {
                    let idx = choose|idx: int|
                        0 <= idx < i && (#[trigger] pre_actions[k]).0 == (
                        #[trigger] state.open_trades@[idx]).id;
                    assert(state.open_trades@[idx].id != state.open_trades@[i as int].id);
                }
            }
            actions.push((tid, liq, mark_hit));
            proof {
                assert forall|k1: int, k2: int| 0 <= k1 < k2 < actions@.len() implies (
                #[trigger] actions@[k1]).0 != (#[trigger] actions@[k2]).0 by {
                    assert(actions@[k1] == pre_actions[k1]);
                    if k2 < actions@.len() - 1 {
                        assert(actions@[k2] == pre_actions[k2]);
                    } else {
                        assert(actions@[k2].0 == tid);
                    }
                }
                assert forall|idx: int| 0 <= idx < i + 1 implies (risk_trigger(
                    *state,
                    #[trigger] state.open_trades@[idx],
                ) ==> exists|k: int|
                    0 <= k < actions@.len() && (#[trigger] actions@[k]).0
                        == state.open_trades@[idx].id) by {
                    if idx == i as int {
                        assert(actions@[actions@.len() - 1].0 == state.open_trades@[
                            i as int
                        ].id);
                    } else {
                        if risk_trigger(*state, state.open_trades@[idx]) {
                            let k = choose|k: int|
                                0 <= k < pre_actions.len() && (#[trigger] pre_actions[k]).0
                                    == state.open_trades@[idx].id;
                            assert(actions@[k] == pre_actions[k]);
                            assert(actions@[k].0 == state.open_trades@[idx].id);
                        }
                    }
                }
            }
        } else {
            proof {
                assert(!risk_trigger(*state, state.open_trades@[i as int]));
                assert forall|idx: int| 0 <= idx < i + 1 implies (risk_trigger(
                    *state,
                    #[trigger] state.open_trades@[idx],
                ) ==> exists|k: int|
                    0 <= k < actions@.len() && (#[trigger] actions@[k]).0
                        == state.open_trades@[idx].id) by {}
            }
        }
        i = i + 1;
    }
    proof {
        assert(*state == *old(state));
        assert forall|idx: int|
            0 <= idx < old(state).open_trades@.len() && risk_trigger(
                *old(state),
                #[trigger] old(state).open_trades@[idx],
            ) implies exists|k: int|
            0 <= k < actions@.len() && (#[trigger] actions@[k]).0 == old(
                state,
            ).open_trades@[idx].id by {}
        assert forall|k: int| 0 <= k < actions@.len() implies (match trade_by_id(
            old(state).open_trades@,
            (#[trigger] actions@[k]).0,
        ) {
            Some(t) => risk_trigger(*old(state), t),
            None => false,
        }) by {}
    }
    let mut evs: Vec<EngineEvent> = Vec::new();
    let mut j: usize = 0;
    while j < actions.len()
        invariant
            j <= actions@.len(),
            state_inv(*state),
            state.order_books@ == old(state).order_books@,
            state.prices@ == old(state).prices@,
            state.pending_trades@ == old(state).pending_trades@,
            state.next_order_id == old(state).next_order_id,
            state.deposits@ == old(state).deposits@,
            state.hold_base@ == old(state).hold_base@,
            state.correlation_ids@ == old(state).correlation_ids@,
            forall|id: u64|
                (match trade_by_id(old(state).open_trades@, id) {
                    Some(t) => !risk_trigger(*old(state), t),
                    None => true,
                }) ==> #[trigger] trade_by_id(state.open_trades@, id) == trade_by_id(
                    old(state).open_trades@,
                    id,
                ),
            forall|k: int|
                j <= k < actions@.len() ==> #[trigger] trade_by_id(
                    state.open_trades@,
                    actions@[k].0,
                ) == trade_by_id(old(state).open_trades@, actions@[k].0),
            risk_pass_ready(*old(state)) ==> (forall|k: int|
                0 <= k < j ==> #[trigger] trade_by_id(state.open_trades@, actions@[k].0)
                    is None),
            risk_pass_ready(*old(state)) ==> (forall|u: u64|
                -(j as int * 2_000_000_000_000_000_000_000_000_000) <= #[trigger] bal_of(
                    state.balances@,
                    u,
                ) - bal_of(old(state).balances@, u) <= j as int
                    * 2_000_000_000_000_000_000_000_000_000),
            forall|k2: int| 0 <= k2 < evs@.len() ==> (#[trigger] evs@[k2]) is Outcome,
            risk_pass_ready(*old(state)) ==> (forall|k2: (u64, u64)|
                -(j as int * 1_000_000_000_000) <= #[trigger] hold_of(state.holdings@, k2)
                    - hold_of(old(state).holdings@, k2) <= j as int * 1_000_000_000_000),
        decreases actions@.len() - j,
    {
        let (id, liq, mark) = (actions[j].0, actions[j].1, actions[j].2);
        let ghost pre_step = *state;
        proof {
            if risk_pass_ready(*old(state)) {
                assert(trade_by_id(pre_step.open_trades@, id) == trade_by_id(
                    old(state).open_trades@,
                    id,
                ));
                let t = trade_by_id(old(state).open_trades@, id).unwrap();
                crate::state::lemma_trade_by_id_index(old(state).open_trades@, id);
                let ti = choose|ti: int|
                    0 <= ti < old(state).open_trades@.len()
                        && #[trigger] old(state).open_trades@[ti] == t;
                assert(valid_trade(t));
                crate::pnl::lemma_pnl_bounded(
                    t.side,
                    t.entry_price as int,
                    mark as int,
                    t.quantity as int,
                    t.leverage as int,
                );
                if crate::alist::alist_lookup(old(state).balances@, t.user_id) is Some {
                    crate::alist::lemma_alist_lookup_entry(old(state).balances@, t.user_id);
                }
                if crate::hlist::hlist_lookup(old(state).holdings@, (t.user_id, t.asset))
                    is Some {
                    crate::hlist::lemma_hlist_lookup_entry(
                        old(state).holdings@,
                        (t.user_id, t.asset),
                    );
                }
            }
        }
        let res = close_trade_at(state, id, mark, liq);
        match res {
            Some(out) => {
                evs.push(EngineEvent::Outcome(out));
            },
            None => {},
        }
        proof {
            if risk_pass_ready(*old(state)) {
                let t = trade_by_id(old(state).open_trades@, id).unwrap();
                crate::pnl::lemma_pnl_bounded(
                    t.side,
                    t.entry_price as int,
                    mark as int,
                    t.quantity as int,
                    t.leverage as int,
                );
                assert(res is Some);
                assert(trade_by_id(pre_step.open_trades@, id) == Some(t));
                assert(match res {
                    Some(out) => out.user_id == t.user_id,
                    None => false,
                });
                assert(bal_of(state.balances@, t.user_id) == bal_of(
                    pre_step.balances@,
                    t.user_id,
                ) + crate::pnl::pnl_of(
                    t.side,
                    t.entry_price as int,
                    mark as int,
                    t.quantity as int,
                    t.leverage as int,
                ) + t.margin);
                assert forall|u: u64|
                    -((j + 1) as int * 2_000_000_000_000_000_000_000_000_000) <= #[trigger] bal_of(
                        state.balances@,
                        u,
                    ) - bal_of(old(state).balances@, u) <= (j + 1) as int
                        * 2_000_000_000_000_000_000_000_000_000 by {
                    assert(-(j as int * 2_000_000_000_000_000_000_000_000_000) <= bal_of(
                        pre_step.balances@,
                        u,
                    ) - bal_of(old(state).balances@, u) <= j as int
                        * 2_000_000_000_000_000_000_000_000_000);
                    if u != t.user_id {
                        let ghost r1 = map_val(state.realized@, u);
                        let ghost r2 = map_val(pre_step.realized@, u);
                        assert(bal_of(state.balances@, u) == bal_of(pre_step.balances@, u));
                    } else {
                        let pnl = crate::pnl::pnl_of(
                            t.side,
                            t.entry_price as int,
                            mark as int,
                            t.quantity as int,
                            t.leverage as int,
                        );
                        assert(bal_of(state.balances@, u) == bal_of(pre_step.balances@, u) + pnl
                            + t.margin);
                        assert(-crate::pnl::max_pnl_abs() <= pnl <= crate::pnl::max_pnl_abs());
                    }
                }
                assert forall|k2: (u64, u64)|
                    -((j + 1) as int * 1_000_000_000_000) <= #[trigger] hold_of(
                        state.holdings@,
                        k2,
                    ) - hold_of(old(state).holdings@, k2) <= (j + 1) as int * 1_000_000_000_000 by {
                    assert(-(j as int * 1_000_000_000_000) <= hold_of(pre_step.holdings@, k2)
                        - hold_of(old(state).holdings@, k2) <= j as int * 1_000_000_000_000);
                    if k2 != (t.user_id, t.asset) {
                        assert(hold_of(state.holdings@, k2) == hold_of(pre_step.holdings@, k2));
                    } else {
                        assert(hold_of(state.holdings@, k2) == hold_of(pre_step.holdings@, k2) + (
                        if t.side == Side::Sell {
                            t.quantity as int
                        } else {
                            -(t.quantity as int)
                        }));
                        assert(t.quantity <= crate::types::MAX_QTY);
                    }
                }
            }
        }
        j = j + 1;
    }
    proof {
        if risk_pass_ready(*old(state)) {
            assert forall|id: u64|
                (match trade_by_id(old(state).open_trades@, id) {
                    Some(t) => risk_trigger(*old(state), t),
                    None => false,
                }) implies #[trigger] trade_by_id(state.open_trades@, id) is None by {
                let t = trade_by_id(old(state).open_trades@, id).unwrap();
                crate::state::lemma_trade_by_id_index(old(state).open_trades@, id);
                let idx = choose|idx: int|
                    0 <= idx < old(state).open_trades@.len()
                        && #[trigger] old(state).open_trades@[idx] == t;
                assert(risk_trigger(*old(state), old(state).open_trades@[idx]));
                assert(exists|k: int|
                    0 <= k < actions@.len() && (#[trigger] actions@[k]).0 == old(
                        state,
                    ).open_trades@[idx].id);
                let k = choose|k: int|
                    0 <= k < actions@.len() && (#[trigger] actions@[k]).0 == old(
                        state,
                    ).open_trades@[idx].id;
                assert(actions@[k].0 == id);
                assert(trade_by_id(state.open_trades@, actions@[k].0) is None);
            }
        }
    }
    evs
}

} // verus!
