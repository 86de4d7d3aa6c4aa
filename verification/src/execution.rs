use vstd::prelude::*;

use crate::alist::{alist_lookup, alist_remove, alist_update, lemma_alist_remove, lemma_alist_update};
use crate::hlist::{hold_of, lemma_hlist_update, hlist_set};
use crate::pnl::{calculate_pnl};
use crate::state::{
    bal_of, checked_add_i128, lemma_locked_sum_remove,
    lemma_locked_sum_update, lemma_positions_net_remove, lemma_positions_net_update,
    lemma_trades_remove, lemma_trades_unique_pairwise, lemma_trades_update, locked_sum, map_val,
    opp_contrib, pair_val, pos_margin_of, positions_net, state_inv, trade_by_id,
    untouched_by_close, EngineState,
};
use crate::types::{valid_trade, Side, Trade, MAX_LEVERAGE, MAX_PRICE, MAX_QTY};

verus! {

use vstd::pervasive::VecAdditionalExecFns;

/// Whether this position belongs to the group a FIFO close consumes.
pub open spec fn matches_close(t: Trade, user: u64, asset: u64, pos_side: Side) -> bool {
    t.user_id == user && t.asset == asset && t.side == pos_side
}

/// The margin returned for closing `slice` units of a position:
/// its locked margin pro-rated by the closed share (spec rule).
pub open spec fn close_ret_of(t: Trade, slice: int) -> int {
    if t.quantity > 0 {
        (t.margin * slice) / (t.quantity as int)
    } else {
        0
    }
}

/// A position after `slice` of its units closed.
pub open spec fn shrunk(t: Trade, slice: int) -> Trade {
    Trade {
        quantity: (t.quantity - slice) as u64,
        margin: (t.margin - close_ret_of(t, slice)) as u64,
        ..t
    }
}

/// What a FIFO close computes, position by position in creation order:
/// the quantity closed, the PnL realised at the execution price, the
/// margin returned, and the surviving position list. This is the
/// money-side specification of spec rule on netting closes.
pub ghost struct CloseModel {
    pub closed: int,
    pub pnl: int,
    pub returned: int,
    pub trades: Seq<Trade>,
}

pub open spec fn close_model(
    ts: Seq<Trade>,
    user: u64,
    asset: u64,
    pos_side: Side,
    qty: int,
    price: int,
) -> CloseModel
    decreases ts.len(),
{
    if qty <= 0 || ts.len() == 0 {
        CloseModel { closed: 0, pnl: 0, returned: 0, trades: ts }
    } else {
        let t = ts[0];
        if !matches_close(t, user, asset, pos_side) {
            let m = close_model(ts.drop_first(), user, asset, pos_side, qty, price);
            CloseModel {
                closed: m.closed,
                pnl: m.pnl,
                returned: m.returned,
                trades: seq![t] + m.trades,
            }
        } else {
            let slice = if qty <= t.quantity {
                qty
            } else {
                t.quantity as int
            };
            let pnl_s = crate::pnl::pnl_of(
                pos_side,
                t.entry_price as int,
                price,
                slice,
                t.leverage as int,
            );
            let ret_s = close_ret_of(t, slice);
            if slice == t.quantity {
                let m = close_model(ts.drop_first(), user, asset, pos_side, qty - slice, price);
                CloseModel {
                    closed: slice + m.closed,
                    pnl: pnl_s + m.pnl,
                    returned: ret_s + m.returned,
                    trades: m.trades,
                }
            } else {
                CloseModel {
                    closed: slice,
                    pnl: pnl_s,
                    returned: ret_s,
                    trades: seq![shrunk(t, slice)] + ts.drop_first(),
                }
            }
        }
    }
}

/// A close over a list with no member of the group changes nothing.
proof fn lemma_close_model_nomatch(
    ts: Seq<Trade>,
    user: u64,
    asset: u64,
    pos_side: Side,
    qty: int,
    price: int,
)
    requires
        forall|j: int| 0 <= j < ts.len() ==> !matches_close(#[trigger] ts[j], user, asset, pos_side),
    ensures
        close_model(ts, user, asset, pos_side, qty, price).closed == 0,
        close_model(ts, user, asset, pos_side, qty, price).pnl == 0,
        close_model(ts, user, asset, pos_side, qty, price).returned == 0,
        close_model(ts, user, asset, pos_side, qty, price).trades == ts,
    decreases ts.len(),
{
    if qty <= 0 || ts.len() == 0 {
    } else {
        assert forall|j: int| 0 <= j < ts.drop_first().len() implies !matches_close(
            #[trigger] ts.drop_first()[j],
            user,
            asset,
            pos_side,
        ) by {
            assert(ts.drop_first()[j] == ts[j + 1]);
        }
        lemma_close_model_nomatch(ts.drop_first(), user, asset, pos_side, qty, price);
        assert(seq![ts[0]] + ts.drop_first() =~= ts);
    }
}

/// One FIFO step: with the first group member at index `i`, the model
/// closes a slice of it and continues on the shrunken list.
proof fn lemma_close_model_step(
    ts: Seq<Trade>,
    i: int,
    user: u64,
    asset: u64,
    pos_side: Side,
    qty: int,
    price: int,
)
    requires
        0 <= i < ts.len(),
        qty > 0,
        forall|j: int| 0 <= j < i ==> !matches_close(#[trigger] ts[j], user, asset, pos_side),
        matches_close(ts[i], user, asset, pos_side),
    ensures
        ({
            let t = ts[i];
            let slice = if qty <= t.quantity {
                qty
            } else {
                t.quantity as int
            };
            let pnl_s = crate::pnl::pnl_of(
                pos_side,
                t.entry_price as int,
                price,
                slice,
                t.leverage as int,
            );
            let ret_s = close_ret_of(t, slice);
            let m = close_model(ts, user, asset, pos_side, qty, price);
            &&& (slice == t.quantity ==> ({
                let m2 = close_model(ts.remove(i), user, asset, pos_side, qty - slice, price);
                m.closed == slice + m2.closed && m.pnl == pnl_s + m2.pnl && m.returned == ret_s
                    + m2.returned && m.trades == m2.trades
            }))
            &&& (slice < t.quantity ==> (m.closed == slice && m.pnl == pnl_s && m.returned
                == ret_s && m.trades == ts.update(i, shrunk(t, slice))))
        }),
    decreases i,
{
    let t = ts[i];
    let slice = if qty <= t.quantity {
        qty
    } else {
        t.quantity as int
    };
    if i == 0 {
        assert(ts.remove(0) =~= ts.drop_first());
        if slice < t.quantity {
            assert(seq![shrunk(t, slice)] + ts.drop_first() =~= ts.update(0, shrunk(t, slice)));
        }
    } else {
        assert forall|j: int| 0 <= j < i - 1 implies !matches_close(
            #[trigger] ts.drop_first()[j],
            user,
            asset,
            pos_side,
        ) by {
            assert(ts.drop_first()[j] == ts[j + 1]);
        }
        assert(ts.drop_first()[i - 1] == ts[i]);
        lemma_close_model_step(ts.drop_first(), i - 1, user, asset, pos_side, qty, price);
        if slice == t.quantity {
            assert(ts.remove(i).drop_first() =~= ts.drop_first().remove(i - 1));
            assert(ts.remove(i)[0] == ts[0]);
            let m2 = close_model(ts.remove(i), user, asset, pos_side, qty - slice, price);
            if qty - slice <= 0 {
                assert(seq![ts[0]] + ts.remove(i).drop_first() =~= ts.remove(i));
            }
        } else {
            assert(ts.update(i, shrunk(t, slice)).drop_first() =~= ts.drop_first().update(
                i - 1,
                shrunk(t, slice),
            ));
            assert(ts.update(i, shrunk(t, slice))[0] == ts[0]);
            assert(seq![ts[0]] + ts.drop_first().update(i - 1, shrunk(t, slice)) =~= ts.update(
                i,
                shrunk(t, slice),
            ));
        }
    }
}

/// What closing against existing positions did: quantity closed, the
/// PnL realised, the margin returned, the entry price of the first
/// position touched, and whether an arithmetic guard stopped the run.
pub struct CloseSummary {
    pub closed: u64,
    pub pnl: i128,
    pub returned: u128,
    pub entry_price: u64,
    pub fault: bool,
}

/// Close up to `qty` units of the user's `pos_side` positions in
/// `asset` at `price`, oldest position first. Realised PnL plus the
/// pro-rated locked margin of every closed slice is credited to the
/// user's balance; holdings and the locked-margin ledger move in step,
/// which is exactly what conservation states.
#[verifier::rlimit(100)]
pub fn close_against_positions(
    state: &mut EngineState,
    user: u64,
    asset: u64,
    pos_side: Side,
    qty: u64,
    price: u64,
) -> (r: CloseSummary)
    requires
        state_inv(*old(state)),
        0 < price <= MAX_PRICE,
        qty <= MAX_QTY,
    ensures
        state_inv(*final(state)),
        r.closed <= qty,
        final(state).order_books@ == old(state).order_books@,
        final(state).prices@ == old(state).prices@,
        final(state).pending_trades@ == old(state).pending_trades@,
        final(state).next_order_id == old(state).next_order_id,
        final(state).deposits@ == old(state).deposits@,
        final(state).hold_base@ == old(state).hold_base@,
        final(state).correlation_ids@ == old(state).correlation_ids@,
        bal_of(final(state).balances@, user) == bal_of(old(state).balances@, user) + r.pnl
            + r.returned,
        forall|u2: u64| u2 != user ==> bal_of(final(state).balances@, u2) == bal_of(
            old(state).balances@,
            u2,
        ),
        map_val(final(state).realized@, user) == map_val(old(state).realized@, user) + r.pnl,
        forall|u2: u64| u2 != user ==> map_val(final(state).realized@, u2) == map_val(
            old(state).realized@,
            u2,
        ),
        hold_of(final(state).holdings@, (user, asset)) == hold_of(
            old(state).holdings@,
            (user, asset),
        ) + (if pos_side == Side::Sell {
            r.closed as int
        } else {
            -(r.closed as int)
        }),
        forall|k: (u64, u64)| k != (user, asset) ==> hold_of(final(state).holdings@, k) == hold_of(
            old(state).holdings@,
            k,
        ),
        !r.fault ==> (r.closed == qty || (forall|j: int|
            0 <= j < final(state).open_trades@.len() ==> opp_contrib(
                #[trigger] final(state).open_trades@[j],
                user,
                asset,
                pos_side,
            ) == 0)),
        // positions other than the user's closable ones, and their
        // ledger entries, are untouched
        forall|id2: u64|
            untouched_by_close(old(state).open_trades@, id2, user, asset, pos_side)
                ==> #[trigger] trade_by_id(final(state).open_trades@, id2) == trade_by_id(
                old(state).open_trades@,
                id2,
            ),
        forall|id2: u64|
            untouched_by_close(old(state).open_trades@, id2, user, asset, pos_side)
                ==> #[trigger] alist_lookup(final(state).locked_margins@, id2) == alist_lookup(
                old(state).locked_margins@,
                id2,
            ),
        // completeness: with headroom on the user's balance and
        // holdings, no arithmetic guard can interrupt the run
        (-crate::types::CREDIT_HEADROOM <= bal_of(old(state).balances@, user)
            <= crate::types::CREDIT_HEADROOM && -crate::types::CREDIT_HEADROOM <= hold_of(
            old(state).holdings@,
            (user, asset),
        ) <= crate::types::CREDIT_HEADROOM) ==> !r.fault,
        -(MAX_PRICE as int * MAX_LEVERAGE as int * r.closed as int) <= r.pnl as int <= MAX_PRICE
            as int * MAX_LEVERAGE as int * r.closed as int,
        r.returned as int <= r.closed as int * 0xffff_ffff_ffff_ffffu64 as int,
        // the money side is exactly the FIFO close model: PnL and
        // margin returns are the per-slice formulas over the closed
        // positions, and the position list is the model's survivor list
        !r.fault ==> ({
            let m = close_model(
                old(state).open_trades@,
                user,
                asset,
                pos_side,
                qty as int,
                price as int,
            );
            r.closed as int == m.closed && r.pnl as int == m.pnl && r.returned as int
                == m.returned && final(state).open_trades@ == m.trades
        }),
{
    let mut remaining: u64 = qty;
    let mut closed: u64 = 0;
    let mut pnl: i128 = 0;
    let mut returned: u128 = 0;
    let mut entry_price: u64 = 0;
    let mut fault: bool = false;
    let mut exhausted: bool = false;

    while remaining > 0 && !fault && !exhausted
        invariant
            state_inv(*state),
            0 < price <= MAX_PRICE,
            qty <= MAX_QTY,
            closed + remaining == qty,
            state.order_books@ == old(state).order_books@,
            state.prices@ == old(state).prices@,
            state.pending_trades@ == old(state).pending_trades@,
            state.next_order_id == old(state).next_order_id,
            state.deposits@ == old(state).deposits@,
            state.hold_base@ == old(state).hold_base@,
            state.correlation_ids@ == old(state).correlation_ids@,
            bal_of(state.balances@, user) == bal_of(old(state).balances@, user) + pnl + returned,
            forall|u2: u64| u2 != user ==> bal_of(state.balances@, u2) == bal_of(
                old(state).balances@,
                u2,
            ),
            map_val(state.realized@, user) == map_val(old(state).realized@, user) + pnl,
            forall|u2: u64| u2 != user ==> map_val(state.realized@, u2) == map_val(
                old(state).realized@,
                u2,
            ),
            hold_of(state.holdings@, (user, asset)) == hold_of(old(state).holdings@, (user, asset))
                + (if pos_side == Side::Sell {
                closed as int
            } else {
                -(closed as int)
            }),
            forall|k: (u64, u64)| k != (user, asset) ==> hold_of(state.holdings@, k) == hold_of(
                old(state).holdings@,
                k,
            ),
            -(MAX_PRICE as int * MAX_LEVERAGE as int * closed as int) <= pnl as int <= MAX_PRICE
                as int * MAX_LEVERAGE as int * closed as int,
            returned as int <= closed as int * 0xffff_ffff_ffff_ffffu64 as int,
            exhausted ==> (forall|j: int|
                0 <= j < state.open_trades@.len() ==> opp_contrib(
                    #[trigger] state.open_trades@[j],
                    user,
                    asset,
                    pos_side,
                ) == 0),
            forall|id2: u64|
                untouched_by_close(old(state).open_trades@, id2, user, asset, pos_side)
                    ==> #[trigger] trade_by_id(state.open_trades@, id2) == trade_by_id(
                    old(state).open_trades@,
                    id2,
                ),
            forall|id2: u64|
                untouched_by_close(old(state).open_trades@, id2, user, asset, pos_side)
                    ==> #[trigger] alist_lookup(state.locked_margins@, id2) == alist_lookup(
                    old(state).locked_margins@,
                    id2,
                ),
            (-crate::types::CREDIT_HEADROOM <= bal_of(old(state).balances@, user)
                <= crate::types::CREDIT_HEADROOM && -crate::types::CREDIT_HEADROOM <= hold_of(
                old(state).holdings@,
                (user, asset),
            ) <= crate::types::CREDIT_HEADROOM) ==> !fault,
            !fault ==> ({
                let m0 = close_model(
                    old(state).open_trades@,
                    user,
                    asset,
                    pos_side,
                    qty as int,
                    price as int,
                );
                let mc = close_model(
                    state.open_trades@,
                    user,
                    asset,
                    pos_side,
                    remaining as int,
                    price as int,
                );
                m0.closed == closed + mc.closed && m0.pnl == pnl + mc.pnl && m0.returned
                    == returned + mc.returned && m0.trades == mc.trades
            }),
        decreases remaining as int + (if fault || exhausted {
            0int
        } else {
            1int
        }),
    {
        let found = state.find_first_position(user, asset, pos_side);
        match found {
            None => {
                exhausted = true;
            },
            Some(i) => {
                let ghost t0 = state.open_trades@[i as int];
                let t = &state.open_trades[i];
                let tid = t.id;
                let tqty = t.quantity;
                let tmargin = t.margin;
                let tentry = t.entry_price;
                let tlev = t.leverage;
                proof {
                    assert(valid_trade(t0));
                    assert(match alist_lookup(state.locked_margins@, t0.id) {
                        Some(e) => e.0 == t0.user_id && e.1 >= t0.margin,
                        None => t0.margin == 0,
                    });
                    if alist_lookup(state.locked_margins@, t0.id) is Some {
                        crate::alist::lemma_alist_some_key_at(state.locked_margins@, t0.id);
                    }
                }
                let slice: u64 = if remaining < tqty {
                    remaining
                } else {
                    tqty
                };
                if closed == 0 {
                    entry_price = tentry;
                }
                let pnl_s: i128 = calculate_pnl(pos_side, tentry, price, slice, tlev);
                proof {
                    assert(tmargin as int * slice as int <= tmargin as int * tqty as int)
                        by (nonlinear_arith)
                        requires
                            0 <= tmargin,
                            0 <= slice <= tqty as int,
                    ;
                    assert((tmargin as int * slice as int) / tqty as int <= tmargin as int) by {
                        vstd::arithmetic::div_mod::lemma_div_is_ordered(
                            tmargin as int * slice as int,
                            tmargin as int * tqty as int,
                            tqty as int,
                        );
                        vstd::arithmetic::div_mod::lemma_div_multiples_vanish(
                            tmargin as int,
                            tqty as int,
                        );
                    }
                }
                proof {
                    assert(tmargin as int * slice as int <= 0xffff_ffff_ffff_ffffu64 as int
                        * 0xffff_ffff_ffff_ffffu64 as int) by (nonlinear_arith)
                        requires
                            0 <= tmargin as int <= 0xffff_ffff_ffff_ffffu64 as int,
                            0 <= slice as int <= 0xffff_ffff_ffff_ffffu64 as int,
                    ;
                }
                let ret_s: u64 = ((tmargin as u128 * slice as u128) / tqty as u128) as u64;
                let old_bal = match state.get_balance(user) {
                    Some(b) => b,
                    None => 0,
                };
                let delta: i128 = pnl_s + ret_s as i128;
                let nb_opt = checked_add_i128(old_bal, delta);
                let old_h = match state.get_holdings(user, asset) {
                    Some(h) => h,
                    None => 0,
                };
                let hdelta: i128 = if matches!(pos_side, Side::Buy) {
                    -(slice as i128)
                } else {
                    slice as i128
                };
                let nh_opt = checked_add_i128(old_h, hdelta);
                match (nb_opt, nh_opt) {
                    (Some(nb), Some(nh)) => {
                        let ghost pre = *state;
                        let ghost t0 = state.open_trades@[i as int];
                        proof {
                            lemma_trades_unique_pairwise(pre.open_trades@);
                        }
                        // balance
                        crate::alist::alist_set(&mut state.balances, user, nb);
                        // holdings
                        hlist_set(&mut state.holdings, (user, asset), nh);
                        // locked margin ledger
                        let amt = state.get_locked_margin_or(tid, 0);
                        state.set_locked_margin(tid, user, amt - ret_s);
                        // the position itself
                        if slice == tqty {
                            state.open_trades.remove(i);
                        } else {
                            let t2 = Trade {
                                quantity: tqty - slice,
                                margin: tmargin - ret_s,
                                ..state.open_trades[i].clone_trade()
                            };
                            state.open_trades.set(i, t2);
                        }
                        // realised-PnL ghost ledger
                        proof {
                            state.realized = Ghost(
                                pre.realized@.insert(user, map_val(pre.realized@, user) + pnl_s),
                            );
                        }
                        proof {
                            let ghost mid = *state;
                            lemma_alist_update(pre.balances@, user, nb);
                            lemma_hlist_update(pre.holdings@, (user, asset), nh);
                            let e2 = (user, (amt - ret_s) as u64);
                            if amt - ret_s > 0 {
                                lemma_alist_update(pre.locked_margins@, tid, e2);
                                lemma_locked_sum_update(pre.locked_margins@, tid, e2, user);
                                crate::state::lemma_keys_below_update(
                                    pre.locked_margins@,
                                    tid,
                                    e2,
                                    pre.next_order_id,
                                );
                            } else {
                                lemma_alist_remove(pre.locked_margins@, tid);
                                lemma_locked_sum_remove(pre.locked_margins@, tid, user);
                                crate::state::lemma_keys_below_remove(
                                    pre.locked_margins@,
                                    tid,
                                    pre.next_order_id,
                                );
                            }
                            assert forall|u2: u64| u2 != user implies locked_sum(
                                mid.locked_margins@,
                                u2,
                            ) == locked_sum(pre.locked_margins@, u2) by {
                                if amt - ret_s > 0 {
                                    lemma_locked_sum_update(
                                        pre.locked_margins@,
                                        tid,
                                        (user, (amt - ret_s) as u64),
                                        u2,
                                    );
                                } else {
                                    lemma_locked_sum_remove(pre.locked_margins@, tid, u2);
                                }
                            }
                            if slice == tqty {
                                lemma_trades_remove(pre.open_trades@, i as int);
                                lemma_positions_net_remove(pre.open_trades@, i as int, user, asset);
                                assert forall|u2: u64, a2: u64| !(u2 == user && a2 == asset)
                                    implies positions_net(mid.open_trades@, u2, a2)
                                    == positions_net(pre.open_trades@, u2, a2) by {
                                    lemma_positions_net_remove(pre.open_trades@, i as int, u2, a2);
                                }
                            } else {
                                let t2 = mid.open_trades@[i as int];
                                lemma_trades_update(pre.open_trades@, i as int, t2);
                                lemma_positions_net_update(
                                    pre.open_trades@,
                                    i as int,
                                    t2,
                                    user,
                                    asset,
                                );
                                assert forall|u2: u64, a2: u64| !(u2 == user && a2 == asset)
                                    implies positions_net(mid.open_trades@, u2, a2)
                                    == positions_net(pre.open_trades@, u2, a2) by {
                                    lemma_positions_net_update(
                                        pre.open_trades@,
                                        i as int,
                                        t2,
                                        u2,
                                        a2,
                                    );
                                }
                            }
                            // the money moved is one step of the FIFO close model
                            assert forall|j2: int| 0 <= j2 < i as int implies !matches_close(
                                #[trigger] pre.open_trades@[j2],
                                user,
                                asset,
                                pos_side,
                            ) by {
                                assert(valid_trade(pre.open_trades@[j2]));
                                assert(opp_contrib(pre.open_trades@[j2], user, asset, pos_side)
                                    == 0);
                            }
                            assert(matches_close(t0, user, asset, pos_side));
                            lemma_close_model_step(
                                pre.open_trades@,
                                i as int,
                                user,
                                asset,
                                pos_side,
                                remaining as int,
                                price as int,
                            );
                            // conservation: the user's balance moved by the slice's
                            // PnL plus returned margin, the ledger moved down by
                            // the same returned margin, realised PnL absorbed the rest.
                            assert forall|u2: u64|
                                bal_of(mid.balances@, u2) + locked_sum(mid.locked_margins@, u2)
                                    == map_val(mid.deposits@, u2) + map_val(
                                    mid.realized@,
                                    u2,
                                ) by {
                                if u2 == user {
                                    assert(bal_of(mid.balances@, user) == nb as int);
                                } else {
                                    assert(bal_of(mid.balances@, u2) == bal_of(pre.balances@, u2));
                                    assert(map_val(mid.realized@, u2) == map_val(
                                        pre.realized@,
                                        u2,
                                    ));
                                }
                            }
                            // holdings stay the mirror of open positions.
                            assert forall|u2: u64, a2: u64|
                                hold_of(mid.holdings@, (u2, a2)) == pair_val(
                                    mid.hold_base@,
                                    (u2, a2),
                                ) + positions_net(mid.open_trades@, u2, a2) by {
                                if u2 == user && a2 == asset {
                                    assert(hold_of(mid.holdings@, (user, asset)) == nh as int);
                                } else {
                                    assert(hold_of(mid.holdings@, (u2, a2)) == hold_of(
                                        pre.holdings@,
                                        (u2, a2),
                                    ));
                                }
                            }
                            // every surviving position is still in range.
                            assert forall|j: int| 0 <= j < mid.open_trades@.len() implies
                                valid_trade(#[trigger] mid.open_trades@[j]) by {
                                if slice == tqty {
                                    let jj = if j < i as int {
                                        j
                                    } else {
                                        j + 1
                                    };
                                    assert(mid.open_trades@[j] == pre.open_trades@[jj]);
                                } else {
                                    if j != i as int {
                                        assert(mid.open_trades@[j] == pre.open_trades@[j]);
                                    }
                                }
                            }
                            // only this user's closable positions were touched
                            assert forall|j2: int| 0 <= j2 < i as int implies (
                            #[trigger] pre.open_trades@[j2]).id != pre.open_trades@[i as int].id by {}
                            crate::state::lemma_trade_by_id_at(pre.open_trades@, i as int);
                            assert(!untouched_by_close(
                                old(state).open_trades@,
                                tid,
                                user,
                                asset,
                                pos_side,
                            ));
                            assert forall|id2: u64|
                                untouched_by_close(
                                    old(state).open_trades@,
                                    id2,
                                    user,
                                    asset,
                                    pos_side,
                                ) implies #[trigger] trade_by_id(state.open_trades@, id2)
                                == trade_by_id(old(state).open_trades@, id2) by {
                                assert(id2 != tid);
                            }
                            assert forall|id2: u64|
                                untouched_by_close(
                                    old(state).open_trades@,
                                    id2,
                                    user,
                                    asset,
                                    pos_side,
                                ) implies #[trigger] alist_lookup(state.locked_margins@, id2)
                                == alist_lookup(old(state).locked_margins@, id2) by {
                                assert(id2 != tid);
                            }
                            // margins still covered: only the entry under tid moved,
                            // and only the position at i claims it.
                            assert forall|j: int| 0 <= j < state.open_trades@.len() implies {
                                let tj = #[trigger] state.open_trades@[j];
                                match alist_lookup(state.locked_margins@, tj.id) {
                                    Some(e) => e.0 == tj.user_id && e.1 >= tj.margin,
                                    None => tj.margin == 0,
                                }
                            } by {
                                if slice == tqty {
                                    let jj = if j < i as int {
                                        j
                                    } else {
                                        j + 1
                                    };
                                    assert(mid.open_trades@[j] == pre.open_trades@[jj]);
                                    assert(pre.open_trades@[jj].id != tid);
                                    assert(alist_lookup(mid.locked_margins@, pre.open_trades@[jj].id)
                                        == alist_lookup(
                                        pre.locked_margins@,
                                        pre.open_trades@[jj].id,
                                    ));
                                } else {
                                    if j != i as int {
                                        assert(mid.open_trades@[j] == pre.open_trades@[j]);
                                        assert(pre.open_trades@[j].id != tid);
                                        assert(alist_lookup(
                                            mid.locked_margins@,
                                            pre.open_trades@[j].id,
                                        ) == alist_lookup(
                                            pre.locked_margins@,
                                            pre.open_trades@[j].id,
                                        ));
                                    } else {
                                        let tj = mid.open_trades@[j];
                                        assert(tj.id == tid);
                                        assert(tj.margin == tmargin - ret_s);
                                        if amt - ret_s > 0 {
                                            assert(alist_lookup(mid.locked_margins@, tid)
                                                == Some((user, (amt - ret_s) as u64)));
                                        } else {
                                            assert(alist_lookup(mid.locked_margins@, tid)
                                                is None);
                                            assert(amt == ret_s);
                                            assert(tj.margin == 0);
                                        }
                                    }
                                }
                            }
                        }
                        proof {
                            assert(pnl_s + pnl as int <= MAX_PRICE as int * MAX_LEVERAGE as int * (
                            closed + slice) as int && pnl_s + pnl as int >= -(MAX_PRICE as int
                                * MAX_LEVERAGE as int * (closed + slice) as int))
                                by (nonlinear_arith)
                                requires
                                    -(MAX_PRICE as int * MAX_LEVERAGE as int * closed as int)
                                        <= pnl as int <= MAX_PRICE as int * MAX_LEVERAGE as int
                                        * closed as int,
                                    -(MAX_PRICE as int * MAX_LEVERAGE as int * slice as int)
                                        <= pnl_s as int <= MAX_PRICE as int * MAX_LEVERAGE as int
                                        * slice as int,
                            ;
                            assert(returned as int + ret_s as int <= (closed + slice) as int
                                * 0xffff_ffff_ffff_ffffu64 as int) by (nonlinear_arith)
                                requires
                                    returned as int <= closed as int * 0xffff_ffff_ffff_ffffu64
                                        as int,
                                    0 <= ret_s as int <= 0xffff_ffff_ffff_ffffu64 as int,
                                    1 <= slice as int,
                            ;
                        }
                        pnl = pnl + pnl_s;
                        returned = returned + ret_s as u128;
                        closed = closed + slice;
                        remaining = remaining - slice;
                    },
                    _ => {
                        proof {
                            if -crate::types::CREDIT_HEADROOM <= bal_of(
                                old(state).balances@,
                                user,
                            ) <= crate::types::CREDIT_HEADROOM
                                && -crate::types::CREDIT_HEADROOM <= hold_of(
                                old(state).holdings@,
                                (user, asset),
                            ) <= crate::types::CREDIT_HEADROOM {
                                assert(pnl as int <= MAX_PRICE as int * MAX_LEVERAGE as int
                                    * MAX_QTY as int && pnl as int >= -(MAX_PRICE as int
                                    * MAX_LEVERAGE as int * MAX_QTY as int))
                                    by (nonlinear_arith)
                                    requires
                                        -(MAX_PRICE as int * MAX_LEVERAGE as int
                                            * closed as int) <= pnl as int <= MAX_PRICE as int
                                            * MAX_LEVERAGE as int * closed as int,
                                        0 <= closed as int <= MAX_QTY as int,
                                ;
                                assert(returned as int <= MAX_QTY as int
                                    * 0xffff_ffff_ffff_ffffu64 as int) by (nonlinear_arith)
                                    requires
                                        returned as int <= closed as int
                                            * 0xffff_ffff_ffff_ffffu64 as int,
                                        0 <= closed as int <= MAX_QTY as int,
                                ;
                                assert(false);
                            }
                        }
                        fault = true;
                    },
                }
            },
        }
    }
    proof {
        if !fault && exhausted {
            assert forall|j: int| 0 <= j < state.open_trades@.len() implies !matches_close(
                #[trigger] state.open_trades@[j],
                user,
                asset,
                pos_side,
            ) by {
                assert(valid_trade(state.open_trades@[j]));
                assert(opp_contrib(state.open_trades@[j], user, asset, pos_side) == 0);
            }
            lemma_close_model_nomatch(
                state.open_trades@,
                user,
                asset,
                pos_side,
                remaining as int,
                price as int,
            );
        }
    }
    CloseSummary { closed, pnl, returned, entry_price, fault }
}

/// Open a new position, or extend the one this order already opened:
/// quantity and margin grow, the entry price becomes the quantity-
/// weighted average. Only holdings and the position list move; the
/// margin was already locked, so conservation is untouched.
#[verifier::rlimit(100)]
pub fn open_or_extend_position(
    state: &mut EngineState,
    id: u64,
    uuid: String,
    user: u64,
    asset: u64,
    side: Side,
    qty: u64,
    price: u64,
    m_add: u64,
    leverage: u64,
    sl: Option<u64>,
    tp: Option<u64>,
    created_at: i64,
) -> (ok: bool)
    requires
        state_inv(*old(state)),
        id < old(state).next_order_id,
        0 < qty <= MAX_QTY,
        0 < price <= MAX_PRICE,
        1 <= leverage <= MAX_LEVERAGE,
        (match sl {
            Some(p) => p <= crate::types::MAX_PERCENT,
            None => true,
        }),
        (match tp {
            Some(p) => p <= crate::types::MAX_PERCENT,
            None => true,
        }),
        (match alist_lookup(old(state).locked_margins@, id) {
            Some(e) => e.0 == user && e.1 as int >= crate::state::pos_margin_of(
                old(state).open_trades@,
                id,
            ) + m_add,
            None => m_add == 0 && crate::state::pos_margin_of(old(state).open_trades@, id) == 0,
        }),
        (match trade_by_id(old(state).open_trades@, id) {
            Some(t) => t.user_id == user && t.asset == asset && t.side == side,
            None => true,
        }),
    ensures
        state_inv(*final(state)),
        final(state).balances@ == old(state).balances@,
        final(state).locked_margins@ == old(state).locked_margins@,
        final(state).order_books@ == old(state).order_books@,
        final(state).prices@ == old(state).prices@,
        final(state).pending_trades@ == old(state).pending_trades@,
        final(state).next_order_id == old(state).next_order_id,
        final(state).deposits@ == old(state).deposits@,
        final(state).realized@ == old(state).realized@,
        final(state).hold_base@ == old(state).hold_base@,
        final(state).correlation_ids@ == old(state).correlation_ids@,
        !ok ==> final(state).open_trades@ == old(state).open_trades@ && final(state).holdings@
            == old(state).holdings@,
        ok ==> hold_of(final(state).holdings@, (user, asset)) == hold_of(
            old(state).holdings@,
            (user, asset),
        ) + (if side == Side::Buy {
            qty as int
        } else {
            -(qty as int)
        }),
        ok ==> (forall|k: (u64, u64)|
            k != (user, asset) ==> hold_of(final(state).holdings@, k) == hold_of(
                old(state).holdings@,
                k,
            )),
        ok ==> (match trade_by_id(final(state).open_trades@, id) {
            Some(t) => t.user_id == user && t.asset == asset && t.side == side && t.quantity
                as int == (match trade_by_id(old(state).open_trades@, id) {
                Some(t0) => t0.quantity as int,
                None => 0,
            }) + qty && t.margin as int == crate::state::pos_margin_of(
                old(state).open_trades@,
                id,
            ) + m_add,
            None => false,
        }),
        ok ==> (forall|id2: u64|
            id2 != id ==> #[trigger] trade_by_id(final(state).open_trades@, id2) == trade_by_id(
                old(state).open_trades@,
                id2,
            )),
        // completeness: opening is owed whenever the extended position
        // stays within the engine's ranges and the holdings move fits
        ({
            let old_q = match trade_by_id(old(state).open_trades@, id) {
                Some(t) => t.quantity as int,
                None => 0,
            };
            let old_m = crate::state::pos_margin_of(old(state).open_trades@, id);
            let nh = hold_of(old(state).holdings@, (user, asset)) + (if side == Side::Buy {
                qty as int
            } else {
                -(qty as int)
            });
            (old_q + qty <= MAX_QTY && m_add <= crate::types::MAX_MARGIN && old_m + m_add
                <= crate::types::MAX_MARGIN && i128::MIN <= nh <= i128::MAX) ==> ok
        }),
{
    let found = state.find_trade(id);
    match found {
        Some(i) => {
            let ghost t0 = state.open_trades@[i as int];
            let old_qty = state.open_trades[i].quantity;
            let old_margin = state.open_trades[i].margin;
            let old_entry = state.open_trades[i].entry_price;
            proof {
                assert(valid_trade(t0));
            }
            if old_qty > MAX_QTY - qty || m_add > crate::types::MAX_MARGIN || old_margin
                > crate::types::MAX_MARGIN - m_add {
                return false;
            }
            let sum_qty = old_qty + qty;
            proof {
                assert(old_entry as int * old_qty as int + price as int * qty as int <= MAX_PRICE
                    as int * sum_qty as int && old_entry as int * old_qty as int + price as int
                    * qty as int >= 1 * sum_qty as int) by (nonlinear_arith)
                    requires
                        0 < old_entry as int <= MAX_PRICE as int,
                        0 < price as int <= MAX_PRICE as int,
                        0 < old_qty,
                        0 < qty,
                        sum_qty as int == old_qty as int + qty as int,
                ;
                vstd::arithmetic::div_mod::lemma_div_is_ordered(
                    1 * sum_qty as int,
                    old_entry as int * old_qty as int + price as int * qty as int,
                    sum_qty as int,
                );
                vstd::arithmetic::div_mod::lemma_div_is_ordered(
                    old_entry as int * old_qty as int + price as int * qty as int,
                    MAX_PRICE as int * sum_qty as int,
                    sum_qty as int,
                );
                vstd::arithmetic::div_mod::lemma_div_multiples_vanish(1int, sum_qty as int);
                vstd::arithmetic::div_mod::lemma_div_multiples_vanish(
                    MAX_PRICE as int,
                    sum_qty as int,
                );
            }
            let new_entry: u64 = ((old_entry as u128 * old_qty as u128 + price as u128
                * qty as u128) / sum_qty as u128) as u64;
            let old_h = match state.get_holdings(user, asset) {
                Some(h) => h,
                None => 0,
            };
            let hdelta: i128 = if matches!(side, Side::Buy) {
                qty as i128
            } else {
                -(qty as i128)
            };
            let nh = match checked_add_i128(old_h, hdelta) {
                Some(nh) => nh,
                None => {
                    return false;
                },
            };
            let ghost pre = *state;
            let t2 = Trade {
                quantity: sum_qty,
                margin: old_margin + m_add,
                entry_price: new_entry,
                ..state.open_trades[i].clone_trade()
            };
            state.open_trades.set(i, t2);
            hlist_set(&mut state.holdings, (user, asset), nh);
            proof {
                lemma_hlist_update(pre.holdings@, (user, asset), nh);
                lemma_trades_update(pre.open_trades@, i as int, state.open_trades@[i as int]);
                lemma_positions_net_update(
                    pre.open_trades@,
                    i as int,
                    state.open_trades@[i as int],
                    user,
                    asset,
                );
                assert forall|u2: u64, a2: u64|
                    hold_of(state.holdings@, (u2, a2)) == pair_val(state.hold_base@, (u2, a2))
                        + positions_net(state.open_trades@, u2, a2) by {
                    if !(u2 == user && a2 == asset) {
                        lemma_positions_net_update(
                            pre.open_trades@,
                            i as int,
                            state.open_trades@[i as int],
                            u2,
                            a2,
                        );
                        assert(hold_of(state.holdings@, (u2, a2)) == hold_of(
                            pre.holdings@,
                            (u2, a2),
                        ));
                    }
                }
                lemma_trades_unique_pairwise(pre.open_trades@);
                assert forall|j: int| 0 <= j < state.open_trades@.len() implies valid_trade(
                    #[trigger] state.open_trades@[j],
                ) by {
                    if j != i as int {
                        assert(state.open_trades@[j] == pre.open_trades@[j]);
                    }
                }
                assert forall|j: int| 0 <= j < state.open_trades@.len() implies {
                    let tj = #[trigger] state.open_trades@[j];
                    match alist_lookup(state.locked_margins@, tj.id) {
                        Some(e) => e.0 == tj.user_id && e.1 >= tj.margin,
                        None => tj.margin == 0,
                    }
                } by {
                    if j != i as int {
                        assert(state.open_trades@[j] == pre.open_trades@[j]);
                    }
                }
            }
            true
        },
        None => {
            if m_add > crate::types::MAX_MARGIN {
                return false;
            }
            let old_h = match state.get_holdings(user, asset) {
                Some(h) => h,
                None => 0,
            };
            let hdelta: i128 = if matches!(side, Side::Buy) {
                qty as i128
            } else {
                -(qty as i128)
            };
            let nh = match checked_add_i128(old_h, hdelta) {
                Some(nh) => nh,
                None => {
                    return false;
                },
            };
            let ghost pre = *state;
            let t2 = Trade {
                id,
                uuid,
                user_id: user,
                asset,
                side,
                margin: m_add,
                leverage,
                quantity: qty,
                entry_price: price,
                stop_loss_percent: sl,
                take_profit_percent: tp,
                created_at,
            };
            state.open_trades.push(t2);
            hlist_set(&mut state.holdings, (user, asset), nh);
            proof {
                lemma_hlist_update(pre.holdings@, (user, asset), nh);
                crate::state::lemma_trades_push(pre.open_trades@, t2);
                crate::state::lemma_positions_net_push(pre.open_trades@, t2, user, asset);
                assert forall|u2: u64, a2: u64|
                    hold_of(state.holdings@, (u2, a2)) == pair_val(state.hold_base@, (u2, a2))
                        + positions_net(state.open_trades@, u2, a2) by {
                    if !(u2 == user && a2 == asset) {
                        crate::state::lemma_positions_net_push(pre.open_trades@, t2, u2, a2);
                        assert(hold_of(state.holdings@, (u2, a2)) == hold_of(
                            pre.holdings@,
                            (u2, a2),
                        ));
                    }
                }
                assert forall|j: int| 0 <= j < state.open_trades@.len() implies valid_trade(
                    #[trigger] state.open_trades@[j],
                ) by {
                    if j < pre.open_trades@.len() {
                        assert(state.open_trades@[j] == pre.open_trades@[j]);
                    } else {
                        assert(state.open_trades@[j] == t2);
                    }
                }
                assert forall|j: int| 0 <= j < state.open_trades@.len() implies {
                    let tj = #[trigger] state.open_trades@[j];
                    match alist_lookup(state.locked_margins@, tj.id) {
                        Some(e) => e.0 == tj.user_id && e.1 >= tj.margin,
                        None => tj.margin == 0,
                    }
                } by {
                    if j < pre.open_trades@.len() {
                        assert(state.open_trades@[j] == pre.open_trades@[j]);
                    } else {
                        assert(state.open_trades@[j] == t2);
                    }
                }
            }
            true
        },
    }
}

/// The arithmetic behind pro-rating, proved in isolation so the
/// surrounding code cannot disturb the nonlinear reasoning.
#[verifier::spinoff_prover]
pub proof fn lemma_mul_div_bounds(a: int, b: int, c: int)
    requires
        0 <= a <= 0xffff_ffff_ffff_ffffu64 as int,
        0 <= b <= c,
        0 < c <= 0xffff_ffff_ffff_ffffu64 as int,
    ensures
        0 <= a * b <= a * c,
        a * c <= 0xffff_ffff_ffff_ffffu64 as int * 0xffff_ffff_ffff_ffffu64 as int,
        0 <= (a * b) / c <= a,
{
    assert(0 <= a * b && a * b <= a * c && a * c <= 0xffff_ffff_ffff_ffffu64 as int
        * 0xffff_ffff_ffff_ffffu64 as int) by (nonlinear_arith)
        requires
            0 <= a <= 0xffff_ffff_ffff_ffffu64 as int,
            0 <= b <= c <= 0xffff_ffff_ffff_ffffu64 as int,
    ;
    vstd::arithmetic::div_mod::lemma_div_is_ordered(a * b, a * c, c);
    vstd::arithmetic::div_mod::lemma_div_multiples_vanish(a, c);
    vstd::arithmetic::div_mod::lemma_div_pos_is_pos(a * b, c);
    vstd::arithmetic::mul::lemma_mul_is_commutative(a, c);
    assert((a * c) / c == a);
    assert((a * b) / c <= (a * c) / c);
}

/// Exact pro-rating: `a * b / c`, never more than `a` when `b <= c`.
pub fn mul_div(a: u64, b: u64, c: u64) -> (r: u64)
    requires
        b <= c,
        c > 0,
    ensures
        r as int == (a as int * b as int) / c as int,
        r <= a,
{
    proof {
        lemma_mul_div_bounds(a as int, b as int, c as int);
    }
    ((a as u128 * b as u128) / c as u128) as u64
}

/// The margin the ledger must keep for the position under this id.
impl EngineState {
    pub fn pos_margin_by_id(&self, id: u64) -> (r: u64)
        ensures
            r as int == crate::state::pos_margin_of(self.open_trades@, id),
    {
        match self.find_trade(id) {
            Some(i) => self.open_trades[i].margin,
            None => 0,
        }
    }

    /// The full ledger entry under an id.
    pub fn get_locked_entry(&self, id: u64) -> (r: Option<(u64, u64)>)
        ensures
            r == alist_lookup(self.locked_margins@, id),
    {
        match crate::alist::alist_find(&self.locked_margins, id) {
            Some(i) => Some(self.locked_margins[i].1),
            None => None,
        }
    }
}

/// Build the execution report for one outcome.
fn make_outcome(
    trade_id: u64,
    trade_uuid: String,
    user_id: u64,
    asset: u64,
    side: Side,
    quantity: u64,
    entry_price: u64,
    close_price: u64,
    pnl: i128,
    status: crate::types::OutcomeStatus,
    timestamp: i64,
    margin: u64,
    leverage: u64,
    updated_balance: i128,
    updated_holdings: i128,
    order_type: crate::types::OrderType,
    limit_price: Option<u64>,
) -> (o: crate::types::TradeOutcome)
    ensures
        o.trade_id == trade_id && o.user_id == user_id && o.asset == asset && o.side == side
            && o.quantity == quantity && o.entry_price == entry_price && o.close_price
            == close_price && o.pnl == pnl && o.status == status && o.margin == margin
            && o.leverage == leverage && o.updated_balance == updated_balance
            && o.updated_holdings == updated_holdings && o.order_type == order_type
            && o.limit_price == limit_price && o.timestamp == timestamp && o.trade_uuid
            == trade_uuid,
{
    crate::types::TradeOutcome {
        trade_id,
        trade_uuid,
        user_id,
        asset,
        side,
        quantity,
        entry_price,
        close_price,
        pnl,
        status,
        timestamp,
        margin,
        leverage,
        updated_balance,
        updated_holdings,
        order_type,
        limit_price,
    }
}

/// The settlement of one fill cannot be interrupted: the user's
/// ledgers have headroom, the position this order already opened (if
/// any) matches the fill and has room to grow, and the margin ledger
/// entry belongs to the user within the margin cap.
pub open spec fn settle_ready(s: EngineState, f: crate::types::Fill) -> bool {
    &&& -crate::types::CREDIT_HEADROOM <= bal_of(s.balances@, f.user_id)
        <= crate::types::CREDIT_HEADROOM
    &&& -crate::types::CREDIT_HEADROOM <= hold_of(s.holdings@, (f.user_id, f.asset))
        <= crate::types::CREDIT_HEADROOM
    &&& (match trade_by_id(s.open_trades@, f.order_id) {
        Some(t) => t.user_id == f.user_id && t.asset == f.asset && t.side == f.side
            && t.quantity + f.quantity <= MAX_QTY,
        None => true,
    })
    &&& (match alist_lookup(s.locked_margins@, f.order_id) {
        Some(e) => e.0 == f.user_id && e.1 <= crate::types::MAX_MARGIN,
        None => true,
    })
}

/// Build the pair of settlement reports: one `Filled` outcome for an
/// opened share, one `Closed` outcome for a closed share. Every event
/// is an outcome.
fn report_settlement(
    state: &EngineState,
    order_id: u64,
    uuid: &String,
    user: u64,
    asset: u64,
    side: Side,
    opened_qty: u64,
    open_price: u64,
    margin_used: u64,
    closed_qty: u64,
    closed_entry: u64,
    close_price: u64,
    closed_pnl: i128,
    closed_returned: u128,
    leverage: u64,
    created_at: i64,
    order_type: crate::types::OrderType,
    limit_price: Option<u64>,
) -> (evs: Vec<crate::types::EngineEvent>)
    ensures
        forall|k: int| 0 <= k < evs@.len() ==> (#[trigger] evs@[k]) is Outcome,
{
    let mut events: Vec<crate::types::EngineEvent> = Vec::new();
    let ub = match state.get_balance(user) {
        Some(b) => b,
        None => 0,
    };
    let uh = match state.get_holdings(user, asset) {
        Some(h) => h,
        None => 0,
    };
    if opened_qty > 0 {
        let out = make_outcome(
            order_id,
            uuid.clone(),
            user,
            asset,
            side,
            opened_qty,
            open_price,
            open_price,
            0,
            crate::types::OutcomeStatus::Filled,
            created_at,
            margin_used,
            leverage,
            ub,
            uh,
            order_type,
            limit_price,
        );
        events.push(crate::types::EngineEvent::Outcome(out));
    }
    if closed_qty > 0 {
        let ret_report: u64 = if closed_returned > 0xffff_ffff_ffff_ffffu64 as u128 {
            0xffff_ffff_ffff_ffffu64
        } else {
            closed_returned as u64
        };
        let out = make_outcome(
            order_id,
            uuid.clone(),
            user,
            asset,
            side,
            closed_qty,
            closed_entry,
            close_price,
            closed_pnl,
            crate::types::OutcomeStatus::Closed,
            created_at,
            ret_report,
            leverage,
            ub,
            uh,
            order_type,
            limit_price,
        );
        events.push(crate::types::EngineEvent::Outcome(out));
    }
    events
}

/// The margin pool behind an order id: what its ledger entry holds
/// beyond the margin its open position already claims.
pub open spec fn reserve_of(s: EngineState, id: u64) -> int {
    (match alist_lookup(s.locked_margins@, id) {
        Some(e) => e.1 as int,
        None => 0,
    }) - pos_margin_of(s.open_trades@, id)
}

/// Net one execution into a user's positions: close opposite exposure
/// first (realising PnL), open or extend a position with the rest, and
/// refund the margin that was reserved for quantity that ended up
/// closing rather than opening. Used for the resting side of every
/// fill; `apply_netting` is its taker-side twin.
#[verifier::rlimit(100)]
#[verifier::spinoff_prover]
pub fn apply_execution(state: &mut EngineState, f: &crate::types::Fill) -> (r: (
    Vec<crate::types::EngineEvent>,
    bool,
))
    requires
        state_inv(*old(state)),
        f.order_id < old(state).next_order_id,
        0 < f.quantity <= f.prev_remaining,
        f.prev_remaining <= MAX_QTY,
        0 < f.price <= MAX_PRICE,
        1 <= f.leverage <= MAX_LEVERAGE,
        (match f.stop_loss_percent {
            Some(p) => p <= crate::types::MAX_PERCENT,
            None => true,
        }),
        (match f.take_profit_percent {
            Some(p) => p <= crate::types::MAX_PERCENT,
            None => true,
        }),
    ensures
        state_inv(*final(state)),
        final(state).order_books@ == old(state).order_books@,
        final(state).prices@ == old(state).prices@,
        final(state).pending_trades@ == old(state).pending_trades@,
        final(state).next_order_id == old(state).next_order_id,
        final(state).deposits@ == old(state).deposits@,
        final(state).hold_base@ == old(state).hold_base@,
        final(state).correlation_ids@ == old(state).correlation_ids@,
        forall|u2: u64| u2 != f.user_id ==> bal_of(final(state).balances@, u2) == bal_of(
            old(state).balances@,
            u2,
        ),
        forall|u2: u64| u2 != f.user_id ==> map_val(final(state).realized@, u2) == map_val(
            old(state).realized@,
            u2,
        ),
        forall|k: (u64, u64)| k != (f.user_id, f.asset) ==> hold_of(final(state).holdings@, k)
            == hold_of(old(state).holdings@, k),
        !r.1 ==> hold_of(final(state).holdings@, (f.user_id, f.asset)) == hold_of(
            old(state).holdings@,
            (f.user_id, f.asset),
        ) + (if f.side == Side::Buy {
            f.quantity as int
        } else {
            -(f.quantity as int)
        }),
        // the user's balance moves by exactly the realised PnL plus a
        // non-negative margin return
        bal_of(final(state).balances@, f.user_id) - bal_of(old(state).balances@, f.user_id)
            >= map_val(final(state).realized@, f.user_id) - map_val(
            old(state).realized@,
            f.user_id,
        ),
        forall|k: int| 0 <= k < r.0@.len() ==> (#[trigger] r.0@[k]) is Outcome,
        // completeness: a ready settlement is never interrupted
        settle_ready(*old(state), *f) ==> !r.1,
        // the money side of a ready settlement, exactly: closes pay the
        // FIFO model's PnL and margin returns, and the share of the
        // order's reserve that was drawn for closing flows back
        settle_ready(*old(state), *f) ==> ({
            let m = close_model(
                old(state).open_trades@,
                f.user_id,
                f.asset,
                crate::types::opposite_of(f.side),
                f.quantity as int,
                f.price as int,
            );
            let mdraw = (reserve_of(*old(state), f.order_id) * f.quantity)
                / f.prev_remaining as int;
            let o = f.quantity - m.closed;
            let m_used = if o > 0 {
                (mdraw * o) / f.quantity as int
            } else {
                0
            };
            &&& bal_of(final(state).balances@, f.user_id) == bal_of(
                old(state).balances@,
                f.user_id,
            ) + m.pnl + m.returned + (mdraw - m_used)
            &&& map_val(final(state).realized@, f.user_id) == map_val(
                old(state).realized@,
                f.user_id,
            ) + m.pnl
            &&& (o > 0 ==> (match trade_by_id(final(state).open_trades@, f.order_id) {
                Some(t2) => t2.quantity as int == (match trade_by_id(
                    old(state).open_trades@,
                    f.order_id,
                ) {
                    Some(t0) => t0.quantity as int,
                    None => 0,
                }) + o && t2.margin as int == pos_margin_of(old(state).open_trades@, f.order_id)
                    + m_used,
                None => false,
            }))
        }),
{
    let user = f.user_id;
    let asset = f.asset;
    let mut events: Vec<crate::types::EngineEvent> = Vec::new();

    let ghost ready = settle_ready(*old(state), *f);
    let ghost mdl = close_model(
        old(state).open_trades@,
        f.user_id,
        f.asset,
        crate::types::opposite_of(f.side),
        f.quantity as int,
        f.price as int,
    );
    let cs = close_against_positions(
        state,
        user,
        asset,
        crate::types::opposite(f.side),
        f.quantity,
        f.price,
    );
    proof {
        if ready {
            assert(!cs.fault);
            assert(cs.closed as int == mdl.closed && cs.pnl as int == mdl.pnl && cs.returned as int
                == mdl.returned);
            assert(untouched_by_close(
                old(state).open_trades@,
                f.order_id,
                user,
                asset,
                crate::types::opposite_of(f.side),
            ));
            assert(trade_by_id(state.open_trades@, f.order_id) == trade_by_id(
                old(state).open_trades@,
                f.order_id,
            ));
            assert(alist_lookup(state.locked_margins@, f.order_id) == alist_lookup(
                old(state).locked_margins@,
                f.order_id,
            ));
            if trade_by_id(old(state).open_trades@, f.order_id) is Some {
                crate::state::lemma_trade_by_id_index(old(state).open_trades@, f.order_id);
            }
        }
    }

    // margin reserved for this order, measured after the close;
    // the position record, if present, tells whether extension is legal
    let pos_idx = state.find_trade(f.order_id);
    let pos_margin: u64 = match pos_idx {
        Some(i) => state.open_trades[i].margin,
        None => 0,
    };
    let pos_fields_ok: bool = match pos_idx {
        Some(i) => {
            let t = &state.open_trades[i];
            t.user_id == user && t.asset == asset && matches!(t.side, Side::Buy) == matches!(
                f.side,
                Side::Buy,
            )
        },
        None => true,
    };
    let entry = state.get_locked_entry(f.order_id);
    proof {
        if pos_idx is Some {
            let i = pos_idx.unwrap() as int;
            assert(match alist_lookup(state.locked_margins@, state.open_trades@[i].id) {
                Some(e) => e.0 == state.open_trades@[i].user_id && e.1
                    >= state.open_trades@[i].margin,
                None => state.open_trades@[i].margin == 0,
            });
        }
    }
    let reserve: u64 = match entry {
        Some(e) => if e.0 == user && e.1 >= pos_margin {
            e.1 - pos_margin
        } else {
            0
        },
        None => 0,
    };
    let m = mul_div(reserve, f.quantity, f.prev_remaining);
    let o = f.quantity - cs.closed;
    let m_o = mul_div(m, o, f.quantity);
    proof {
        if ready {
            assert(pos_margin as int == pos_margin_of(old(state).open_trades@, f.order_id));
            assert(reserve as int == reserve_of(*old(state), f.order_id));
            assert(m as int == (reserve_of(*old(state), f.order_id) * f.quantity)
                / f.prev_remaining as int);
            assert(o as int == f.quantity - mdl.closed);
        }
    }

    let entry_ok: bool = match entry {
        Some(e) => e.0 == user && e.1 >= pos_margin,
        None => m_o == 0,
    };
    let mut opened = false;
    let mut m_used: u64 = 0;
    if o > 0 && pos_fields_ok && entry_ok {
        opened = open_or_extend_position(
            state,
            f.order_id,
            f.uuid.clone(),
            user,
            asset,
            f.side,
            o,
            f.price,
            m_o,
            f.leverage,
            f.stop_loss_percent,
            f.take_profit_percent,
            f.created_at,
        );
        if opened {
            m_used = m_o;
        }
    }
    let refund = m - m_used;
    if refund > 0 {
        let amt2 = state.get_locked_margin_or(f.order_id, 0);
        let old_bal = match state.get_balance(user) {
            Some(b) => b,
            None => 0,
        };
        match checked_add_i128(old_bal, refund as i128) {
            Some(nb) => {
                let ghost pre = *state;
                proof {
                    lemma_trades_unique_pairwise(pre.open_trades@);
                }
                crate::alist::alist_set(&mut state.balances, user, nb);
                state.set_locked_margin(f.order_id, user, amt2 - refund);
                proof {
                    lemma_alist_update(pre.balances@, user, nb);
                    assert(alist_lookup(pre.locked_margins@, f.order_id) == entry);
                    assert(reserve > 0);
                    crate::alist::lemma_alist_some_key_at(pre.locked_margins@, f.order_id);
                    let e2 = (user, (amt2 - refund) as u64);
                    if amt2 - refund > 0 {
                        lemma_alist_update(pre.locked_margins@, f.order_id, e2);
                        crate::state::lemma_keys_below_update(
                            pre.locked_margins@,
                            f.order_id,
                            e2,
                            pre.next_order_id,
                        );
                    } else {
                        lemma_alist_remove(pre.locked_margins@, f.order_id);
                        crate::state::lemma_keys_below_remove(
                            pre.locked_margins@,
                            f.order_id,
                            pre.next_order_id,
                        );
                    }
                    assert forall|u2: u64|
                        bal_of(state.balances@, u2) + locked_sum(state.locked_margins@, u2)
                            == map_val(state.deposits@, u2) + map_val(state.realized@, u2) by {
                        if amt2 - refund > 0 {
                            lemma_locked_sum_update(
                                pre.locked_margins@,
                                f.order_id,
                                (user, (amt2 - refund) as u64),
                                u2,
                            );
                        } else {
                            lemma_locked_sum_remove(pre.locked_margins@, f.order_id, u2);
                        }
                        if u2 != user {
                            assert(bal_of(state.balances@, u2) == bal_of(pre.balances@, u2));
                        }
                    }
                    assert forall|j: int| 0 <= j < state.open_trades@.len() implies {
                        let tj = #[trigger] state.open_trades@[j];
                        match alist_lookup(state.locked_margins@, tj.id) {
                            Some(e) => e.0 == tj.user_id && e.1 >= tj.margin,
                            None => tj.margin == 0,
                        }
                    } by {
                        let tj = state.open_trades@[j];
                        if tj.id != f.order_id {
                            if amt2 - refund > 0 {
                                assert(alist_lookup(state.locked_margins@, tj.id) == alist_lookup(
                                    pre.locked_margins@,
                                    tj.id,
                                ));
                            }
                        } else {
                            assert(crate::state::pos_margin_of(pre.open_trades@, f.order_id)
                                == tj.margin) by {
                                crate::state::lemma_trade_by_id_at(pre.open_trades@, j);
                            }
                        }
                    }
                }
            },
            None => {
                // the refund stays locked rather than overflow the balance
            },
        }
    }
    let mut reports = report_settlement(
        state,
        f.order_id,
        &f.uuid,
        user,
        asset,
        f.side,
        if opened {
            o
        } else {
            0
        },
        f.price,
        m_used,
        cs.closed,
        cs.entry_price,
        f.price,
        cs.pnl,
        cs.returned,
        f.leverage,
        f.created_at,
        crate::types::OrderType::Limit,
        Some(f.price),
    );
    events.append(&mut reports);
    (events, cs.fault || (o > 0 && !opened))
}

/// Give back to the user's balance whatever the ledger still holds for
/// this order beyond the margin its open position claims. Used when a
/// market order retires with unexecuted quantity.
#[verifier::rlimit(100)]
pub fn refund_excess_margin(state: &mut EngineState, order_id: u64, user: u64) -> (refunded: u64)
    requires
        state_inv(*old(state)),
    ensures
        state_inv(*final(state)),
        final(state).order_books@ == old(state).order_books@,
        final(state).prices@ == old(state).prices@,
        final(state).pending_trades@ == old(state).pending_trades@,
        final(state).next_order_id == old(state).next_order_id,
        final(state).deposits@ == old(state).deposits@,
        final(state).realized@ == old(state).realized@,
        final(state).hold_base@ == old(state).hold_base@,
        final(state).correlation_ids@ == old(state).correlation_ids@,
        final(state).open_trades@ == old(state).open_trades@,
        final(state).holdings@ == old(state).holdings@,
        bal_of(final(state).balances@, user) == bal_of(old(state).balances@, user) + refunded,
        forall|u2: u64| u2 != user ==> bal_of(final(state).balances@, u2) == bal_of(
            old(state).balances@,
            u2,
        ),
        // completeness: the excess is owed back whenever the ledger
        // holds more for this order than its position claims and the
        // credited balance fits
        (match alist_lookup(old(state).locked_margins@, order_id) {
            Some(e) => {
                let pm = crate::state::pos_margin_of(old(state).open_trades@, order_id);
                (e.0 == user && e.1 as int > pm && bal_of(old(state).balances@, user) + (
                e.1 as int - pm) <= i128::MAX) ==> refunded as int == e.1 as int - pm
            },
            None => refunded == 0,
        }),
{
    let pm = state.pos_margin_by_id(order_id);
    let entry = state.get_locked_entry(order_id);
    let e = match entry {
        Some(e) => e,
        None => {
            return 0;
        },
    };
    if !(e.0 == user && e.1 > pm) {
        return 0;
    }
    let refund = e.1 - pm;
    let old_bal = match state.get_balance(user) {
        Some(b) => b,
        None => 0,
    };
    let nb = match checked_add_i128(old_bal, refund as i128) {
        Some(nb) => nb,
        None => {
            return 0;
        },
    };
    let ghost pre = *state;
    proof {
        lemma_trades_unique_pairwise(pre.open_trades@);
        crate::alist::lemma_alist_some_key_at(pre.locked_margins@, order_id);
    }
    crate::alist::alist_set(&mut state.balances, user, nb);
    state.set_locked_margin(order_id, user, pm);
    proof {
        lemma_alist_update(pre.balances@, user, nb);
        let e2 = (user, pm);
        if pm > 0 {
            lemma_alist_update(pre.locked_margins@, order_id, e2);
            crate::state::lemma_keys_below_update(
                pre.locked_margins@,
                order_id,
                e2,
                pre.next_order_id,
            );
        } else {
            lemma_alist_remove(pre.locked_margins@, order_id);
            crate::state::lemma_keys_below_remove(pre.locked_margins@, order_id, pre.next_order_id);
        }
        assert forall|u2: u64|
            bal_of(state.balances@, u2) + locked_sum(state.locked_margins@, u2) == map_val(
                state.deposits@,
                u2,
            ) + map_val(state.realized@, u2) by {
            if pm > 0 {
                lemma_locked_sum_update(pre.locked_margins@, order_id, (user, pm), u2);
            } else {
                lemma_locked_sum_remove(pre.locked_margins@, order_id, u2);
            }
            if u2 != user {
                assert(bal_of(state.balances@, u2) == bal_of(pre.balances@, u2));
            }
        }
        assert forall|j: int| 0 <= j < state.open_trades@.len() implies {
            let tj = #[trigger] state.open_trades@[j];
            match alist_lookup(state.locked_margins@, tj.id) {
                Some(e3) => e3.0 == tj.user_id && e3.1 >= tj.margin,
                None => tj.margin == 0,
            }
        } by {
            let tj = state.open_trades@[j];
            if tj.id != order_id {
                if pm > 0 {
                    assert(alist_lookup(state.locked_margins@, tj.id) == alist_lookup(
                        pre.locked_margins@,
                        tj.id,
                    ));
                }
            } else {
                assert(crate::state::pos_margin_of(pre.open_trades@, order_id) == tj.margin) by {
                    crate::state::lemma_trade_by_id_at(pre.open_trades@, j);
                }
            }
        }
    }
    refund
}

/// The taker's settlement cannot be interrupted: like `settle_ready`,
/// measured against the taker's order and its executed quantity.
pub open spec fn taker_ready(s: EngineState, order: crate::types::Order, executed: u64) -> bool {
    &&& -crate::types::CREDIT_HEADROOM <= bal_of(s.balances@, order.user_id)
        <= crate::types::CREDIT_HEADROOM
    &&& -crate::types::CREDIT_HEADROOM <= hold_of(s.holdings@, (order.user_id, order.asset))
        <= crate::types::CREDIT_HEADROOM
    &&& (match trade_by_id(s.open_trades@, order.id) {
        Some(t) => t.user_id == order.user_id && t.asset == order.asset && t.side == order.side
            && t.quantity + executed <= MAX_QTY,
        None => true,
    })
    &&& (match alist_lookup(s.locked_margins@, order.id) {
        Some(e) => e.0 == order.user_id && e.1 <= crate::types::MAX_MARGIN,
        None => true,
    })
}

/// Net the taker's own executed quantity at `price`: close opposite
/// exposure first, then open or extend the taker's position with the
/// rest, funding it from the margin reserved at admission in proportion
/// to the quantity this order can still open.
#[verifier::rlimit(100)]
#[verifier::spinoff_prover]
pub fn apply_netting(
    state: &mut EngineState,
    order: &crate::types::Order,
    executed: u64,
    price: u64,
) -> (r: (Vec<crate::types::EngineEvent>, bool))
    requires
        state_inv(*old(state)),
        order.id < old(state).next_order_id,
        crate::types::valid_order(*order),
        0 < executed <= order.quantity,
        0 < price <= MAX_PRICE,
    ensures
        state_inv(*final(state)),
        final(state).order_books@ == old(state).order_books@,
        final(state).prices@ == old(state).prices@,
        final(state).pending_trades@ == old(state).pending_trades@,
        final(state).next_order_id == old(state).next_order_id,
        final(state).deposits@ == old(state).deposits@,
        final(state).hold_base@ == old(state).hold_base@,
        final(state).correlation_ids@ == old(state).correlation_ids@,
        forall|u2: u64| u2 != order.user_id ==> bal_of(final(state).balances@, u2) == bal_of(
            old(state).balances@,
            u2,
        ),
        forall|u2: u64| u2 != order.user_id ==> map_val(final(state).realized@, u2) == map_val(
            old(state).realized@,
            u2,
        ),
        forall|k: (u64, u64)| k != (order.user_id, order.asset) ==> hold_of(
            final(state).holdings@,
            k,
        ) == hold_of(old(state).holdings@, k),
        !r.1 ==> hold_of(final(state).holdings@, (order.user_id, order.asset)) == hold_of(
            old(state).holdings@,
            (order.user_id, order.asset),
        ) + (if order.side == Side::Buy {
            executed as int
        } else {
            -(executed as int)
        }),
        // the taker's balance moves by exactly the realised PnL plus a
        // non-negative margin return
        bal_of(final(state).balances@, order.user_id) - bal_of(
            old(state).balances@,
            order.user_id,
        ) >= map_val(final(state).realized@, order.user_id) - map_val(
            old(state).realized@,
            order.user_id,
        ),
        forall|k: int| 0 <= k < r.0@.len() ==> (#[trigger] r.0@[k]) is Outcome,
        // completeness: a ready settlement is never interrupted
        taker_ready(*old(state), *order, executed) ==> !r.1,
        // the money side of a ready taker settlement, exactly: the FIFO
        // close model pays out, and the opening share draws its margin
        // from the order's reserve pro rata to what can still open
        taker_ready(*old(state), *order, executed) ==> ({
            let m = close_model(
                old(state).open_trades@,
                order.user_id,
                order.asset,
                crate::types::opposite_of(order.side),
                executed as int,
                price as int,
            );
            let goal = order.quantity - m.closed;
            let o = executed - m.closed;
            let m_used = if o > 0 && goal > 0 {
                (reserve_of(*old(state), order.id) * o) / goal
            } else {
                0
            };
            &&& bal_of(final(state).balances@, order.user_id) == bal_of(
                old(state).balances@,
                order.user_id,
            ) + m.pnl + m.returned
            &&& map_val(final(state).realized@, order.user_id) == map_val(
                old(state).realized@,
                order.user_id,
            ) + m.pnl
            &&& (o > 0 ==> (match trade_by_id(final(state).open_trades@, order.id) {
                Some(t2) => t2.quantity as int == (match trade_by_id(
                    old(state).open_trades@,
                    order.id,
                ) {
                    Some(t0) => t0.quantity as int,
                    None => 0,
                }) + o && t2.margin as int == pos_margin_of(old(state).open_trades@, order.id)
                    + m_used,
                None => false,
            }))
        }),
{
    let user = order.user_id;
    let asset = order.asset;
    let mut events: Vec<crate::types::EngineEvent> = Vec::new();

    let ghost ready = taker_ready(*old(state), *order, executed);
    let ghost mdl = close_model(
        old(state).open_trades@,
        order.user_id,
        order.asset,
        crate::types::opposite_of(order.side),
        executed as int,
        price as int,
    );
    let cs = close_against_positions(
        state,
        user,
        asset,
        crate::types::opposite(order.side),
        executed,
        price,
    );
    proof {
        if ready {
            assert(!cs.fault);
            assert(cs.closed as int == mdl.closed && cs.pnl as int == mdl.pnl && cs.returned as int
                == mdl.returned);
            assert(untouched_by_close(
                old(state).open_trades@,
                order.id,
                user,
                asset,
                crate::types::opposite_of(order.side),
            ));
            assert(trade_by_id(state.open_trades@, order.id) == trade_by_id(
                old(state).open_trades@,
                order.id,
            ));
            assert(alist_lookup(state.locked_margins@, order.id) == alist_lookup(
                old(state).locked_margins@,
                order.id,
            ));
            if trade_by_id(old(state).open_trades@, order.id) is Some {
                crate::state::lemma_trade_by_id_index(old(state).open_trades@, order.id);
            }
        }
    }

    let pos_idx = state.find_trade(order.id);
    let pos_margin: u64 = match pos_idx {
        Some(i) => state.open_trades[i].margin,
        None => 0,
    };
    let pos_fields_ok: bool = match pos_idx {
        Some(i) => {
            let t = &state.open_trades[i];
            t.user_id == user && t.asset == asset && matches!(t.side, Side::Buy) == matches!(
                order.side,
                Side::Buy,
            )
        },
        None => true,
    };
    let entry = state.get_locked_entry(order.id);
    proof {
        if pos_idx is Some {
            let i = pos_idx.unwrap() as int;
            assert(match alist_lookup(state.locked_margins@, state.open_trades@[i].id) {
                Some(e) => e.0 == state.open_trades@[i].user_id && e.1
                    >= state.open_trades@[i].margin,
                None => state.open_trades@[i].margin == 0,
            });
        }
    }
    let reserve: u64 = match entry {
        Some(e) => if e.0 == user && e.1 >= pos_margin {
            e.1 - pos_margin
        } else {
            0
        },
        None => 0,
    };
    let o = executed - cs.closed;
    let goal = order.quantity - cs.closed;
    let m_o: u64 = if goal > 0 {
        mul_div(reserve, o, goal)
    } else {
        0
    };
    proof {
        if ready {
            assert(pos_margin as int == pos_margin_of(old(state).open_trades@, order.id));
            assert(reserve as int == reserve_of(*old(state), order.id));
            assert(o as int == executed - mdl.closed);
            assert(goal as int == order.quantity - mdl.closed);
        }
    }
    let entry_ok: bool = match entry {
        Some(e) => e.0 == user && e.1 >= pos_margin,
        None => m_o == 0,
    };
    let mut opened = false;
    let mut m_used: u64 = 0;
    if o > 0 && pos_fields_ok && entry_ok {
        opened = open_or_extend_position(
            state,
            order.id,
            order.uuid.clone(),
            user,
            asset,
            order.side,
            o,
            price,
            m_o,
            order.leverage,
            order.stop_loss_percent,
            order.take_profit_percent,
            order.created_at,
        );
        if opened {
            m_used = m_o;
        }
    }
    let limit_price = if matches!(order.order_type, crate::types::OrderType::Limit) {
        Some(order.price)
    } else {
        None
    };
    let mut reports = report_settlement(
        state,
        order.id,
        &order.uuid,
        user,
        asset,
        order.side,
        if opened {
            o
        } else {
            0
        },
        price,
        m_used,
        cs.closed,
        cs.entry_price,
        price,
        cs.pnl,
        cs.returned,
        order.leverage,
        order.created_at,
        order.order_type,
        limit_price,
    );
    events.append(&mut reports);
    (events, cs.fault || (o > 0 && !opened))
}

} // verus!
