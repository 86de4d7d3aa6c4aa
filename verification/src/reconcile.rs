use vstd::prelude::*;

use crate::alist::{alist_lookup, alist_update, lemma_alist_update};
use crate::hlist::{hlist_update, hlist_set, lemma_hlist_update, hold_of};
use crate::state::{
    bal_of, lemma_locked_sum_update, locked_sum, map_val, pair_val, positions_net, state_inv,
    EngineState,
};
use crate::types::{PriceUpdate, MAX_PRICE};

verus! {

/// Bounded prices stay bounded across one write.
proof fn lemma_price_entries_update(s: Seq<(u64, u64)>, k: u64, v: u64)
    requires
        forall|i: int| 0 <= i < s.len() ==> 0 < (#[trigger] s[i]).1 <= MAX_PRICE,
        0 < v <= MAX_PRICE,
    ensures
        forall|i: int| 0 <= i < alist_update(s, k, v).len() ==> 0 < (#[trigger] alist_update(
            s,
            k,
            v,
        )[i]).1 <= MAX_PRICE,
    decreases s.len(),
{
    let t = alist_update(s, k, v);
    if s.len() == 0 {
    } else if s[0].0 == k {
        assert forall|i: int| 0 <= i < t.len() implies 0 < (#[trigger] t[i]).1 <= MAX_PRICE by {
            if i > 0 {
                assert(t[i] == s[i]);
            }
        }
    } else {
        assert forall|i: int| 0 <= i < s.drop_first().len() implies 0 < (
        #[trigger] s.drop_first()[i]).1 <= MAX_PRICE by {
            assert(s.drop_first()[i] == s[i + 1]);
        }
        lemma_price_entries_update(s.drop_first(), k, v);
        assert forall|i: int| 0 <= i < t.len() implies 0 < (#[trigger] t[i]).1 <= MAX_PRICE by {
            if i > 0 {
                assert(t[i] == alist_update(s.drop_first(), k, v)[i - 1]);
            }
        }
    }
}

/// Install a mark-price tick. Non-positive and out-of-range prices are
/// rejected; an accepted tick replaces the asset's last price and
/// touches nothing else.
pub fn handle_price_update(state: &mut EngineState, update: &PriceUpdate) -> (accepted: bool)
    requires
        state_inv(*old(state)),
    ensures
        state_inv(*final(state)),
        accepted <==> 0 < update.price <= MAX_PRICE,
        accepted ==> final(state).prices@ == alist_update(
            old(state).prices@,
            update.asset,
            update.price,
        ),
        !accepted ==> *final(state) == *old(state),
        final(state).balances@ == old(state).balances@,
        final(state).open_trades@ == old(state).open_trades@,
        final(state).order_books@ == old(state).order_books@,
        final(state).pending_trades@ == old(state).pending_trades@,
        final(state).holdings@ == old(state).holdings@,
        final(state).locked_margins@ == old(state).locked_margins@,
        final(state).next_order_id == old(state).next_order_id,
        final(state).correlation_ids@ == old(state).correlation_ids@,
        final(state).deposits@ == old(state).deposits@,
        final(state).realized@ == old(state).realized@,
        final(state).hold_base@ == old(state).hold_base@,
{
    if update.price == 0 || update.price > MAX_PRICE {
        return false;
    }
    let ghost pre = *state;
    crate::alist::alist_set(&mut state.prices, update.asset, update.price);
    proof {
        lemma_alist_update(pre.prices@, update.asset, update.price);
        lemma_price_entries_update(pre.prices@, update.asset, update.price);
    }
    true
}

/// Install an authoritative balance snapshot: the outside ledger wins,
/// and the conservation baseline is re-anchored so that deposits equal
/// the new balance plus whatever the engine still holds locked, net of
/// realised PnL.
pub fn apply_balance_snapshot(state: &mut EngineState, user: u64, amount: i64)
    requires
        state_inv(*old(state)),
    ensures
        state_inv(*final(state)),
        final(state).balances@ == alist_update(old(state).balances@, user, amount as i128),
        alist_lookup(final(state).balances@, user) == Some(amount as i128),
        forall|u2: u64| u2 != user ==> alist_lookup(final(state).balances@, u2) == alist_lookup(
            old(state).balances@,
            u2,
        ),
        final(state).open_trades@ == old(state).open_trades@,
        final(state).order_books@ == old(state).order_books@,
        final(state).prices@ == old(state).prices@,
        final(state).pending_trades@ == old(state).pending_trades@,
        final(state).holdings@ == old(state).holdings@,
        final(state).locked_margins@ == old(state).locked_margins@,
        final(state).next_order_id == old(state).next_order_id,
        final(state).correlation_ids@ == old(state).correlation_ids@,
        final(state).realized@ == old(state).realized@,
        final(state).hold_base@ == old(state).hold_base@,
        final(state).deposits@ == old(state).deposits@.insert(
            user,
            amount + locked_sum(old(state).locked_margins@, user) - map_val(
                old(state).realized@,
                user,
            ),
        ),
{
    let ghost pre = *state;
    crate::alist::alist_set(&mut state.balances, user, amount as i128);
    proof {
        state.deposits = Ghost(
            pre.deposits@.insert(
                user,
                amount + locked_sum(pre.locked_margins@, user) - map_val(pre.realized@, user),
            ),
        );
        lemma_alist_update(pre.balances@, user, amount as i128);
        assert forall|u2: u64|
            bal_of(state.balances@, u2) + locked_sum(state.locked_margins@, u2) == map_val(
                state.deposits@,
                u2,
            ) + map_val(state.realized@, u2) by {
            if u2 != user {
                assert(bal_of(state.balances@, u2) == bal_of(pre.balances@, u2));
                assert(map_val(state.deposits@, u2) == map_val(pre.deposits@, u2));
            }
        }
    }
}

/// Install an authoritative holdings snapshot for one (user, asset)
/// pair. The ghost baseline absorbs the difference between the outside
/// figure and the engine's open positions, so the holdings mirror stays
/// exact.
pub fn apply_holdings_snapshot(state: &mut EngineState, user: u64, asset: u64, quantity: i64)
    requires
        state_inv(*old(state)),
    ensures
        state_inv(*final(state)),
        final(state).holdings@ == hlist_update(
            old(state).holdings@,
            (user, asset),
            quantity as i128,
        ),
        crate::hlist::hlist_lookup(final(state).holdings@, (user, asset)) == Some(
            quantity as i128,
        ),
        forall|k: (u64, u64)| k != (user, asset) ==> crate::hlist::hlist_lookup(
            final(state).holdings@,
            k,
        ) == crate::hlist::hlist_lookup(old(state).holdings@, k),
        final(state).balances@ == old(state).balances@,
        final(state).open_trades@ == old(state).open_trades@,
        final(state).order_books@ == old(state).order_books@,
        final(state).prices@ == old(state).prices@,
        final(state).pending_trades@ == old(state).pending_trades@,
        final(state).locked_margins@ == old(state).locked_margins@,
        final(state).next_order_id == old(state).next_order_id,
        final(state).correlation_ids@ == old(state).correlation_ids@,
        final(state).deposits@ == old(state).deposits@,
        final(state).realized@ == old(state).realized@,
        final(state).hold_base@ == old(state).hold_base@.insert(
            (user, asset),
            quantity - positions_net(old(state).open_trades@, user, asset),
        ),
{
    let ghost pre = *state;
    hlist_set(&mut state.holdings, (user, asset), quantity as i128);
    proof {
        state.hold_base = Ghost(
            pre.hold_base@.insert(
                (user, asset),
                quantity - positions_net(pre.open_trades@, user, asset),
            ),
        );
        lemma_hlist_update(pre.holdings@, (user, asset), quantity as i128);
        assert forall|u2: u64, a2: u64|
            hold_of(state.holdings@, (u2, a2)) == pair_val(state.hold_base@, (u2, a2))
                + positions_net(state.open_trades@, u2, a2) by {
            if !(u2 == user && a2 == asset) {
                assert(hold_of(state.holdings@, (u2, a2)) == hold_of(pre.holdings@, (u2, a2)));
                assert(pair_val(state.hold_base@, (u2, a2)) == pair_val(pre.hold_base@, (u2, a2)));
            }
        }
    }
}

} // verus!
