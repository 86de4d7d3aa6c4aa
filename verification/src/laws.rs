use vstd::prelude::*;

use crate::alist::{alist_update};
use crate::book::{book_wf, ladder_view};
use crate::hlist::{hlist_update, hold_of};
use crate::matching::{match_queue_spec};
use crate::state::{
    bal_of, locked_sum, map_val, pair_val, positions_net,
    state_inv, EngineState,
};
use crate::types::{Order, Side};

verus! {

/// Conservation of funds: in every state the engine's operations
/// preserve, each user's available balance plus all margin locked on
/// their behalf equals what outside snapshots deposited plus what
/// trading realised. Every mutating operation of the engine requires
/// and re-establishes `state_inv`, so this holds at every observable
/// point of every event sequence.
pub proof fn lemma_conservation(s: EngineState, u: u64)
    requires
        state_inv(s),
    ensures
        bal_of(s.balances@, u) + locked_sum(s.locked_margins@, u) == map_val(s.deposits@, u)
            + map_val(s.realized@, u),
{
}

/// Book monotonicity: wherever both sides of an asset's book are
/// populated, the best bid sits strictly below the best ask.
pub proof fn lemma_best_bid_below_best_ask(s: EngineState, i: int)
    requires
        state_inv(s),
        0 <= i < s.order_books@.len(),
        ladder_view(s.order_books@[i].1.buy@).len() > 0,
        ladder_view(s.order_books@[i].1.sell@).len() > 0,
    ensures
        ladder_view(s.order_books@[i].1.buy@)[0].price < ladder_view(
            s.order_books@[i].1.sell@,
        )[0].price,
{
    assert(book_wf(s.order_books@[i].1, s.order_books@[i].0));
}

/// No crossed rest: no resting buy sits at or above any resting sell
/// of the same asset, at any depth of the book.
pub proof fn lemma_no_crossed_rest(s: EngineState, i: int, bi: int, si: int)
    requires
        state_inv(s),
        0 <= i < s.order_books@.len(),
        0 <= bi < ladder_view(s.order_books@[i].1.buy@).len(),
        0 <= si < ladder_view(s.order_books@[i].1.sell@).len(),
    ensures
        ladder_view(s.order_books@[i].1.buy@)[bi].price < ladder_view(
            s.order_books@[i].1.sell@,
        )[si].price,
{
    let bv = ladder_view(s.order_books@[i].1.buy@);
    let sv = ladder_view(s.order_books@[i].1.sell@);
    assert(book_wf(s.order_books@[i].1, s.order_books@[i].0));
    if bi > 0 {
        assert(bv[0].price > bv[bi].price);
    }
    if si > 0 {
        assert(sv[0].price < sv[si].price);
    }
}

/// Holdings / position consistency: the holdings ledger always equals
/// the baseline the outside snapshots installed plus the signed sum of
/// open position quantities. With a zero baseline — every flow that
/// never re-based holdings from outside — it is exactly the signed sum
/// of long minus short position quantities.
pub proof fn lemma_holdings_mirror_positions(s: EngineState, u: u64, a: u64)
    requires
        state_inv(s),
    ensures
        hold_of(s.holdings@, (u, a)) == pair_val(s.hold_base@, (u, a)) + positions_net(
            s.open_trades@,
            u,
            a,
        ),
        !s.hold_base@.contains_key((u, a)) ==> hold_of(s.holdings@, (u, a)) == positions_net(
            s.open_trades@,
            u,
            a,
        ),
{
}

/// Some fill in the list executes against this order id.
pub open spec fn has_fill(fs: Seq<crate::types::Fill>, id: u64) -> bool {
    exists|k: int| 0 <= k < fs.len() && (#[trigger] fs[k]).order_id == id
}

/// The order at queue index `i` was filled for everything it had left.
pub open spec fn fifo_goal(orders: Seq<Order>, taker: u64, rem: u64, i: int) -> bool {
    exists|k: int|
        0 <= k < match_queue_spec(orders, taker, rem).fills.len()
            && (#[trigger] match_queue_spec(orders, taker, rem).fills[k]).order_id == orders[
            i
        ].id && match_queue_spec(orders, taker, rem).fills[k].quantity as int == orders[
            i
        ].quantity - orders[i].filled
}

/// FIFO at a price: when two orders rest in one level's queue and the
/// later one trades, the earlier one — unless it belongs to the taker,
/// which self-match prevention skips — was consumed completely first.
pub proof fn lemma_fifo_at_price(orders: Seq<Order>, taker: u64, rem: u64, i: int, j: int)
    requires
        0 <= i < j < orders.len(),
        forall|p: int| 0 <= p < orders.len() ==> (#[trigger] orders[p]).filled <= orders[p].quantity,
        orders[i].user_id != taker,
        forall|p: int, q: int|
            0 <= p < q < orders.len() ==> (#[trigger] orders[p]).id != (#[trigger] orders[q]).id,
        has_fill(match_queue_spec(orders, taker, rem).fills, orders[j].id),
    ensures
        fifo_goal(orders, taker, rem, i),
    decreases orders.len(),
{
    let m = match_queue_spec(orders, taker, rem);
    if rem == 0 || orders.len() == 0 {
        assert(!has_fill(m.fills, orders[j].id));
    } else {
        let o = orders[0];
        let tail = orders.drop_first();
        assert forall|p: int, q: int|
            0 <= p < q < tail.len() implies (#[trigger] tail[p]).id != (#[trigger] tail[q]).id by {
            assert(tail[p] == orders[p + 1] && tail[q] == orders[q + 1]);
        }
        assert forall|p: int| 0 <= p < tail.len() implies (#[trigger] tail[p]).filled <= tail[p].quantity by {
            assert(tail[p] == orders[p + 1]);
        }
        if o.user_id == taker {
            let rest = match_queue_spec(tail, taker, rem);
            assert(m.fills == rest.fills);
            assert(i > 0);
            assert(tail[i - 1] == orders[i] && tail[j - 1] == orders[j]);
            let kj = choose|k: int|
                0 <= k < m.fills.len() && (#[trigger] m.fills[k]).order_id == orders[j].id;
            assert(rest.fills[kj].order_id == tail[j - 1].id);
            assert(has_fill(rest.fills, tail[j - 1].id));
            lemma_fifo_at_price(tail, taker, rem, i - 1, j - 1);
            let ki = choose|k: int|
                0 <= k < rest.fills.len() && (#[trigger] rest.fills[k]).order_id == tail[
                    i - 1
                ].id && rest.fills[k].quantity as int == tail[i - 1].quantity - tail[i - 1].filled;
            assert(m.fills[ki].order_id == orders[i].id && m.fills[ki].quantity as int == orders[
                i
            ].quantity - orders[i].filled);
            assert(fifo_goal(orders, taker, rem, i));
        } else {
            let avail = (o.quantity - o.filled) as u64;
            if rem >= avail {
                let rest = match_queue_spec(tail, taker, (rem - avail) as u64);
                assert(m.fills == seq![crate::matching::fill_of(o, avail)] + rest.fills);
                if i == 0 {
                    assert(m.fills[0] == crate::matching::fill_of(o, avail));
                    assert(m.fills[0].order_id == orders[0].id && m.fills[0].quantity == avail);
                    assert(fifo_goal(orders, taker, rem, i));
                } else {
                    assert(tail[i - 1] == orders[i] && tail[j - 1] == orders[j]);
                    let kj = choose|k: int|
                        0 <= k < m.fills.len() && (#[trigger] m.fills[k]).order_id == orders[
                            j
                        ].id;
                    assert(orders[j].id != orders[0].id);
                    assert(kj > 0);
                    assert(m.fills[kj] == rest.fills[kj - 1]);
                    assert(rest.fills[kj - 1].order_id == tail[j - 1].id);
                    assert(has_fill(rest.fills, tail[j - 1].id));
                    lemma_fifo_at_price(tail, taker, (rem - avail) as u64, i - 1, j - 1);
                    let ki = choose|k: int|
                        0 <= k < rest.fills.len() && (#[trigger] rest.fills[k]).order_id == tail[
                            i - 1
                        ].id && rest.fills[k].quantity as int == tail[i - 1].quantity - tail[
                            i - 1
                        ].filled;
                    assert(m.fills[ki + 1] == rest.fills[ki]);
                    assert(m.fills[ki + 1].order_id == orders[i].id && m.fills[ki
                        + 1].quantity as int == orders[i].quantity - orders[i].filled);
                    assert(fifo_goal(orders, taker, rem, i));
                }
            } else {
                assert(m.fills == seq![crate::matching::fill_of(o, rem)]);
                let kj = choose|k: int|
                    0 <= k < m.fills.len() && (#[trigger] m.fills[k]).order_id == orders[j].id;
                assert(m.fills[kj].order_id == orders[0].id);
                assert(orders[j].id != orders[0].id);
            }
        }
    }
}

/// No self-match: the matcher never fills the taker against the
/// taker's own resting orders — stated by `fill_ok` in
/// `lemma_match_ladder_props`, restated here as the bare law.
pub proof fn lemma_no_self_match(
    ls: Seq<crate::book::LevelView>,
    taker: u64,
    rem: u64,
    asset: u64,
    side: Side,
    taker_is_buy: bool,
    limit: Option<u64>,
    k: int,
)
    requires
        crate::book::ladder_wf(ls, asset, side),
        0 <= k < crate::matching::match_ladder_spec(ls, taker, rem, taker_is_buy, limit).fills.len(),
    ensures
        crate::matching::match_ladder_spec(ls, taker, rem, taker_is_buy, limit).fills[k].user_id
            != taker,
{
    crate::matching::lemma_match_ladder_props(ls, taker, rem, asset, side, taker_is_buy, limit);
}

/// Idempotent replay: installing the same balance snapshot twice
/// writes the same ledger entry twice, which is one write. Together
/// with `apply_balance_snapshot`'s contract — every other field is
/// untouched, and the deposit baseline is a function of ledgers the
/// install does not move — replaying an identical snapshot leaves the
/// state it produced unchanged.
pub proof fn lemma_balance_snapshot_idempotent(b: Seq<(u64, i128)>, u: u64, x: i128)
    ensures
        alist_update(alist_update(b, u, x), u, x) == alist_update(b, u, x),
    decreases b.len(),
{
    let once = alist_update(b, u, x);
    if b.len() == 0 {
        assert(alist_update(once, u, x) =~= once);
    } else if b[0].0 == u {
        assert(once == seq![(u, x)] + b.drop_first());
        assert(once[0] == (u, x));
        assert(alist_update(once, u, x) =~= once);
    } else {
        lemma_balance_snapshot_idempotent(b.drop_first(), u, x);
        assert(once == seq![b[0]] + alist_update(b.drop_first(), u, x));
        assert(once[0] == b[0]);
        assert(once.drop_first() =~= alist_update(b.drop_first(), u, x));
        assert(alist_update(once, u, x) =~= once);
    }
}

/// The same, for a holdings snapshot.
pub proof fn lemma_holdings_snapshot_idempotent(
    h: Seq<((u64, u64), i128)>,
    k: (u64, u64),
    x: i128,
)
    ensures
        hlist_update(hlist_update(h, k, x), k, x) == hlist_update(h, k, x),
    decreases h.len(),
{
    let once = hlist_update(h, k, x);
    if h.len() == 0 {
        assert(hlist_update(once, k, x) =~= once);
    } else if h[0].0 == k {
        assert(once == seq![(k, x)] + h.drop_first());
        assert(once[0] == (k, x));
        assert(hlist_update(once, k, x) =~= once);
    } else {
        lemma_holdings_snapshot_idempotent(h.drop_first(), k, x);
        assert(once == seq![h[0]] + hlist_update(h.drop_first(), k, x));
        assert(once[0] == h[0]);
        assert(once.drop_first() =~= hlist_update(h.drop_first(), k, x));
        assert(hlist_update(once, k, x) =~= once);
    }
}

} // verus!
