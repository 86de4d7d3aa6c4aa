use vstd::prelude::*;

use crate::alist::{
    alist_del, alist_find, alist_lookup, alist_remove, alist_set, alist_unique, alist_update,
};
use crate::book::{book_wf, OrderBook};
use crate::hlist::{hlist_lookup, hlist_unique, hold_of};
use crate::types::{valid_trade, CreateTradeRequest, Side, Trade};

verus! {

/// Every ledger the engine owns. All mutation goes through one writer;
/// the two ghost ledgers carry the conservation argument: what outside
/// snapshots have credited per user, and what trading has realised.
pub struct EngineState {
    pub balances: Vec<(u64, i128)>,
    pub open_trades: Vec<Trade>,
    pub order_books: Vec<(u64, OrderBook)>,
    pub prices: Vec<(u64, u64)>,
    pub pending_trades: Vec<(u64, Vec<CreateTradeRequest>)>,
    pub holdings: Vec<((u64, u64), i128)>,
    pub locked_margins: Vec<(u64, (u64, u64))>,
    pub correlation_ids: Vec<(u64, u64)>,
    pub next_order_id: u64,
    pub deposits: Ghost<Map<u64, int>>,
    pub realized: Ghost<Map<u64, int>>,
    pub hold_base: Ghost<Map<(u64, u64), int>>,
}

/// Available balance of a user, zero when unknown.
pub open spec fn bal_of(s: Seq<(u64, i128)>, u: u64) -> int {
    match alist_lookup(s, u) {
        Some(b) => b as int,
        None => 0,
    }
}

/// Margin the engine holds for one order or position id.
pub open spec fn locked_of(s: Seq<(u64, (u64, u64))>, id: u64) -> int {
    match alist_lookup(s, id) {
        Some(e) => e.1 as int,
        None => 0,
    }
}

/// All margin locked on behalf of one user.
pub open spec fn locked_sum(s: Seq<(u64, (u64, u64))>, u: u64) -> int
    decreases s.len(),
{
    if s.len() == 0 {
        0
    } else {
        (if s[0].1.0 == u {
            s[0].1.1 as int
        } else {
            0
        }) + locked_sum(s.drop_first(), u)
    }
}

pub open spec fn map_val(m: Map<u64, int>, u: u64) -> int {
    if m.contains_key(u) {
        m[u]
    } else {
        0
    }
}

/// Conservation of funds: for every user, available balance plus locked
/// margin equals what was deposited plus what trading realised.
pub open spec fn conserved(s: EngineState) -> bool {
    forall|u: u64|
        bal_of(s.balances@, u) + locked_sum(s.locked_margins@, u) == map_val(s.deposits@, u)
            + map_val(#[trigger] s.realized@, u)
}

/// Signed exposure one position contributes to a (user, asset) pair.
pub open spec fn net_contrib(t: Trade, u: u64, a: u64) -> int {
    if t.user_id == u && t.asset == a {
        match t.side {
            Side::Buy => t.quantity as int,
            Side::Sell => -(t.quantity as int),
        }
    } else {
        0
    }
}

/// Net exposure of all open positions of a user in an asset.
pub open spec fn positions_net(ts: Seq<Trade>, u: u64, a: u64) -> int
    decreases ts.len(),
{
    if ts.len() == 0 {
        0
    } else {
        net_contrib(ts[0], u, a) + positions_net(ts.drop_first(), u, a)
    }
}

pub open spec fn pair_val(m: Map<(u64, u64), int>, k: (u64, u64)) -> int {
    if m.contains_key(k) {
        m[k]
    } else {
        0
    }
}

/// The holdings ledger mirrors the open positions, over the baseline
/// that outside holdings snapshots installed.
pub open spec fn holdings_consistent(s: EngineState) -> bool {
    forall|u: u64, a: u64|
        hold_of(s.holdings@, (u, a)) == pair_val(s.hold_base@, (u, a)) + positions_net(
            #[trigger] s.open_trades@,
            u,
            a,
        )
}

/// First position with this id, if any. Ids are unique, so it is the
/// only one.
pub open spec fn trade_by_id(ts: Seq<Trade>, id: u64) -> Option<Trade>
    decreases ts.len(),
{
    if ts.len() == 0 {
        None
    } else if ts[0].id == id {
        Some(ts[0])
    } else {
        trade_by_id(ts.drop_first(), id)
    }
}

pub open spec fn trades_unique(ts: Seq<Trade>) -> bool
    decreases ts.len(),
{
    ts.len() == 0 || (trade_by_id(ts.drop_first(), ts[0].id) is None && trades_unique(
        ts.drop_first(),
    ))
}

/// An id a FIFO close over (user, asset, side) positions never
/// touches: it names no position, or one outside that group.
pub open spec fn untouched_by_close(
    ts: Seq<Trade>,
    id: u64,
    user: u64,
    asset: u64,
    pos_side: Side,
) -> bool {
    match trade_by_id(ts, id) {
        Some(t) => !(t.user_id == user && t.asset == asset && t.side == pos_side),
        None => true,
    }
}

/// Margin a position claims out of the ledger entry under its id.
pub open spec fn pos_margin_of(ts: Seq<Trade>, id: u64) -> int {
    match trade_by_id(ts, id) {
        Some(t) => t.margin as int,
        None => 0,
    }
}

/// Every position is backed by a ledger entry of its own user holding
/// at least the position's margin.
pub open spec fn margins_covered(s: EngineState) -> bool {
    forall|i: int|
        0 <= i < s.open_trades@.len() ==> {
            let t = #[trigger] s.open_trades@[i];
            match alist_lookup(s.locked_margins@, t.id) {
                Some(e) => e.0 == t.user_id && e.1 >= t.margin,
                None => t.margin == 0,
            }
        }
}

/// Structural well-formedness of the whole container.
pub open spec fn state_wf(s: EngineState) -> bool {
    &&& alist_unique(s.balances@)
    &&& alist_unique(s.prices@)
    &&& alist_unique(s.pending_trades@)
    &&& alist_unique(s.locked_margins@)
    &&& alist_unique(s.order_books@)
    &&& alist_unique(s.correlation_ids@)
    &&& hlist_unique(s.holdings@)
    &&& trades_unique(s.open_trades@)
    &&& forall|i: int| 0 <= i < s.open_trades@.len() ==> valid_trade(#[trigger] s.open_trades@[i])
    &&& forall|i: int|
        0 <= i < s.order_books@.len() ==> book_wf(
            (#[trigger] s.order_books@[i]).1,
            s.order_books@[i].0,
        )
    &&& forall|i: int|
        0 <= i < s.prices@.len() ==> 0 < (#[trigger] s.prices@[i]).1 <= crate::types::MAX_PRICE
    &&& margins_covered(s)
    &&& forall|i: int|
        0 <= i < s.locked_margins@.len() ==> (#[trigger] s.locked_margins@[i]).0
            < s.next_order_id
    &&& forall|i: int|
        0 <= i < s.open_trades@.len() ==> (#[trigger] s.open_trades@[i]).id < s.next_order_id
    &&& forall|i: int|
        0 <= i < s.order_books@.len() ==> crate::book::book_ids_below(
            (#[trigger] s.order_books@[i]).1,
            s.next_order_id,
        )
}

/// The engine's full invariant: shape, conservation, and the mirror
/// between holdings and open positions.
pub open spec fn state_inv(s: EngineState) -> bool {
    &&& state_wf(s)
    &&& conserved(s)
    &&& holdings_consistent(s)
}

impl EngineState {
    /// A fresh, empty engine.
    pub fn new() -> (s: EngineState)
        ensures
            state_inv(s),
            s.balances@.len() == 0,
            s.open_trades@.len() == 0,
            s.order_books@.len() == 0,
            s.prices@.len() == 0,
            s.pending_trades@.len() == 0,
            s.holdings@.len() == 0,
            s.locked_margins@.len() == 0,
            s.correlation_ids@.len() == 0,
            s.next_order_id == 0,
            s.deposits@ == Map::<u64, int>::empty(),
            s.realized@ == Map::<u64, int>::empty(),
            s.hold_base@ == Map::<(u64, u64), int>::empty(),
    {
        EngineState {
            balances: Vec::new(),
            open_trades: Vec::new(),
            order_books: Vec::new(),
            prices: Vec::new(),
            pending_trades: Vec::new(),
            holdings: Vec::new(),
            locked_margins: Vec::new(),
            correlation_ids: Vec::new(),
            next_order_id: 0,
            deposits: Ghost(Map::empty()),
            realized: Ghost(Map::empty()),
            hold_base: Ghost(Map::empty()),
        }
    }

    /// Available balance, if the user is known.
    pub fn get_balance(&self, user: u64) -> (r: Option<i128>)
        ensures
            r == alist_lookup(self.balances@, user),
    {
        match alist_find(&self.balances, user) {
            Some(i) => Some(self.balances[i].1),
            None => None,
        }
    }

    /// Margin currently locked under an order or position id, or the
    /// caller's fallback when the ledger has no entry.
    pub fn get_locked_margin_or(&self, order_id: u64, fallback: u64) -> (r: u64)
        ensures
            r == match alist_lookup(self.locked_margins@, order_id) {
                Some(e) => e.1,
                None => fallback,
            },
    {
        match alist_find(&self.locked_margins, order_id) {
            Some(i) => self.locked_margins[i].1.1,
            None => fallback,
        }
    }

    /// Record `amount` as locked under `order_id` for `user_id`; a zero
    /// amount erases the entry.
    pub fn set_locked_margin(&mut self, order_id: u64, user_id: u64, amount: u64)
        ensures
            amount > 0 ==> final(self).locked_margins@ == alist_update(
                old(self).locked_margins@,
                order_id,
                (user_id, amount),
            ),
            amount == 0 ==> final(self).locked_margins@ == alist_remove(
                old(self).locked_margins@,
                order_id,
            ),
            *final(self) == (EngineState { locked_margins: final(self).locked_margins, ..*old(self) }),
    {
        if amount > 0 {
            alist_set(&mut self.locked_margins, order_id, (user_id, amount));
        } else {
            alist_del(&mut self.locked_margins, order_id);
        }
    }

    /// Erase the entry under `order_id`, handing back what it held.
    pub fn release_locked_margin(&mut self, order_id: u64) -> (r: u64)
        ensures
            final(self).locked_margins@ == alist_remove(old(self).locked_margins@, order_id),
            r as int == locked_of(old(self).locked_margins@, order_id),
            *final(self) == (EngineState { locked_margins: final(self).locked_margins, ..*old(self) }),
    {
        match alist_del(&mut self.locked_margins, order_id) {
            Some(e) => e.1,
            None => 0,
        }
    }

    /// Whether an accepted request already used this correlation id.
    pub fn correlation_used(&self, c: u64) -> (r: bool)
        ensures
            r == crate::alist::alist_has(self.correlation_ids@, c),
    {
        match alist_find(&self.correlation_ids, c) {
            Some(_) => true,
            None => false,
        }
    }

    /// Latest accepted mark price for an asset.
    pub fn get_price(&self, asset: u64) -> (r: Option<u64>)
        ensures
            r == alist_lookup(self.prices@, asset),
    {
        match alist_find(&self.prices, asset) {
            Some(i) => Some(self.prices[i].1),
            None => None,
        }
    }

    /// Net holdings for a (user, asset) pair, if known.
    pub fn get_holdings(&self, user: u64, asset: u64) -> (r: Option<i128>)
        ensures
            r == hlist_lookup(self.holdings@, (user, asset)),
    {
        match crate::hlist::hlist_find(&self.holdings, (user, asset)) {
            Some(i) => Some(self.holdings[i].1),
            None => None,
        }
    }
}

/// How one ledger write moves a user's locked-margin total.
pub proof fn lemma_locked_sum_update(s: Seq<(u64, (u64, u64))>, id: u64, e: (u64, u64), u: u64)
    ensures
        locked_sum(alist_update(s, id, e), u) == locked_sum(s, u) + (if e.0 == u {
            e.1 as int
        } else {
            0
        }) - (match alist_lookup(s, id) {
            Some(p) => if p.0 == u {
                p.1 as int
            } else {
                0
            },
            None => 0,
        }),
    decreases s.len(),
{
    if s.len() == 0 {
        let t = seq![(id, e)];
        assert(alist_update(s, id, e) == t);
        assert(t.drop_first() =~= Seq::<(u64, (u64, u64))>::empty());
        assert(locked_sum(t.drop_first(), u) == 0);
        assert(t[0] == (id, e));
    } else if s[0].0 == id {
        let t = seq![(id, e)] + s.drop_first();
        assert(t.drop_first() =~= s.drop_first());
        assert(t[0] == (id, e));
    } else {
        lemma_locked_sum_update(s.drop_first(), id, e, u);
        let t = seq![s[0]] + alist_update(s.drop_first(), id, e);
        assert(t.drop_first() =~= alist_update(s.drop_first(), id, e));
        assert(t[0] == s[0]);
    }
}

/// How erasing one ledger entry moves a user's locked-margin total.
pub proof fn lemma_locked_sum_remove(s: Seq<(u64, (u64, u64))>, id: u64, u: u64)
    ensures
        locked_sum(alist_remove(s, id), u) == locked_sum(s, u) - (match alist_lookup(s, id) {
            Some(p) => if p.0 == u {
                p.1 as int
            } else {
                0
            },
            None => 0,
        }),
    decreases s.len(),
{
    if s.len() == 0 {
    } else if s[0].0 == id {
    } else {
        lemma_locked_sum_remove(s.drop_first(), id, u);
        let t = seq![s[0]] + alist_remove(s.drop_first(), id);
        assert(t.drop_first() =~= alist_remove(s.drop_first(), id));
        assert(t[0] == s[0]);
    }
}

/// Rewriting one position moves the net exposure by the difference of
/// its contributions.
pub proof fn lemma_positions_net_update(ts: Seq<Trade>, i: int, t2: Trade, u: u64, a: u64)
    requires
        0 <= i < ts.len(),
    ensures
        positions_net(ts.update(i, t2), u, a) == positions_net(ts, u, a) - net_contrib(ts[i], u, a)
            + net_contrib(t2, u, a),
    decreases i,
{
    let t = ts.update(i, t2);
    if i == 0 {
        assert(t.drop_first() =~= ts.drop_first());
        assert(t[0] == t2);
    } else {
        lemma_positions_net_update(ts.drop_first(), i - 1, t2, u, a);
        assert(t.drop_first() =~= ts.drop_first().update(i - 1, t2));
        assert(t[0] == ts[0]);
        assert(ts.drop_first()[i - 1] == ts[i]);
    }
}

/// Dropping one position removes exactly its contribution.
pub proof fn lemma_positions_net_remove(ts: Seq<Trade>, i: int, u: u64, a: u64)
    requires
        0 <= i < ts.len(),
    ensures
        positions_net(ts.remove(i), u, a) == positions_net(ts, u, a) - net_contrib(ts[i], u, a),
    decreases i,
{
    let t = ts.remove(i);
    if i == 0 {
        assert(t =~= ts.drop_first());
    } else {
        lemma_positions_net_remove(ts.drop_first(), i - 1, u, a);
        assert(t.drop_first() =~= ts.drop_first().remove(i - 1));
        assert(t[0] == ts[0]);
        assert(ts.drop_first()[i - 1] == ts[i]);
    }
}

/// Appending one position adds exactly its contribution.
pub proof fn lemma_positions_net_push(ts: Seq<Trade>, t: Trade, u: u64, a: u64)
    ensures
        positions_net(ts.push(t), u, a) == positions_net(ts, u, a) + net_contrib(t, u, a),
    decreases ts.len(),
{
    let s = ts.push(t);
    if ts.len() == 0 {
        assert(s.drop_first() =~= Seq::<Trade>::empty());
        assert(positions_net(s.drop_first(), u, a) == 0);
        assert(s[0] == t);
    } else {
        lemma_positions_net_push(ts.drop_first(), t, u, a);
        assert(s.drop_first() =~= ts.drop_first().push(t));
        assert(s[0] == ts[0]);
    }
}

/// A position found at `i`, with all earlier ids missing, is what the
/// id lookup finds.
pub proof fn lemma_trade_by_id_at(ts: Seq<Trade>, i: int)
    requires
        0 <= i < ts.len(),
        forall|j: int| 0 <= j < i ==> (#[trigger] ts[j]).id != ts[i].id,
    ensures
        trade_by_id(ts, ts[i].id) == Some(ts[i]),
    decreases i,
{
    if i > 0 {
        lemma_trade_by_id_at(ts.drop_first(), i - 1);
        assert(ts.drop_first()[i - 1] == ts[i]);
    }
}

/// An id the lookup misses occurs on no position.
pub proof fn lemma_trade_by_id_absent(ts: Seq<Trade>, id: u64)
    requires
        forall|j: int| 0 <= j < ts.len() ==> (#[trigger] ts[j]).id != id,
    ensures
        trade_by_id(ts, id) is None,
    decreases ts.len(),
{
    if ts.len() > 0 {
        assert forall|j: int| 0 <= j < ts.drop_first().len() implies (
        #[trigger] ts.drop_first()[j]).id != id by {
            assert(ts.drop_first()[j] == ts[j + 1]);
        }
        lemma_trade_by_id_absent(ts.drop_first(), id);
    }
}

/// Rewriting a position in place, keeping its id, keeps ids unique and
/// changes only that id's lookup.
pub proof fn lemma_trades_update(ts: Seq<Trade>, i: int, t2: Trade)
    requires
        trades_unique(ts),
        0 <= i < ts.len(),
        t2.id == ts[i].id,
    ensures
        trades_unique(ts.update(i, t2)),
        forall|id2: u64|
            #[trigger] trade_by_id(ts.update(i, t2), id2) == if id2 == ts[i].id {
                Some(t2)
            } else {
                trade_by_id(ts, id2)
            },
    decreases i,
{
    let t = ts.update(i, t2);
    if i == 0 {
        assert(t.drop_first() =~= ts.drop_first());
        assert(t[0] == t2);
        assert forall|id2: u64|
            #[trigger] trade_by_id(t, id2) == (if id2 == ts[i].id {
                Some(t2)
            } else {
                trade_by_id(ts, id2)
            }) by {
            if id2 != ts[0].id {
                assert(trade_by_id(t, id2) == trade_by_id(t.drop_first(), id2));
            }
        }
    } else {
        lemma_trades_update(ts.drop_first(), i - 1, t2);
        assert(t.drop_first() =~= ts.drop_first().update(i - 1, t2));
        assert(t[0] == ts[0]);
        assert(ts.drop_first()[i - 1] == ts[i]);
        lemma_trade_by_id_none_no_id(ts.drop_first(), ts[0].id);
        assert(ts[i].id != ts[0].id);
        assert forall|id2: u64|
            #[trigger] trade_by_id(t, id2) == (if id2 == ts[i].id {
                Some(t2)
            } else {
                trade_by_id(ts, id2)
            }) by {
            if id2 != ts[0].id {
                assert(trade_by_id(t, id2) == trade_by_id(t.drop_first(), id2));
            }
        }
        assert(trade_by_id(t.drop_first(), t[0].id) is None);
    }
}

/// An id the lookup misses occurs on no position.
pub proof fn lemma_trade_by_id_none_no_id(ts: Seq<Trade>, id: u64)
    requires
        trade_by_id(ts, id) is None,
    ensures
        forall|j: int| 0 <= j < ts.len() ==> (#[trigger] ts[j]).id != id,
    decreases ts.len(),
{
    if ts.len() > 0 {
        lemma_trade_by_id_none_no_id(ts.drop_first(), id);
        assert forall|j: int| 0 <= j < ts.len() implies (#[trigger] ts[j]).id != id by {
            if j > 0 {
                assert(ts.drop_first()[j - 1] == ts[j]);
            }
        }
    }
}

/// Dropping a position keeps ids unique and blanks only its id.
pub proof fn lemma_trades_remove(ts: Seq<Trade>, i: int)
    requires
        trades_unique(ts),
        0 <= i < ts.len(),
    ensures
        trades_unique(ts.remove(i)),
        forall|id2: u64|
            #[trigger] trade_by_id(ts.remove(i), id2) == if id2 == ts[i].id {
                None::<Trade>
            } else {
                trade_by_id(ts, id2)
            },
    decreases i,
{
    let t = ts.remove(i);
    if i == 0 {
        assert(t =~= ts.drop_first());
        lemma_trade_by_id_none_no_id(ts.drop_first(), ts[0].id);
        assert forall|id2: u64|
            #[trigger] trade_by_id(t, id2) == (if id2 == ts[i].id {
                None::<Trade>
            } else {
                trade_by_id(ts, id2)
            }) by {
            if id2 != ts[0].id {
                assert(trade_by_id(ts, id2) == trade_by_id(ts.drop_first(), id2));
            }
        }
    } else {
        lemma_trades_remove(ts.drop_first(), i - 1);
        assert(t.drop_first() =~= ts.drop_first().remove(i - 1));
        assert(t[0] == ts[0]);
        assert(ts.drop_first()[i - 1] == ts[i]);
        lemma_trade_by_id_none_no_id(ts.drop_first(), ts[0].id);
        assert(ts[i].id != ts[0].id);
        assert forall|id2: u64|
            #[trigger] trade_by_id(t, id2) == (if id2 == ts[i].id {
                None::<Trade>
            } else {
                trade_by_id(ts, id2)
            }) by {
            if id2 != ts[0].id {
                assert(trade_by_id(t, id2) == trade_by_id(t.drop_first(), id2));
            }
        }
        assert(trade_by_id(t.drop_first(), t[0].id) is None);
    }
}

/// Appending a position with a fresh id keeps ids unique and adds only
/// that id's lookup.
pub proof fn lemma_trades_push(ts: Seq<Trade>, t: Trade)
    requires
        trades_unique(ts),
        trade_by_id(ts, t.id) is None,
    ensures
        trades_unique(ts.push(t)),
        forall|id2: u64|
            #[trigger] trade_by_id(ts.push(t), id2) == if id2 == t.id {
                Some(t)
            } else {
                trade_by_id(ts, id2)
            },
    decreases ts.len(),
{
    let s = ts.push(t);
    lemma_trade_by_id_none_no_id(ts, t.id);
    if ts.len() == 0 {
        assert(s.drop_first() =~= Seq::<Trade>::empty());
        assert(s[0] == t);
        assert forall|id2: u64|
            #[trigger] trade_by_id(s, id2) == (if id2 == t.id {
                Some(t)
            } else {
                trade_by_id(ts, id2)
            }) by {
            if id2 != t.id {
                assert(trade_by_id(s, id2) == trade_by_id(s.drop_first(), id2));
            }
        }
        assert(trade_by_id(s.drop_first(), s[0].id) is None);
        assert(trades_unique(s.drop_first()));
        assert(trades_unique(s));
    } else {
        lemma_trades_push(ts.drop_first(), t);
        assert(s.drop_first() =~= ts.drop_first().push(t));
        assert(s[0] == ts[0]);
        assert(ts[0].id != t.id);
        assert forall|id2: u64|
            #[trigger] trade_by_id(s, id2) == (if id2 == t.id {
                Some(t)
            } else {
                trade_by_id(ts, id2)
            }) by {
            if id2 != ts[0].id {
                assert(trade_by_id(s, id2) == trade_by_id(s.drop_first(), id2));
            }
        }
        assert(trade_by_id(s.drop_first(), s[0].id) is None);
        assert(trades_unique(s.drop_first()));
        assert(trades_unique(s));
    }
}

/// A position the id lookup finds sits at some index.
pub proof fn lemma_trade_by_id_index(ts: Seq<Trade>, id: u64)
    requires
        trade_by_id(ts, id) is Some,
    ensures
        exists|i: int| 0 <= i < ts.len() && #[trigger] ts[i] == trade_by_id(ts, id).unwrap(),
        trade_by_id(ts, id).unwrap().id == id,
    decreases ts.len(),
{
    if ts.len() > 0 {
        if ts[0].id == id {
            assert(ts[0] == trade_by_id(ts, id).unwrap());
        } else {
            lemma_trade_by_id_index(ts.drop_first(), id);
            let i = choose|i: int|
                0 <= i < ts.drop_first().len() && #[trigger] ts.drop_first()[i] == trade_by_id(
                    ts.drop_first(),
                    id,
                ).unwrap();
            assert(ts[i + 1] == trade_by_id(ts, id).unwrap());
        }
    }
}

/// Unique ids, pairwise.
pub proof fn lemma_trades_unique_pairwise(ts: Seq<Trade>)
    requires
        trades_unique(ts),
    ensures
        forall|i: int, j: int|
            0 <= i < j < ts.len() ==> (#[trigger] ts[i]).id != (#[trigger] ts[j]).id,
    decreases ts.len(),
{
    if ts.len() > 0 {
        lemma_trades_unique_pairwise(ts.drop_first());
        lemma_trade_by_id_none_no_id(ts.drop_first(), ts[0].id);
        assert forall|i: int, j: int|
            0 <= i < j < ts.len() implies (#[trigger] ts[i]).id != (#[trigger] ts[j]).id by {
            if i > 0 {
                assert(ts.drop_first()[i - 1] == ts[i]);
                assert(ts.drop_first()[j - 1] == ts[j]);
            } else {
                assert(ts.drop_first()[j - 1] == ts[j]);
            }
        }
    }
}

/// Ledger keys stay below the id counter across writes of known keys.
pub proof fn lemma_keys_below_update<V>(s: Seq<(u64, V)>, id: u64, e: V, n: u64)
    requires
        forall|i: int| 0 <= i < s.len() ==> (#[trigger] s[i]).0 < n,
        id < n,
    ensures
        forall|i: int| 0 <= i < alist_update(s, id, e).len() ==> (#[trigger] alist_update(
            s,
            id,
            e,
        )[i]).0 < n,
    decreases s.len(),
{
    let t = alist_update(s, id, e);
    if s.len() == 0 {
    } else if s[0].0 == id {
        assert forall|i: int| 0 <= i < t.len() implies (#[trigger] t[i]).0 < n by {
            if i > 0 {
                assert(t[i] == s[i]);
            }
        }
    } else {
        assert forall|i: int| 0 <= i < s.drop_first().len() implies (
        #[trigger] s.drop_first()[i]).0 < n by {
            assert(s.drop_first()[i] == s[i + 1]);
        }
        lemma_keys_below_update(s.drop_first(), id, e, n);
        assert forall|i: int| 0 <= i < t.len() implies (#[trigger] t[i]).0 < n by {
            if i > 0 {
                assert(t[i] == alist_update(s.drop_first(), id, e)[i - 1]);
            }
        }
    }
}

/// Erasing an entry never introduces a key.
pub proof fn lemma_keys_below_remove<V>(s: Seq<(u64, V)>, id: u64, n: u64)
    requires
        forall|i: int| 0 <= i < s.len() ==> (#[trigger] s[i]).0 < n,
    ensures
        forall|i: int| 0 <= i < alist_remove(s, id).len() ==> (#[trigger] alist_remove(
            s,
            id,
        )[i]).0 < n,
    decreases s.len(),
{
    let t = alist_remove(s, id);
    if s.len() == 0 {
    } else if s[0].0 == id {
        assert forall|i: int| 0 <= i < t.len() implies (#[trigger] t[i]).0 < n by {
            assert(t[i] == s[i + 1]);
        }
    } else {
        assert forall|i: int| 0 <= i < s.drop_first().len() implies (
        #[trigger] s.drop_first()[i]).0 < n by {
            assert(s.drop_first()[i] == s[i + 1]);
        }
        lemma_keys_below_remove(s.drop_first(), id, n);
        assert forall|i: int| 0 <= i < t.len() implies (#[trigger] t[i]).0 < n by {
            if i > 0 {
                assert(t[i] == alist_remove(s.drop_first(), id)[i - 1]);
            }
        }
    }
}

/// Quantity one position contributes to the closable exposure on the
/// opposite side of an incoming order.
pub open spec fn opp_contrib(t: Trade, u: u64, a: u64, side: Side) -> int {
    if t.user_id == u && t.asset == a && t.side == side {
        t.quantity as int
    } else {
        0
    }
}

/// Total quantity of a user's open positions of one side in an asset.
pub open spec fn opp_total(ts: Seq<Trade>, u: u64, a: u64, side: Side) -> int
    decreases ts.len(),
{
    if ts.len() == 0 {
        0
    } else {
        opp_contrib(ts[0], u, a, side) + opp_total(ts.drop_first(), u, a, side)
    }
}

pub proof fn lemma_opp_total_take_snoc(ts: Seq<Trade>, i: int, u: u64, a: u64, side: Side)
    requires
        0 <= i < ts.len(),
    ensures
        opp_total(ts.take(i + 1), u, a, side) == opp_total(ts.take(i), u, a, side) + opp_contrib(
            ts[i],
            u,
            a,
            side,
        ),
    decreases i,
{
    if i == 0 {
        assert(ts.take(1).drop_first() =~= Seq::<Trade>::empty());
        assert(ts.take(0) =~= Seq::<Trade>::empty());
        assert(ts.take(1)[0] == ts[0]);
    } else {
        lemma_opp_total_take_snoc(ts.drop_first(), i - 1, u, a, side);
        assert(ts.take(i + 1).drop_first() =~= ts.drop_first().take(i));
        assert(ts.take(i).drop_first() =~= ts.drop_first().take(i - 1));
        assert(ts.take(i + 1)[0] == ts[0]);
        assert(ts.take(i)[0] == ts[0]);
        assert(ts.drop_first()[i - 1] == ts[i]);
    }
}

pub proof fn lemma_opp_total_nonneg(ts: Seq<Trade>, u: u64, a: u64, side: Side)
    ensures
        opp_total(ts, u, a, side) >= 0,
    decreases ts.len(),
{
    if ts.len() > 0 {
        lemma_opp_total_nonneg(ts.drop_first(), u, a, side);
    }
}

impl EngineState {
    /// Index of the position with this id.
    pub fn find_trade(&self, id: u64) -> (r: Option<usize>)
        ensures
            match r {
                Some(i) => i < self.open_trades@.len() && self.open_trades@[i as int].id == id
                    && trade_by_id(self.open_trades@, id) == Some(self.open_trades@[i as int])
                    && (forall|j: int| 0 <= j < i ==> (#[trigger] self.open_trades@[j]).id != id),
                None => trade_by_id(self.open_trades@, id) is None,
            },
    {
        let mut i: usize = 0;
        while i < self.open_trades.len()
            invariant
                i <= self.open_trades@.len(),
                forall|j: int| 0 <= j < i ==> (#[trigger] self.open_trades@[j]).id != id,
            decreases self.open_trades@.len() - i,
        {
            if self.open_trades[i].id == id {
                proof {
                    lemma_trade_by_id_at(self.open_trades@, i as int);
                }
                return Some(i);
            }
            i = i + 1;
        }
        proof {
            lemma_trade_by_id_absent(self.open_trades@, id);
        }
        None
    }

    /// Index of the earliest open position of this user, asset and side:
    /// positions close in creation order.
    pub fn find_first_position(&self, user: u64, asset: u64, side: Side) -> (r: Option<usize>)
        ensures
            match r {
                Some(i) => i < self.open_trades@.len() && {
                    let t = self.open_trades@[i as int];
                    t.user_id == user && t.asset == asset && t.side == side
                } && (forall|j: int|
                    0 <= j < i ==> opp_contrib(#[trigger] self.open_trades@[j], user, asset, side)
                        == 0),
                None => forall|j: int|
                    0 <= j < self.open_trades@.len() ==> opp_contrib(
                        #[trigger] self.open_trades@[j],
                        user,
                        asset,
                        side,
                    ) == 0,
            },
    {
        let mut i: usize = 0;
        while i < self.open_trades.len()
            invariant
                i <= self.open_trades@.len(),
                forall|j: int|
                    0 <= j < i ==> opp_contrib(
                        #[trigger] self.open_trades@[j],
                        user,
                        asset,
                        side,
                    ) == 0,
            decreases self.open_trades@.len() - i,
        {
            let t = &self.open_trades[i];
            if t.user_id == user && t.asset == asset && matches!(t.side, Side::Buy)
                == matches!(side, Side::Buy) {
                return Some(i);
            }
            i = i + 1;
        }
        None
    }

    /// How much of `cap` existing opposite positions could absorb.
    pub fn closable_qty(&self, user: u64, asset: u64, side: Side, cap: u64) -> (r: u64)
        ensures
            r as int == if cap as int <= opp_total(self.open_trades@, user, asset, side) {
                cap as int
            } else {
                opp_total(self.open_trades@, user, asset, side)
            },
    {
        let ts = &self.open_trades;
        let mut acc: u64 = 0;
        let mut i: usize = 0;
        proof {
            assert(ts@.take(0) =~= Seq::<Trade>::empty());
        }
        while i < ts.len()
            invariant
                i <= ts@.len(),
                acc as int == if cap as int <= opp_total(ts@.take(i as int), user, asset, side) {
                    cap as int
                } else {
                    opp_total(ts@.take(i as int), user, asset, side)
                },
                acc <= cap,
            decreases ts@.len() - i,
        {
            let t = &ts[i];
            proof {
                lemma_opp_total_take_snoc(ts@, i as int, user, asset, side);
                lemma_opp_total_nonneg(ts@.take(i as int), user, asset, side);
            }
            if t.user_id == user && t.asset == asset && matches!(t.side, Side::Buy) == matches!(
                side,
                Side::Buy,
            ) {
                let room = cap - acc;
                if t.quantity >= room {
                    acc = cap;
                } else {
                    acc = acc + t.quantity;
                }
            }
            i = i + 1;
        }
        proof {
            assert(ts@.take(ts@.len() as int) =~= ts@);
        }
        acc
    }
}

/// Sum that a checked 128-bit addition would produce, when it fits.
pub fn checked_add_i128(a: i128, b: i128) -> (r: Option<i128>)
    ensures
        match r {
            Some(x) => x == a + b,
            None => a + b > i128::MAX || a + b < i128::MIN,
        },
{
    if b >= 0 {
        if a <= i128::MAX - b {
            Some(a + b)
        } else {
            None
        }
    } else {
        if a >= i128::MIN - b {
            Some(a + b)
        } else {
            None
        }
    }
}

} // verus!
