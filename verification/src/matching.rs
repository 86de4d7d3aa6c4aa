use vstd::prelude::*;

use crate::book::{ladder_view, ladder_wf, level_wf, Level, LevelView};
use crate::types::{valid_order, Fill, Order, OrderType, Side, MAX_QTY};

verus! {

/// The pro-rated share of a resting order's margin that `q` units of
/// its remainder carry.
pub open spec fn exec_margin_of(o: Order, q: u64) -> int {
    if o.filled < o.quantity {
        (o.margin * q) / (o.quantity - o.filled)
    } else {
        0
    }
}

/// The execution record minted when `q` units of resting order `o` trade.
pub open spec fn fill_of(o: Order, q: u64) -> Fill {
    Fill {
        order_id: o.id,
        uuid: o.uuid,
        user_id: o.user_id,
        asset: o.asset,
        side: o.side,
        quantity: q,
        price: o.price,
        prev_remaining: (o.quantity - o.filled) as u64,
        margin: exec_margin_of(o, q) as u64,
        leverage: o.leverage,
        created_at: o.created_at,
        stop_loss_percent: o.stop_loss_percent,
        take_profit_percent: o.take_profit_percent,
    }
}

/// A resting order after `q` more units filled: partially filled now,
/// its margin pro-rated down by the executed share.
pub open spec fn with_filled(o: Order, q: u64) -> Order {
    Order {
        filled: (o.filled + q) as u64,
        status: crate::types::OrderStatus::PartiallyFilled,
        margin: (o.margin - exec_margin_of(o, q)) as u64,
        ..o
    }
}

/// Result of matching against one FIFO queue.
pub ghost struct QueueMatch {
    pub fills: Seq<Fill>,
    pub kept: Seq<Order>,
    pub remaining: u64,
}

/// Result of matching against a whole ladder.
pub ghost struct LadderMatch {
    pub fills: Seq<Fill>,
    pub ladder: Seq<LevelView>,
    pub remaining: u64,
}

/// Price-time matching within one level: consume the queue front-first,
/// skipping the taker's own orders, until the taker quantity runs out.
pub open spec fn match_queue_spec(orders: Seq<Order>, taker: u64, rem: u64) -> QueueMatch
    decreases orders.len(),
{
    if rem == 0 || orders.len() == 0 {
        QueueMatch { fills: Seq::empty(), kept: orders, remaining: rem }
    } else {
        let o = orders[0];
        if o.user_id == taker {
            let rest = match_queue_spec(orders.drop_first(), taker, rem);
            QueueMatch {
                fills: rest.fills,
                kept: seq![o] + rest.kept,
                remaining: rest.remaining,
            }
        } else {
            let avail = (o.quantity - o.filled) as u64;
            if rem >= avail {
                let rest = match_queue_spec(orders.drop_first(), taker, (rem - avail) as u64);
                QueueMatch {
                    fills: seq![fill_of(o, avail)] + rest.fills,
                    kept: rest.kept,
                    remaining: rest.remaining,
                }
            } else {
                QueueMatch {
                    fills: seq![fill_of(o, rem)],
                    kept: seq![with_filled(o, rem)] + orders.drop_first(),
                    remaining: 0,
                }
            }
        }
    }
}

/// Whether a level at `price` is eligible for the taker: market orders
/// cross everything, limit orders only prices on the right side.
pub open spec fn crosses(taker_is_buy: bool, limit: Option<u64>, price: u64) -> bool {
    match limit {
        None => true,
        Some(lim) => if taker_is_buy {
            price <= lim
        } else {
            price >= lim
        },
    }
}

/// Price-time matching across a ladder, best level first; stops at the
/// first level the taker does not cross. Emptied levels are erased.
pub open spec fn match_ladder_spec(
    ls: Seq<LevelView>,
    taker: u64,
    rem: u64,
    taker_is_buy: bool,
    limit: Option<u64>,
) -> LadderMatch
    decreases ls.len(),
{
    if rem == 0 || ls.len() == 0 {
        LadderMatch { fills: Seq::empty(), ladder: ls, remaining: rem }
    } else {
        let lv = ls[0];
        if !crosses(taker_is_buy, limit, lv.price) {
            LadderMatch { fills: Seq::empty(), ladder: ls, remaining: rem }
        } else {
            let step = match_queue_spec(lv.orders, taker, rem);
            let rest = match_ladder_spec(ls.drop_first(), taker, step.remaining, taker_is_buy, limit);
            let ladder = if step.kept.len() == 0 {
                rest.ladder
            } else {
                seq![LevelView { price: lv.price, orders: step.kept }] + rest.ladder
            };
            LadderMatch { fills: step.fills + rest.fills, ladder: ladder, remaining: rest.remaining }
        }
    }
}

/// Total quantity executed across a list of fills.
pub open spec fn fills_qty(fs: Seq<Fill>) -> int
    decreases fs.len(),
{
    if fs.len() == 0 {
        0
    } else {
        fs[0].quantity + fills_qty(fs.drop_first())
    }
}

/// Total money volume (price times quantity) across a list of fills.
pub open spec fn fills_notional(fs: Seq<Fill>) -> int
    decreases fs.len(),
{
    if fs.len() == 0 {
        0
    } else {
        fs[0].price * fs[0].quantity + fills_notional(fs.drop_first())
    }
}

/// What every fill minted by the matcher satisfies.
pub open spec fn fill_ok(f: Fill, asset: u64, side: Side, taker: u64) -> bool {
    &&& f.user_id != taker
    &&& f.asset == asset
    &&& f.side == side
    &&& 0 < f.quantity <= f.prev_remaining
    &&& f.prev_remaining <= MAX_QTY
    &&& 0 < f.price <= crate::types::MAX_PRICE
    &&& 1 <= f.leverage <= crate::types::MAX_LEVERAGE
    &&& (match f.stop_loss_percent {
        Some(p) => p <= crate::types::MAX_PERCENT,
        None => true,
    })
    &&& (match f.take_profit_percent {
        Some(p) => p <= crate::types::MAX_PERCENT,
        None => true,
    })
}

/// Splitting a fill list splits its sums.
pub proof fn lemma_fills_sums_app(a: Seq<Fill>, b: Seq<Fill>)
    ensures
        fills_qty(a + b) == fills_qty(a) + fills_qty(b),
        fills_notional(a + b) == fills_notional(a) + fills_notional(b),
    decreases a.len(),
{
    if a.len() == 0 {
        assert(a + b =~= b);
    } else {
        lemma_fills_sums_app(a.drop_first(), b);
        assert((a + b).drop_first() =~= a.drop_first() + b);
        assert((a + b)[0] == a[0]);
    }
}

/// Fill sums are non-negative, and the notional never exceeds the
/// best-price bound on the executed quantity.
pub proof fn lemma_fills_sums_bounds(fs: Seq<Fill>)
    requires
        forall|k: int| 0 <= k < fs.len() ==> 0 < (#[trigger] fs[k]).price
            <= crate::types::MAX_PRICE,
    ensures
        fills_qty(fs) >= 0,
        fills_qty(fs) <= fills_notional(fs),
        fills_notional(fs) <= crate::types::MAX_PRICE * fills_qty(fs),
    decreases fs.len(),
{
    if fs.len() > 0 {
        assert(fs.drop_first() =~= fs.skip(1));
        assert forall|k: int| 0 <= k < fs.drop_first().len() implies 0 < (
        #[trigger] fs.drop_first()[k]).price <= crate::types::MAX_PRICE by {
            assert(fs.drop_first()[k] == fs[k + 1]);
        }
        lemma_fills_sums_bounds(fs.drop_first());
        let p = fs[0].price as int;
        let q = fs[0].quantity as int;
        assert(q <= p * q && p * q <= crate::types::MAX_PRICE * q) by (nonlinear_arith)
            requires
                1 <= p <= crate::types::MAX_PRICE as int,
                0 <= q,
        ;
        assert(crate::types::MAX_PRICE * q + crate::types::MAX_PRICE * fills_qty(fs.drop_first())
            == crate::types::MAX_PRICE * fills_qty(fs)) by (nonlinear_arith)
            requires
                fills_qty(fs) == q + fills_qty(fs.drop_first()),
        ;
    }
}

/// The sums of a fill list split at any point.
pub proof fn lemma_fills_split(fs: Seq<Fill>, i: int)
    requires
        0 <= i <= fs.len(),
    ensures
        fills_qty(fs) == fills_qty(fs.take(i)) + fills_qty(fs.skip(i)),
        fills_notional(fs) == fills_notional(fs.take(i)) + fills_notional(fs.skip(i)),
    decreases i,
{
    if i == 0 {
        assert(fs.take(0) =~= Seq::<Fill>::empty());
        assert(fs.skip(0) =~= fs);
    } else {
        lemma_fills_split(fs.drop_first(), i - 1);
        assert(fs.take(i).drop_first() =~= fs.drop_first().take(i - 1));
        assert(fs.skip(i) =~= fs.drop_first().skip(i - 1));
        assert(fs.take(i)[0] == fs[0]);
    }
}

/// One more fill extends both prefix sums by that fill's contribution.
pub proof fn lemma_fills_take_snoc(fs: Seq<Fill>, i: int)
    requires
        0 <= i < fs.len(),
    ensures
        fills_qty(fs.take(i + 1)) == fills_qty(fs.take(i)) + fs[i].quantity,
        fills_notional(fs.take(i + 1)) == fills_notional(fs.take(i)) + fs[i].price * fs[
            i
        ].quantity,
    decreases i,
{
    if i == 0 {
        assert(fs.take(1).drop_first() =~= Seq::<Fill>::empty());
        assert(fs.take(0) =~= Seq::<Fill>::empty());
        assert(fs.take(1)[0] == fs[0]);
    } else {
        lemma_fills_take_snoc(fs.drop_first(), i - 1);
        assert(fs.take(i + 1).drop_first() =~= fs.drop_first().take(i));
        assert(fs.take(i).drop_first() =~= fs.drop_first().take(i - 1));
        assert(fs.take(i + 1)[0] == fs[0]);
        assert(fs.take(i)[0] == fs[0]);
        assert(fs.drop_first()[i - 1] == fs[i]);
    }
}

/// Executed quantity and volume-weighted average price of a fill list.
/// The average sits between the lowest and highest fill price, so it is
/// itself a price in range.
pub fn fills_vwap(fills: &Vec<Fill>) -> (r: (u64, u64))
    requires
        fills_qty(fills@) <= MAX_QTY,
        forall|k: int| 0 <= k < fills@.len() ==> 0 < (#[trigger] fills@[k]).price
            <= crate::types::MAX_PRICE,
    ensures
        r.0 as int == fills_qty(fills@),
        fills_qty(fills@) > 0 ==> r.1 as int == fills_notional(fills@) / fills_qty(fills@) && 0
            < r.1 <= crate::types::MAX_PRICE,
        fills_qty(fills@) == 0 ==> r.1 == 0,
{
    let mut qty: u64 = 0;
    let mut notional: u128 = 0;
    let mut i: usize = 0;
    proof {
        assert(fills@.take(0) =~= Seq::<Fill>::empty());
        lemma_fills_sums_bounds(fills@);
    }
    while i < fills.len()
        invariant
            i <= fills@.len(),
            qty as int == fills_qty(fills@.take(i as int)),
            notional as int == fills_notional(fills@.take(i as int)),
            fills_qty(fills@) <= MAX_QTY,
            qty <= MAX_QTY,
            notional as int <= crate::types::MAX_PRICE as int * MAX_QTY as int,
            forall|k: int| 0 <= k < fills@.len() ==> 0 < (#[trigger] fills@[k]).price
                <= crate::types::MAX_PRICE,
        decreases fills@.len() - i,
    {
        proof {
            lemma_fills_take_snoc(fills@, i as int);
            lemma_fills_split(fills@, i as int + 1);
            assert forall|k: int| 0 <= k < fills@.skip(i as int + 1).len() implies 0 < (
            #[trigger] fills@.skip(i as int + 1)[k]).price <= crate::types::MAX_PRICE by {
                assert(fills@.skip(i as int + 1)[k] == fills@[k + i + 1]);
            }
            lemma_fills_sums_bounds(fills@.skip(i as int + 1));
            assert forall|k: int| 0 <= k < fills@.take(i as int + 1).len() implies 0 < (
            #[trigger] fills@.take(i as int + 1)[k]).price <= crate::types::MAX_PRICE by {
                assert(fills@.take(i as int + 1)[k] == fills@[k]);
            }
            lemma_fills_sums_bounds(fills@.take(i as int + 1));
            assert(crate::types::MAX_PRICE as int * fills_qty(fills@.take(i as int + 1))
                <= crate::types::MAX_PRICE as int * MAX_QTY as int) by (nonlinear_arith)
                requires
                    0 <= fills_qty(fills@.take(i as int + 1)) <= MAX_QTY as int,
            ;
            assert(fills@[i as int].price as int * fills@[i as int].quantity as int >= 0)
                by (nonlinear_arith)
                requires
                    0 <= fills@[i as int].price as int,
                    0 <= fills@[i as int].quantity as int,
            ;
        }
        qty = qty + fills[i].quantity;
        notional = notional + fills[i].price as u128 * fills[i].quantity as u128;
        i = i + 1;
    }
    proof {
        assert(fills@.take(fills@.len() as int) =~= fills@);
    }
    if qty == 0 {
        (0, 0)
    } else {
        proof {
            lemma_fills_sums_bounds(fills@);
            vstd::arithmetic::div_mod::lemma_div_is_ordered(
                fills_qty(fills@),
                fills_notional(fills@),
                fills_qty(fills@),
            );
            vstd::arithmetic::div_mod::lemma_div_is_ordered(
                fills_notional(fills@),
                crate::types::MAX_PRICE as int * fills_qty(fills@),
                fills_qty(fills@),
            );
            vstd::arithmetic::div_mod::lemma_div_multiples_vanish(
                crate::types::MAX_PRICE as int,
                fills_qty(fills@),
            );
            assert(fills_qty(fills@) / fills_qty(fills@) == 1) by {
                vstd::arithmetic::div_mod::lemma_div_multiples_vanish(1int, fills_qty(fills@));
            }
        }
        let vwap = (notional / qty as u128) as u64;
        (qty, vwap)
    }
}

/// What matching one queue guarantees: the taker never trades with
/// itself, executed quantity is conserved, fills stay within the book's
/// bounds, and the surviving queue is still well formed.
pub proof fn lemma_match_queue_props(
    orders: Seq<Order>,
    taker: u64,
    rem: u64,
    asset: u64,
    side: Side,
    price: u64,
)
    requires
        forall|i: int|
            0 <= i < orders.len() ==> {
                let o = #[trigger] orders[i];
                &&& o.asset == asset
                &&& o.side == side
                &&& o.order_type == OrderType::Limit
                &&& o.price == price
                &&& o.filled < o.quantity
                &&& (o.filled == 0 ==> o.status == crate::types::OrderStatus::Open)
                &&& (o.filled > 0 ==> o.status == crate::types::OrderStatus::PartiallyFilled)
                &&& valid_order(o)
            },
    ensures
        ({
            let m = match_queue_spec(orders, taker, rem);
            &&& m.remaining <= rem
            &&& fills_qty(m.fills) == rem - m.remaining
            &&& forall|k: int|
                0 <= k < m.fills.len() ==> fill_ok(#[trigger] m.fills[k], asset, side, taker)
                    && m.fills[k].price == price
            &&& forall|i: int|
                0 <= i < m.kept.len() ==> {
                    let o = #[trigger] m.kept[i];
                    &&& o.asset == asset
                    &&& o.side == side
                    &&& o.order_type == OrderType::Limit
                    &&& o.price == price
                    &&& o.filled < o.quantity
                    &&& (o.filled == 0 ==> o.status == crate::types::OrderStatus::Open)
                    &&& (o.filled > 0 ==> o.status == crate::types::OrderStatus::PartiallyFilled)
                    &&& valid_order(o)
                }
        }),
    decreases orders.len(),
{
    let m = match_queue_spec(orders, taker, rem);
    if rem == 0 || orders.len() == 0 {
    } else {
        let o = orders[0];
        assert forall|i: int| 0 <= i < orders.drop_first().len() implies {
            let o2 = #[trigger] orders.drop_first()[i];
            &&& o2.asset == asset
            &&& o2.side == side
            &&& o2.order_type == OrderType::Limit
            &&& o2.price == price
            &&& o2.filled < o2.quantity
            &&& (o2.filled == 0 ==> o2.status == crate::types::OrderStatus::Open)
            &&& (o2.filled > 0 ==> o2.status == crate::types::OrderStatus::PartiallyFilled)
            &&& (o2.filled == 0 ==> o2.status == crate::types::OrderStatus::Open)
            &&& (o2.filled > 0 ==> o2.status == crate::types::OrderStatus::PartiallyFilled)
            &&& valid_order(o2)
        } by {
            assert(orders.drop_first()[i] == orders[i + 1]);
        }
        if o.user_id == taker {
            lemma_match_queue_props(orders.drop_first(), taker, rem, asset, side, price);
            let rest = match_queue_spec(orders.drop_first(), taker, rem);
            assert(m.kept == seq![o] + rest.kept);
            assert forall|i: int| 0 <= i < m.kept.len() implies {
                let o2 = #[trigger] m.kept[i];
                &&& o2.asset == asset
                &&& o2.side == side
                &&& o2.order_type == OrderType::Limit
                &&& o2.price == price
                &&& o2.filled < o2.quantity
                &&& (o2.filled == 0 ==> o2.status == crate::types::OrderStatus::Open)
                &&& (o2.filled > 0 ==> o2.status == crate::types::OrderStatus::PartiallyFilled)
                &&& valid_order(o2)
            } by {
                if i > 0 {
                    assert(m.kept[i] == rest.kept[i - 1]);
                } else {
                    assert(m.kept[0] == o);
                }
            }
        } else {
            let avail = (o.quantity - o.filled) as u64;
            if rem >= avail {
                lemma_match_queue_props(
                    orders.drop_first(),
                    taker,
                    (rem - avail) as u64,
                    asset,
                    side,
                    price,
                );
                let rest = match_queue_spec(orders.drop_first(), taker, (rem - avail) as u64);
                assert(m.fills == seq![fill_of(o, avail)] + rest.fills);
                assert(m.fills.drop_first() =~= rest.fills);
                assert(fill_ok(fill_of(o, avail), asset, side, taker));
                assert forall|k: int| 0 <= k < m.fills.len() implies fill_ok(
                    #[trigger] m.fills[k],
                    asset,
                    side,
                    taker,
                ) && m.fills[k].price == price by {
                    if k > 0 {
                        assert(m.fills[k] == rest.fills[k - 1]);
                    }
                }
            } else {
                let f = fill_of(o, rem);
                let o2 = with_filled(o, rem);
                crate::execution::lemma_mul_div_bounds(
                    o.margin as int,
                    rem as int,
                    (o.quantity - o.filled) as int,
                );
                assert(0 <= exec_margin_of(o, rem) <= o.margin);
                assert(m.fills =~= seq![f]);
                assert(m.fills.drop_first() =~= Seq::<Fill>::empty());
                assert(fills_qty(Seq::<Fill>::empty()) == 0);
                assert(m.fills[0] == f);
                assert(fills_qty(m.fills) == rem);
                assert(fill_ok(f, asset, side, taker));
                assert forall|i: int| 0 <= i < m.kept.len() implies {
                    let o3 = #[trigger] m.kept[i];
                    &&& o3.asset == asset
                    &&& o3.side == side
                    &&& o3.order_type == OrderType::Limit
                    &&& o3.price == price
                    &&& o3.filled < o3.quantity
                    &&& (o3.filled == 0 ==> o3.status == crate::types::OrderStatus::Open)
                    &&& (o3.filled > 0 ==> o3.status == crate::types::OrderStatus::PartiallyFilled)
                    &&& valid_order(o3)
                } by {
                    if i > 0 {
                        assert(m.kept[i] == orders[i]);
                    } else {
                        assert(m.kept[0] == o2);
                    }
                }
            }
        }
    }
}

/// Matching keeps every surviving and every filled order id below the
/// mint counter.
pub proof fn lemma_match_queue_ids(orders: Seq<Order>, taker: u64, rem: u64, n: u64)
    requires
        forall|i: int| 0 <= i < orders.len() ==> (#[trigger] orders[i]).id < n,
    ensures
        ({
            let m = match_queue_spec(orders, taker, rem);
            &&& forall|i: int| 0 <= i < m.kept.len() ==> (#[trigger] m.kept[i]).id < n
            &&& forall|k: int| 0 <= k < m.fills.len() ==> (#[trigger] m.fills[k]).order_id < n
        }),
    decreases orders.len(),
{
    let m = match_queue_spec(orders, taker, rem);
    if rem == 0 || orders.len() == 0 {
    } else {
        let o = orders[0];
        assert forall|i: int| 0 <= i < orders.drop_first().len() implies (
        #[trigger] orders.drop_first()[i]).id < n by {
            assert(orders.drop_first()[i] == orders[i + 1]);
        }
        if o.user_id == taker {
            lemma_match_queue_ids(orders.drop_first(), taker, rem, n);
            let rest = match_queue_spec(orders.drop_first(), taker, rem);
            assert forall|i: int| 0 <= i < m.kept.len() implies (#[trigger] m.kept[i]).id < n by {
                if i > 0 {
                    assert(m.kept[i] == rest.kept[i - 1]);
                }
            }
        } else {
            let avail = (o.quantity - o.filled) as u64;
            if rem >= avail {
                lemma_match_queue_ids(orders.drop_first(), taker, (rem - avail) as u64, n);
                let rest = match_queue_spec(orders.drop_first(), taker, (rem - avail) as u64);
                assert forall|k: int| 0 <= k < m.fills.len() implies (
                #[trigger] m.fills[k]).order_id < n by {
                    if k > 0 {
                        assert(m.fills[k] == rest.fills[k - 1]);
                    }
                }
            } else {
                assert forall|i: int| 0 <= i < m.kept.len() implies (#[trigger] m.kept[i]).id
                    < n by {
                    if i > 0 {
                        assert(m.kept[i] == orders[i]);
                    }
                }
                assert(m.fills[0] == fill_of(o, rem));
            }
        }
    }
}

pub proof fn lemma_match_ladder_ids(
    ls: Seq<LevelView>,
    taker: u64,
    rem: u64,
    taker_is_buy: bool,
    limit: Option<u64>,
    n: u64,
)
    requires
        crate::book::ladder_ids_below(ls, n),
    ensures
        ({
            let m = match_ladder_spec(ls, taker, rem, taker_is_buy, limit);
            &&& crate::book::ladder_ids_below(m.ladder, n)
            &&& forall|k: int| 0 <= k < m.fills.len() ==> (#[trigger] m.fills[k]).order_id < n
        }),
    decreases ls.len(),
{
    let m = match_ladder_spec(ls, taker, rem, taker_is_buy, limit);
    if rem == 0 || ls.len() == 0 {
    } else {
        let lv = ls[0];
        if !crosses(taker_is_buy, limit, lv.price) {
        } else {
            assert forall|j: int| 0 <= j < lv.orders.len() implies (#[trigger] lv.orders[j]).id
                < n by {
                assert(ls[0].orders[j] == lv.orders[j]);
            }
            lemma_match_queue_ids(lv.orders, taker, rem, n);
            let step = match_queue_spec(lv.orders, taker, rem);
            assert(crate::book::ladder_ids_below(ls.drop_first(), n)) by {
                assert(forall|i: int|
                    0 <= i < ls.drop_first().len() ==> #[trigger] ls.drop_first()[i] == ls[i
                        + 1]);
            }
            lemma_match_ladder_ids(ls.drop_first(), taker, step.remaining, taker_is_buy, limit, n);
            let rest = match_ladder_spec(ls.drop_first(), taker, step.remaining, taker_is_buy, limit);
            assert forall|k: int| 0 <= k < m.fills.len() implies (#[trigger] m.fills[k]).order_id
                < n by {
                if k < step.fills.len() {
                    assert(m.fills[k] == step.fills[k]);
                } else {
                    assert(m.fills[k] == rest.fills[k - step.fills.len()]);
                }
            }
            if step.kept.len() == 0 {
            } else {
                let kl = LevelView { price: lv.price, orders: step.kept };
                assert forall|i: int, j: int|
                    0 <= i < m.ladder.len() && 0 <= j < m.ladder[i].orders.len() implies (
                #[trigger] m.ladder[i].orders[j]).id < n by {
                    if i == 0 {
                        assert(m.ladder[0].orders[j] == step.kept[j]);
                    } else {
                        assert(m.ladder[i] == rest.ladder[i - 1]);
                    }
                }
            }
        }
    }
}

/// Some level of the ladder rests at this price.
pub open spec fn price_in(ls: Seq<LevelView>, p: u64) -> bool {
    exists|j: int| 0 <= j < ls.len() && (#[trigger] ls[j]).price == p
}

/// What matching a ladder guarantees, level by level.
pub proof fn lemma_match_ladder_props(
    ls: Seq<LevelView>,
    taker: u64,
    rem: u64,
    asset: u64,
    side: Side,
    taker_is_buy: bool,
    limit: Option<u64>,
)
    requires
        ladder_wf(ls, asset, side),
    ensures
        ({
            let m = match_ladder_spec(ls, taker, rem, taker_is_buy, limit);
            &&& m.remaining <= rem
            &&& fills_qty(m.fills) == rem - m.remaining
            &&& forall|k: int|
                0 <= k < m.fills.len() ==> fill_ok(#[trigger] m.fills[k], asset, side, taker)
                    && crosses(taker_is_buy, limit, m.fills[k].price)
            &&& ladder_wf(m.ladder, asset, side)
            &&& forall|i: int| 0 <= i < m.ladder.len() ==> price_in(ls, (#[trigger] m.ladder[i]).price)
        }),
    decreases ls.len(),
{
    let m = match_ladder_spec(ls, taker, rem, taker_is_buy, limit);
    if rem == 0 || ls.len() == 0 {
        assert forall|i: int| 0 <= i < m.ladder.len() implies price_in(
            ls,
            (#[trigger] m.ladder[i]).price,
        ) by {
            assert(0 <= i < ls.len() && ls[i].price == m.ladder[i].price);
        }
    } else {
        let lv = ls[0];
        if !crosses(taker_is_buy, limit, lv.price) {
            assert forall|i: int| 0 <= i < m.ladder.len() implies price_in(
                ls,
                (#[trigger] m.ladder[i]).price,
            ) by {
                assert(0 <= i < ls.len() && ls[i].price == m.ladder[i].price);
            }
        } else {
            assert(level_wf(lv, asset, side));
            lemma_match_queue_props(lv.orders, taker, rem, asset, side, lv.price);
            let step = match_queue_spec(lv.orders, taker, rem);
            assert(ladder_wf(ls.drop_first(), asset, side)) by {
                assert(forall|i: int|
                    0 <= i < ls.drop_first().len() ==> #[trigger] ls.drop_first()[i] == ls[i
                        + 1]);
            }
            lemma_match_ladder_props(
                ls.drop_first(),
                taker,
                step.remaining,
                asset,
                side,
                taker_is_buy,
                limit,
            );
            let rest = match_ladder_spec(ls.drop_first(), taker, step.remaining, taker_is_buy, limit);
            lemma_fills_sums_app(step.fills, rest.fills);
            assert forall|k: int| 0 <= k < m.fills.len() implies fill_ok(
                #[trigger] m.fills[k],
                asset,
                side,
                taker,
            ) && crosses(taker_is_buy, limit, m.fills[k].price) by {
                if k < step.fills.len() {
                    assert(m.fills[k] == step.fills[k]);
                } else {
                    assert(m.fills[k] == rest.fills[k - step.fills.len()]);
                }
            }
            assert forall|i: int| 0 <= i < rest.ladder.len() implies price_in(
                ls,
                (#[trigger] rest.ladder[i]).price,
            ) by {
                let j = choose|j: int|
                    0 <= j < ls.drop_first().len() && (#[trigger] ls.drop_first()[j]).price
                        == rest.ladder[i].price;
                assert(ls[j + 1].price == rest.ladder[i].price);
            }
            if step.kept.len() == 0 {
                assert(m.ladder == rest.ladder);
            } else {
                let kl = LevelView { price: lv.price, orders: step.kept };
                assert(level_wf(kl, asset, side));
                assert(m.ladder == seq![kl] + rest.ladder);
                assert forall|i: int| 0 <= i < m.ladder.len() implies price_in(
                    ls,
                    (#[trigger] m.ladder[i]).price,
                ) by {
                    if i == 0 {
                        assert(ls[0].price == m.ladder[0].price);
                    } else {
                        assert(m.ladder[i] == rest.ladder[i - 1]);
                        let j = choose|j: int|
                            0 <= j < ls.drop_first().len() && (#[trigger] ls.drop_first()[j]).price
                                == rest.ladder[i - 1].price;
                        assert(ls[j + 1].price == m.ladder[i].price);
                    }
                }
                assert forall|i: int, j: int| 0 <= i < j < m.ladder.len() implies (match side {
                    Side::Buy => (#[trigger] m.ladder[i]).price > (#[trigger] m.ladder[j]).price,
                    Side::Sell => (#[trigger] m.ladder[i]).price < (#[trigger] m.ladder[j]).price,
                }) by {
                    if i == 0 {
                        assert(m.ladder[j] == rest.ladder[j - 1]);
                        let j2 = choose|j2: int|
                            0 <= j2 < ls.drop_first().len() && (#[trigger] ls.drop_first()[j2]).price
                                == rest.ladder[j - 1].price;
                        assert(ls[j2 + 1].price == m.ladder[j].price);
                        assert(ls[0].price == m.ladder[0].price);
                    } else {
                        assert(m.ladder[i] == rest.ladder[i - 1]);
                        assert(m.ladder[j] == rest.ladder[j - 1]);
                    }
                }
                assert forall|i: int| 0 <= i < m.ladder.len() implies level_wf(
                    #[trigger] m.ladder[i],
                    asset,
                    side,
                ) by {
                    if i > 0 {
                        assert(m.ladder[i] == rest.ladder[i - 1]);
                    }
                }
            }
        }
    }
}

/// Copy the fields of a resting order into its execution record.
fn make_fill(o: &Order, q: u64) -> (f: Fill)
    requires
        o.filled <= o.quantity,
        q <= o.quantity - o.filled,
    ensures
        f == fill_of(*o, q),
{
    let avail = o.quantity - o.filled;
    let em: u64 = if avail == 0 {
        0
    } else {
        crate::execution::mul_div(o.margin, q, avail)
    };
    Fill {
        order_id: o.id,
        uuid: o.uuid.clone(),
        user_id: o.user_id,
        asset: o.asset,
        side: o.side,
        quantity: q,
        price: o.price,
        prev_remaining: avail,
        margin: em,
        leverage: o.leverage,
        created_at: o.created_at,
        stop_loss_percent: o.stop_loss_percent,
        take_profit_percent: o.take_profit_percent,
    }
}

/// Match the taker against one FIFO queue.
fn match_queue(orders: Vec<Order>, taker: u64, rem: u64) -> (r: (Vec<Fill>, Vec<Order>, u64))
    requires
        forall|i: int| 0 <= i < orders@.len() ==> (#[trigger] orders@[i]).filled
            <= orders@[i].quantity,
    ensures
        ({
            let m = match_queue_spec(orders@, taker, rem);
            r.0@ == m.fills && r.1@ == m.kept && r.2 == m.remaining
        }),
    decreases orders@.len(),
{
    let ghost orig = orders@;
    let mut orders = orders;
    if rem == 0 || orders.len() == 0 {
        return (Vec::new(), orders, rem);
    }
    let o = orders.remove(0);
    proof {
        assert(orders@ =~= orig.drop_first());
    }
    if o.user_id == taker {
        let (fills, kept, rem2) = match_queue(orders, taker, rem);
        let mut kept = kept;
        kept.insert(0, o);
        proof {
            assert(kept@ =~= seq![o] + match_queue_spec(orig.drop_first(), taker, rem).kept);
        }
        (fills, kept, rem2)
    } else {
        let avail = o.quantity - o.filled;
        if rem >= avail {
            let f = make_fill(&o, avail);
            let (fills, kept, rem2) = match_queue(orders, taker, rem - avail);
            let mut fills = fills;
            fills.insert(0, f);
            proof {
                assert(fills@ =~= seq![fill_of(o, avail)] + match_queue_spec(
                    orig.drop_first(),
                    taker,
                    (rem - avail) as u64,
                ).fills);
            }
            (fills, kept, rem2)
        } else {
            let f = make_fill(&o, rem);
            proof {
                crate::execution::lemma_mul_div_bounds(o.margin as int, rem as int, avail as int);
            }
            let em = f.margin;
            let mut o2 = o;
            o2.filled = o2.filled + rem;
            o2.status = crate::types::OrderStatus::PartiallyFilled;
            o2.margin = o2.margin - em;
            let mut kept = orders;
            kept.insert(0, o2);
            let mut fills: Vec<Fill> = Vec::new();
            fills.push(f);
            proof {
                assert(o2 == with_filled(orig[0], rem));
                assert(kept@ =~= seq![with_filled(orig[0], rem)] + orig.drop_first());
                assert(fills@ =~= seq![fill_of(orig[0], rem)]);
            }
            (fills, kept, 0)
        }
    }
}

/// Match the taker against a ladder, best level first.
fn match_ladder(
    ls: Vec<Level>,
    taker: u64,
    rem: u64,
    taker_is_buy: bool,
    limit: Option<u64>,
) -> (r: (Vec<Fill>, Vec<Level>, u64))
    requires
        forall|i: int, j: int|
            0 <= i < ls@.len() && 0 <= j < (#[trigger] ls@[i])@.orders.len()
                ==> (#[trigger] ls@[i]@.orders[j]).filled <= ls@[i]@.orders[j].quantity,
    ensures
        ({
            let m = match_ladder_spec(ladder_view(ls@), taker, rem, taker_is_buy, limit);
            r.0@ == m.fills && ladder_view(r.1@) == m.ladder && r.2 == m.remaining
        }),
    decreases ls@.len(),
{
    let ghost orig = ladder_view(ls@);
    let ghost orig_levels = ls@;
    let mut ls = ls;
    if rem == 0 || ls.len() == 0 {
        return (Vec::new(), ls, rem);
    }
    let lv = ls.remove(0);
    proof {
        assert(ladder_view(ls@) =~= orig.drop_first());
        assert(lv@ == orig[0]);
    }
    let eligible = match limit {
        None => true,
        Some(lim) => if taker_is_buy {
            lv.price <= lim
        } else {
            lv.price >= lim
        },
    };
    if !eligible {
        let mut ls = ls;
        ls.insert(0, lv);
        proof {
            assert(ladder_view(ls@) =~= orig);
        }
        return (Vec::new(), ls, rem);
    }
    let price = lv.price;
    proof {
        assert forall|i: int, j: int|
            0 <= i < ls@.len() && 0 <= j < (#[trigger] ls@[i])@.orders.len() implies (
        #[trigger] ls@[i]@.orders[j]).filled <= ls@[i]@.orders[j].quantity by {
            assert(ls@[i] == orig_levels[i + 1]);
        }
        assert forall|j: int| 0 <= j < lv.orders@.len() implies (#[trigger] lv.orders@[j]).filled
            <= lv.orders@[j].quantity by {
            assert(orig_levels[0]@.orders[j] == lv.orders@[j]);
        }
    }
    let (fills, kept, rem2) = match_queue(lv.orders, taker, rem);
    let (fills2, rest, rem3) = match_ladder(ls, taker, rem2, taker_is_buy, limit);
    let mut fills = fills;
    let mut fills2 = fills2;
    fills.append(&mut fills2);
    let ghost spec_step = match_queue_spec(orig[0].orders, taker, rem);
    let ghost spec_rest = match_ladder_spec(orig.drop_first(), taker, spec_step.remaining, taker_is_buy, limit);
    proof {
        assert(fills@ =~= spec_step.fills + spec_rest.fills);
    }
    if kept.len() == 0 {
        (fills, rest, rem3)
    } else {
        let mut rest = rest;
        rest.insert(0, Level { price, orders: kept });
        proof {
            assert(ladder_view(rest@) =~= seq![
                LevelView { price: orig[0].price, orders: spec_step.kept },
            ] + spec_rest.ladder);
        }
        (fills, rest, rem3)
    }
}

/// Match an incoming order against the opposite ladder. Market orders
/// take every crossing level; limit orders stop at their limit price.
/// Hands back the fills, the surviving ladder, and the unmatched quantity.
pub fn match_market_order(order: &Order, opposite: Vec<Level>) -> (r: (Vec<Fill>, Vec<Level>, u64))
    requires
        order.filled <= order.quantity,
        forall|i: int, j: int|
            0 <= i < opposite@.len() && 0 <= j < (#[trigger] opposite@[i])@.orders.len()
                ==> (#[trigger] opposite@[i]@.orders[j]).filled <= opposite@[i]@.orders[j].quantity,
    ensures
        ({
            let m = match_ladder_spec(
                ladder_view(opposite@),
                order.user_id,
                (order.quantity - order.filled) as u64,
                order.side == Side::Buy,
                if order.order_type == OrderType::Limit {
                    Some(order.price)
                } else {
                    None
                },
            );
            r.0@ == m.fills && ladder_view(r.1@) == m.ladder && r.2 == m.remaining
        }),
{
    let rem = order.quantity - order.filled;
    let limit = if matches!(order.order_type, OrderType::Limit) {
        Some(order.price)
    } else {
        None
    };
    match_ladder(opposite, order.user_id, rem, matches!(order.side, Side::Buy), limit)
}

/// Match a limit order against the opposite ladder, reporting the
/// filled quantity and its volume-weighted execution price alongside
/// the fills and the surviving ladder. The caller rests any remainder.
pub fn add_limit_order(order: &Order, opposite: Vec<Level>) -> (r: (u64, u64, Vec<Fill>, Vec<Level>))
    requires
        order.order_type == OrderType::Limit,
        order.filled <= order.quantity,
        order.quantity <= MAX_QTY,
        ladder_wf(ladder_view(opposite@), order.asset, crate::types::opposite_of(order.side)),
    ensures
        ({
            let m = match_ladder_spec(
                ladder_view(opposite@),
                order.user_id,
                (order.quantity - order.filled) as u64,
                order.side == Side::Buy,
                Some(order.price),
            );
            &&& r.0 as int == fills_qty(m.fills)
            &&& r.0 as int == order.quantity - order.filled - m.remaining
            &&& (fills_qty(m.fills) > 0 ==> r.1 as int == fills_notional(m.fills) / fills_qty(
                m.fills,
            ))
            &&& (fills_qty(m.fills) == 0 ==> r.1 == 0)
            &&& r.2@ == m.fills
            &&& ladder_view(r.3@) == m.ladder
        }),
{
    let ghost opp_view = ladder_view(opposite@);
    let ghost opp_kind = crate::types::opposite_of(order.side);
    proof {
        assert forall|i: int, j: int|
            0 <= i < opposite@.len() && 0 <= j < (#[trigger] opposite@[i])@.orders.len() implies (
        #[trigger] opposite@[i]@.orders[j]).filled <= opposite@[i]@.orders[j].quantity by {
            assert(level_wf(opp_view[i], order.asset, opp_kind));
            assert(opp_view[i].orders[j] == opposite@[i]@.orders[j]);
        }
    }
    let (fills, surviving, _rem) = match_market_order(order, opposite);
    proof {
        lemma_match_ladder_props(
            opp_view,
            order.user_id,
            (order.quantity - order.filled) as u64,
            order.asset,
            opp_kind,
            order.side == Side::Buy,
            Some(order.price),
        );
        assert forall|k: int| 0 <= k < fills@.len() implies 0 < (#[trigger] fills@[k]).price
            <= crate::types::MAX_PRICE by {
            assert(fill_ok(fills@[k], order.asset, opp_kind, order.user_id));
        }
    }
    let (filled, vwap) = fills_vwap(&fills);
    (filled, vwap, fills, surviving)
}

} // verus!
