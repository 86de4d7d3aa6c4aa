use vstd::prelude::*;

use crate::types::{valid_order, Order, OrderType, Side};

verus! {

/// One price level: a FIFO queue of resting orders (front at index 0).
pub struct Level {
    pub price: u64,
    pub orders: Vec<Order>,
}

/// Ghost image of a level.
pub ghost struct LevelView {
    pub price: u64,
    pub orders: Seq<Order>,
}

impl View for Level {
    type V = LevelView;

    open spec fn view(&self) -> LevelView {
        LevelView { price: self.price, orders: self.orders@ }
    }
}

/// Ghost image of a ladder.
pub open spec fn ladder_view(ls: Seq<Level>) -> Seq<LevelView> {
    ls.map_values(|l: Level| l@)
}

/// Both sides of one asset's book. Buy levels are kept best-first
/// (highest price first), sell levels lowest-first.
pub struct OrderBook {
    pub buy: Vec<Level>,
    pub sell: Vec<Level>,
}

/// Every order resting at a level agrees with the level, is still
/// open, and its status reflects how much of it has filled.
pub open spec fn level_wf(lv: LevelView, asset: u64, side: Side) -> bool {
    &&& lv.orders.len() > 0
    &&& forall|i: int|
        0 <= i < lv.orders.len() ==> {
            let o = #[trigger] lv.orders[i];
            &&& o.asset == asset
            &&& o.side == side
            &&& o.order_type == OrderType::Limit
            &&& o.price == lv.price
            &&& o.filled < o.quantity
            &&& (o.filled == 0 ==> o.status == crate::types::OrderStatus::Open)
            &&& (o.filled > 0 ==> o.status == crate::types::OrderStatus::PartiallyFilled)
            &&& valid_order(o)
        }
}

/// Best-first order: strictly descending prices on the buy side,
/// strictly ascending on the sell side.
pub open spec fn ladder_sorted(ls: Seq<LevelView>, side: Side) -> bool {
    forall|i: int, j: int|
        0 <= i < j < ls.len() ==> (match side {
            Side::Buy => (#[trigger] ls[i]).price > (#[trigger] ls[j]).price,
            Side::Sell => (#[trigger] ls[i]).price < (#[trigger] ls[j]).price,
        })
}

pub open spec fn ladder_wf(ls: Seq<LevelView>, asset: u64, side: Side) -> bool {
    &&& ladder_sorted(ls, side)
    &&& forall|i: int| 0 <= i < ls.len() ==> level_wf(#[trigger] ls[i], asset, side)
}

/// Every resting order was minted before the id counter reached `n`.
pub open spec fn ladder_ids_below(ls: Seq<LevelView>, n: u64) -> bool {
    forall|i: int, j: int|
        0 <= i < ls.len() && 0 <= j < ls[i].orders.len() ==> (#[trigger] ls[i].orders[j]).id < n
}

pub open spec fn book_ids_below(b: OrderBook, n: u64) -> bool {
    &&& ladder_ids_below(ladder_view(b.buy@), n)
    &&& ladder_ids_below(ladder_view(b.sell@), n)
}

/// Insertion of an order minted below `n` keeps every id below `n`.
pub proof fn lemma_ladder_insert_ids(ls: Seq<LevelView>, o: Order, side: Side, n: u64)
    requires
        ladder_ids_below(ls, n),
        o.id < n,
    ensures
        ladder_ids_below(ladder_insert(ls, o, side), n),
    decreases ls.len(),
{
    let out = ladder_insert(ls, o, side);
    if ls.len() == 0 {
        assert forall|i: int, j: int|
            0 <= i < out.len() && 0 <= j < out[i].orders.len() implies (
        #[trigger] out[i].orders[j]).id < n by {
            assert(out[i].orders[j] == o);
        }
    } else if ls[0].price == o.price {
        assert forall|i: int, j: int|
            0 <= i < out.len() && 0 <= j < out[i].orders.len() implies (
        #[trigger] out[i].orders[j]).id < n by {
            if i == 0 {
                if j < ls[0].orders.len() {
                    assert(out[0].orders[j] == ls[0].orders[j]);
                } else {
                    assert(out[0].orders[j] == o);
                }
            } else {
                assert(out[i] == ls[i]);
            }
        }
    } else if (side == Side::Buy && ls[0].price < o.price) || (side == Side::Sell && ls[0].price
        > o.price) {
        assert forall|i: int, j: int|
            0 <= i < out.len() && 0 <= j < out[i].orders.len() implies (
        #[trigger] out[i].orders[j]).id < n by {
            if i == 0 {
                assert(out[0].orders[j] == o);
            } else {
                assert(out[i] == ls[i - 1]);
            }
        }
    } else {
        assert(ladder_ids_below(ls.drop_first(), n)) by {
            assert(forall|i: int|
                0 <= i < ls.drop_first().len() ==> #[trigger] ls.drop_first()[i] == ls[i + 1]);
        }
        lemma_ladder_insert_ids(ls.drop_first(), o, side, n);
        let inner = ladder_insert(ls.drop_first(), o, side);
        assert forall|i: int, j: int|
            0 <= i < out.len() && 0 <= j < out[i].orders.len() implies (
        #[trigger] out[i].orders[j]).id < n by {
            if i > 0 {
                assert(out[i] == inner[i - 1]);
            } else {
                assert(out[0] == ls[0]);
            }
        }
    }
}

/// The book never rests crossing orders: the best bid, when both sides
/// are populated, sits strictly below the best ask.
pub open spec fn book_uncrossed(buy: Seq<LevelView>, sell: Seq<LevelView>) -> bool {
    buy.len() > 0 && sell.len() > 0 ==> buy[0].price < sell[0].price
}

pub open spec fn book_wf(b: OrderBook, asset: u64) -> bool {
    &&& ladder_wf(ladder_view(b.buy@), asset, Side::Buy)
    &&& ladder_wf(ladder_view(b.sell@), asset, Side::Sell)
    &&& book_uncrossed(ladder_view(b.buy@), ladder_view(b.sell@))
}

impl OrderBook {
    /// An empty book, trivially well formed.
    pub fn new() -> (b: OrderBook)
        ensures
            b.buy@.len() == 0,
            b.sell@.len() == 0,
            forall|asset: u64| book_wf(b, asset),
    {
        OrderBook { buy: Vec::new(), sell: Vec::new() }
    }
}

/// Price of the best (front) level, if the ladder is populated.
pub fn best_price(ladder: &Vec<Level>) -> (r: Option<u64>)
    ensures
        match r {
            Some(p) => ladder@.len() > 0 && p == ladder@[0]@.price,
            None => ladder@.len() == 0,
        },
{
    if ladder.len() > 0 {
        Some(ladder[0].price)
    } else {
        None
    }
}

/// Where a resting order lands: appended to the FIFO of its price level,
/// or in a fresh level spliced in best-first order.
pub open spec fn ladder_insert(ls: Seq<LevelView>, o: Order, side: Side) -> Seq<LevelView>
    decreases ls.len(),
{
    if ls.len() == 0 {
        seq![LevelView { price: o.price, orders: seq![o] }]
    } else if ls[0].price == o.price {
        seq![LevelView { price: ls[0].price, orders: ls[0].orders.push(o) }] + ls.drop_first()
    } else if (side == Side::Buy && ls[0].price < o.price) || (side == Side::Sell && ls[0].price
        > o.price) {
        seq![LevelView { price: o.price, orders: seq![o] }] + ls
    } else {
        seq![ls[0]] + ladder_insert(ls.drop_first(), o, side)
    }
}

/// Insertion keeps the ladder well formed, and never makes its best
/// price worse than both the old best and the order's own price.
pub proof fn lemma_ladder_insert_wf(ls: Seq<LevelView>, o: Order, asset: u64, side: Side)
    requires
        ladder_wf(ls, asset, side),
        o.asset == asset,
        o.side == side,
        o.order_type == OrderType::Limit,
        o.filled < o.quantity,
        o.filled == 0 ==> o.status == crate::types::OrderStatus::Open,
        o.filled > 0 ==> o.status == crate::types::OrderStatus::PartiallyFilled,
        valid_order(o),
    ensures
        ladder_wf(ladder_insert(ls, o, side), asset, side),
        ladder_insert(ls, o, side).len() > 0,
        (match side {
            Side::Buy => ladder_insert(ls, o, side)[0].price == if ls.len() == 0 {
                o.price as int
            } else if o.price >= ls[0].price {
                o.price as int
            } else {
                ls[0].price as int
            },
            Side::Sell => ladder_insert(ls, o, side)[0].price == if ls.len() == 0 {
                o.price as int
            } else if o.price <= ls[0].price {
                o.price as int
            } else {
                ls[0].price as int
            },
        }),
    decreases ls.len(),
{
    let out = ladder_insert(ls, o, side);
    if ls.len() == 0 {
        assert(out[0].orders =~= seq![o]);
        assert(level_wf(out[0], asset, side));
    } else if ls[0].price == o.price {
        let lv = LevelView { price: ls[0].price, orders: ls[0].orders.push(o) };
        assert(level_wf(lv, asset, side));
        assert forall|i: int, j: int| 0 <= i < j < out.len() implies (match side {
            Side::Buy => (#[trigger] out[i]).price > (#[trigger] out[j]).price,
            Side::Sell => (#[trigger] out[i]).price < (#[trigger] out[j]).price,
        }) by {
            assert(out[i] == if i == 0 {
                lv
            } else {
                ls[i]
            });
            assert(out[j] == ls[j]);
        }
        assert forall|i: int| 0 <= i < out.len() implies level_wf(#[trigger] out[i], asset, side) by {
            if i > 0 {
                assert(out[i] == ls[i]);
            }
        }
    } else if (side == Side::Buy && ls[0].price < o.price) || (side == Side::Sell && ls[0].price
        > o.price) {
        let lv = LevelView { price: o.price, orders: seq![o] };
        assert(level_wf(lv, asset, side));
        assert forall|i: int, j: int| 0 <= i < j < out.len() implies (match side {
            Side::Buy => (#[trigger] out[i]).price > (#[trigger] out[j]).price,
            Side::Sell => (#[trigger] out[i]).price < (#[trigger] out[j]).price,
        }) by {
            if i > 0 {
                assert(out[i] == ls[i - 1]);
            }
            assert(out[j] == ls[j - 1]);
        }
        assert forall|i: int| 0 <= i < out.len() implies level_wf(#[trigger] out[i], asset, side) by {
            if i > 0 {
                assert(out[i] == ls[i - 1]);
            }
        }
    } else {
        assert(ladder_wf(ls.drop_first(), asset, side)) by {
            assert(forall|i: int|
                0 <= i < ls.drop_first().len() ==> #[trigger] ls.drop_first()[i] == ls[i + 1]);
        }
        lemma_ladder_insert_wf(ls.drop_first(), o, asset, side);
        let inner = ladder_insert(ls.drop_first(), o, side);
        assert(out =~= seq![ls[0]] + inner);
        assert forall|i: int, j: int| 0 <= i < j < out.len() implies (match side {
            Side::Buy => (#[trigger] out[i]).price > (#[trigger] out[j]).price,
            Side::Sell => (#[trigger] out[i]).price < (#[trigger] out[j]).price,
        }) by {
            if i > 0 {
                assert(out[i] == inner[i - 1]);
                assert(out[j] == inner[j - 1]);
            } else {
                assert(out[j] == inner[j - 1]);
                if inner.len() > 0 && j == 1 {
                }
            }
        }
        assert forall|i: int| 0 <= i < out.len() implies level_wf(#[trigger] out[i], asset, side) by {
            if i > 0 {
                assert(out[i] == inner[i - 1]);
            }
        }
    }
}

/// Splice a resting order into a ladder, keeping best-first order.
pub fn ladder_insert_exec(ls: Vec<Level>, o: Order, side: Side) -> (r: Vec<Level>)
    ensures
        ladder_view(r@) == ladder_insert(ladder_view(ls@), o, side),
    decreases ls@.len(),
{
    let ghost orig = ladder_view(ls@);
    let mut ls = ls;
    if ls.len() == 0 {
        let mut orders: Vec<Order> = Vec::new();
        let price = o.price;
        orders.push(o);
        ls.push(Level { price, orders });
        proof {
            assert(ladder_view(ls@) =~= ladder_insert(orig, o, side));
        }
        return ls;
    }
    let first_price = ls[0].price;
    if first_price == o.price {
        let mut lv = ls.remove(0);
        lv.orders.push(o);
        ls.insert(0, lv);
        proof {
            assert(ladder_view(ls@) =~= ladder_insert(orig, o, side));
        }
        ls
    } else if (matches!(side, Side::Buy) && first_price < o.price) || (matches!(side, Side::Sell)
        && first_price > o.price) {
        let mut orders: Vec<Order> = Vec::new();
        let price = o.price;
        orders.push(o);
        ls.insert(0, Level { price, orders });
        proof {
            assert(ladder_view(ls@) =~= ladder_insert(orig, o, side));
        }
        ls
    } else {
        let head = ls.remove(0);
        let ghost tail_view = ladder_view(ls@);
        let rest = ladder_insert_exec(ls, o, side);
        let mut rest = rest;
        rest.insert(0, head);
        proof {
            assert(tail_view =~= orig.drop_first());
            assert(ladder_view(rest@) =~= ladder_insert(orig, o, side));
        }
        rest
    }
}

} // verus!
