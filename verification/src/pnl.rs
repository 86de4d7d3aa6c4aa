use vstd::prelude::*;

use crate::types::{Side, MAX_LEVERAGE, MAX_PERCENT, MAX_PRICE, MAX_QTY};

verus! {

/// Profit or loss realised when `quantity` units of a position of side
/// `side`, entered at `entry`, are closed at `close`, with leverage `lev`.
pub open spec fn pnl_of(side: Side, entry: int, close: int, quantity: int, lev: int) -> int {
    match side {
        Side::Buy => (close - entry) * quantity * lev,
        Side::Sell => (entry - close) * quantity * lev,
    }
}

/// The widest PnL a single in-range close can realise.
pub open spec fn max_pnl_abs() -> int {
    MAX_PRICE as int * MAX_QTY as int * MAX_LEVERAGE as int
}

/// In-range closes realise a PnL bounded by `max_pnl_abs`.
pub proof fn lemma_pnl_bounded(side: Side, entry: int, close: int, quantity: int, lev: int)
    requires
        0 <= entry <= MAX_PRICE as int,
        0 <= close <= MAX_PRICE as int,
        0 <= quantity <= MAX_QTY as int,
        0 <= lev <= MAX_LEVERAGE as int,
    ensures
        -max_pnl_abs() <= pnl_of(side, entry, close, quantity, lev) <= max_pnl_abs(),
        -(MAX_PRICE as int * MAX_LEVERAGE as int * quantity) <= pnl_of(
            side,
            entry,
            close,
            quantity,
            lev,
        ) <= MAX_PRICE as int * MAX_LEVERAGE as int * quantity,
{
    let d = if side == Side::Buy {
        close - entry
    } else {
        entry - close
    };
    assert(-(MAX_PRICE as int) <= d <= MAX_PRICE as int);
    assert(d * quantity <= MAX_PRICE as int * MAX_QTY as int && d * quantity >= -(
    MAX_PRICE as int * MAX_QTY as int)) by (nonlinear_arith)
        requires
            -(MAX_PRICE as int) <= d <= MAX_PRICE as int,
            0 <= quantity <= MAX_QTY as int,
    ;
    let dq = d * quantity;
    assert(dq * lev <= MAX_PRICE as int * MAX_QTY as int * MAX_LEVERAGE as int && dq * lev >= -(
    MAX_PRICE as int * MAX_QTY as int * MAX_LEVERAGE as int)) by (nonlinear_arith)
        requires
            -(MAX_PRICE as int * MAX_QTY as int) <= dq <= MAX_PRICE as int * MAX_QTY as int,
            0 <= lev <= MAX_LEVERAGE as int,
    ;
    assert(dq * lev <= MAX_PRICE as int * MAX_LEVERAGE as int * quantity && dq * lev >= -(
    MAX_PRICE as int * MAX_LEVERAGE as int * quantity)) by (nonlinear_arith)
        requires
            -(MAX_PRICE as int) <= d <= MAX_PRICE as int,
            0 <= quantity,
            0 <= lev <= MAX_LEVERAGE as int,
            dq == d * quantity,
    ;
}

/// Exact PnL of closing `quantity` units of a `side` position.
pub fn calculate_pnl(side: Side, entry_price: u64, close_price: u64, quantity: u64, leverage: u64) -> (p: i128)
    requires
        entry_price <= MAX_PRICE,
        close_price <= MAX_PRICE,
        quantity <= MAX_QTY,
        leverage <= MAX_LEVERAGE,
    ensures
        p == pnl_of(side, entry_price as int, close_price as int, quantity as int, leverage as int),
        -max_pnl_abs() <= p <= max_pnl_abs(),
        -(MAX_PRICE as int * MAX_LEVERAGE as int * quantity as int) <= p <= MAX_PRICE as int
            * MAX_LEVERAGE as int * quantity as int,
{
    proof {
        lemma_pnl_bounded(
            side,
            entry_price as int,
            close_price as int,
            quantity as int,
            leverage as int,
        );
    }
    let diff: i128 = match side {
        Side::Buy => close_price as i128 - entry_price as i128,
        Side::Sell => entry_price as i128 - close_price as i128,
    };
    let q: i128 = quantity as i128;
    let l: i128 = leverage as i128;
    proof {
        let d = diff as int;
        assert(-(MAX_PRICE as int) <= d <= MAX_PRICE as int);
        assert(d * (quantity as int) <= MAX_PRICE as int * MAX_QTY as int
            && d * (quantity as int) >= -(MAX_PRICE as int * MAX_QTY as int)) by (nonlinear_arith)
            requires
                -(MAX_PRICE as int) <= d <= MAX_PRICE as int,
                0 <= quantity as int <= MAX_QTY as int,
        ;
        let dq = d * (quantity as int);
        assert(dq * (leverage as int) <= MAX_PRICE as int * MAX_QTY as int * MAX_LEVERAGE as int
            && dq * (leverage as int) >= -(MAX_PRICE as int * MAX_QTY as int * MAX_LEVERAGE as int)) by (nonlinear_arith)
            requires
                -(MAX_PRICE as int * MAX_QTY as int) <= dq <= MAX_PRICE as int * MAX_QTY as int,
                0 <= leverage as int <= MAX_LEVERAGE as int,
        ;
    }
    diff * q * l
}

/// Maintenance-margin percentage: a step function of the locked margin tier.
pub open spec fn mm_percent_of(margin: int) -> int {
    if margin < 100 {
        1
    } else if margin < 1_000 {
        2
    } else if margin < 10_000 {
        3
    } else if margin < 100_000 {
        4
    } else {
        5
    }
}

pub fn maintenance_margin_percent(margin: u64) -> (p: u64)
    ensures
        p == mm_percent_of(margin as int),
{
    if margin < 100 {
        1
    } else if margin < 1_000 {
        2
    } else if margin < 10_000 {
        3
    } else if margin < 100_000 {
        4
    } else {
        5
    }
}

/// A position must be liquidated when its equity (locked margin plus
/// unrealised PnL at the mark price) falls below the maintenance margin.
pub open spec fn should_liquidate(
    side: Side,
    entry: int,
    mark: int,
    quantity: int,
    lev: int,
    locked_margin: int,
    mm_percent: int,
) -> bool {
    locked_margin + pnl_of(side, entry, mark, quantity, lev) < locked_margin * mm_percent / 100
}

/// Decide liquidation for one position against the mark price.
pub fn check_liquidation(
    side: Side,
    entry_price: u64,
    latest_price: u64,
    quantity: u64,
    leverage: u64,
    margin_used: u64,
    maintenance_margin_percent: u64,
) -> (r: bool)
    requires
        entry_price <= MAX_PRICE,
        latest_price <= MAX_PRICE,
        quantity <= MAX_QTY,
        leverage <= MAX_LEVERAGE,
        maintenance_margin_percent <= 100,
    ensures
        r == should_liquidate(
            side,
            entry_price as int,
            latest_price as int,
            quantity as int,
            leverage as int,
            margin_used as int,
            maintenance_margin_percent as int,
        ),
{
    let unrealized: i128 = calculate_pnl(side, entry_price, latest_price, quantity, leverage);
    proof {
        assert(margin_used as int * maintenance_margin_percent as int <= 0xffff_ffff_ffff_ffff
            * 100 && margin_used as int * maintenance_margin_percent as int >= 0)
            by (nonlinear_arith)
            requires
                0 <= margin_used as int <= 0xffff_ffff_ffff_ffff,
                0 <= maintenance_margin_percent as int <= 100,
        ;
    }
    let current: i128 = margin_used as i128 + unrealized;
    let maintenance: i128 = (margin_used as i128 * maintenance_margin_percent as i128) / 100;
    current < maintenance
}

/// Take-profit threshold reached: for longs the mark has risen by the
/// configured percentage of entry, for shorts it has fallen by it.
pub open spec fn take_profit_hit(side: Side, entry: int, mark: int, tp: int) -> bool {
    match side {
        Side::Buy => mark >= entry + entry * tp / 100,
        Side::Sell => mark <= entry - entry * tp / 100,
    }
}

pub fn take_profit_triggered(side: Side, entry_price: u64, mark: u64, tp: u64) -> (r: bool)
    requires
        entry_price <= MAX_PRICE,
        tp <= MAX_PERCENT,
    ensures
        r == take_profit_hit(side, entry_price as int, mark as int, tp as int),
{
    proof {
        assert(0 <= entry_price as int * tp as int <= MAX_PRICE as int * MAX_PERCENT as int)
            by (nonlinear_arith)
            requires
                0 <= entry_price as int <= MAX_PRICE as int,
                0 <= tp as int <= MAX_PERCENT as int,
        ;
    }
    let scaled: i128 = (entry_price as i128 * tp as i128) / 100;
    match side {
        Side::Buy => mark as i128 >= entry_price as i128 + scaled,
        Side::Sell => mark as i128 <= entry_price as i128 - scaled,
    }
}

/// Stop-loss threshold reached: the mirror image of take-profit.
pub open spec fn stop_loss_hit(side: Side, entry: int, mark: int, sl: int) -> bool {
    match side {
        Side::Buy => mark <= entry - entry * sl / 100,
        Side::Sell => mark >= entry + entry * sl / 100,
    }
}

pub fn stop_loss_triggered(side: Side, entry_price: u64, mark: u64, sl: u64) -> (r: bool)
    requires
        entry_price <= MAX_PRICE,
        sl <= MAX_PERCENT,
    ensures
        r == stop_loss_hit(side, entry_price as int, mark as int, sl as int),
{
    proof {
        assert(0 <= entry_price as int * sl as int <= MAX_PRICE as int * MAX_PERCENT as int)
            by (nonlinear_arith)
            requires
                0 <= entry_price as int <= MAX_PRICE as int,
                0 <= sl as int <= MAX_PERCENT as int,
        ;
    }
    let scaled: i128 = (entry_price as i128 * sl as i128) / 100;
    match side {
        Side::Buy => mark as i128 <= entry_price as i128 - scaled,
        Side::Sell => mark as i128 >= entry_price as i128 + scaled,
    }
}

} // verus!
