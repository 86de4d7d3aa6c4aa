use vstd::prelude::*;

verus! {

// The engine works at one fixed decimal scale chosen at the ingress
// boundary; every cap below is in those smallest money units. The caps
// exist so that the 128-bit PnL and margin arithmetic is provably
// exact; they can be widened together if a deployment needs more room.
/// Largest price (in smallest money units) the engine admits.
pub const MAX_PRICE: u64 = 1_000_000_000_000;

/// Largest order quantity the engine admits.
pub const MAX_QTY: u64 = 1_000_000_000_000;

/// Largest leverage multiplier the engine admits.
pub const MAX_LEVERAGE: u64 = 1_000;

/// Largest margin a single request may ask to lock.
pub const MAX_MARGIN: u64 = 1_000_000_000_000_000_000;

/// Balance and holdings magnitude under which one settlement's
/// credits provably fit in 128-bit arithmetic.
pub const CREDIT_HEADROOM: i128 = 0x100_0000_0000_0000_0000_0000_0000_0000;

/// Largest stop-loss / take-profit percentage the engine admits.
pub const MAX_PERCENT: u64 = 10_000;

#[derive(Clone, Copy, PartialEq, Eq, Structural, Debug)]
pub enum Side {
    Buy,
    Sell,
}

pub open spec fn opposite_of(s: Side) -> Side {
    match s {
        Side::Buy => Side::Sell,
        Side::Sell => Side::Buy,
    }
}

pub fn opposite(s: Side) -> (r: Side)
    ensures
        r == opposite_of(s),
{
    match s {
        Side::Buy => Side::Sell,
        Side::Sell => Side::Buy,
    }
}

#[derive(Clone, Copy, PartialEq, Eq, Structural, Debug)]
pub enum OrderType {
    Market,
    Limit,
}

#[derive(Clone, Copy, PartialEq, Eq, Structural, Debug)]
pub enum OrderStatus {
    Open,
    PartiallyFilled,
    Filled,
    Cancelled,
    Liquidated,
}

/// Why an admission request was turned down.
#[derive(Clone, Copy, PartialEq, Eq, Structural, Debug)]
pub enum RejectReason {
    InsufficientBalance,
    MalformedRequest,
}

/// Outcome classification carried on every execution report.
#[derive(Clone, Copy, PartialEq, Eq, Structural, Debug)]
pub enum OutcomeStatus {
    Filled,
    Closed,
    Liquidated,
}

/// An admission request. Users and assets arrive as interned identifiers;
/// all money values are scaled integers.
#[derive(Clone, Copy)]
pub struct CreateTradeRequest {
    pub user_id: u64,
    pub correlation_id: Option<u64>,
    pub asset: u64,
    pub side: Side,
    pub margin: u64,
    pub leverage: u64,
    pub quantity: u64,
    pub order_type: OrderType,
    pub limit_price: Option<u64>,
    pub stop_loss_percent: Option<u64>,
    pub take_profit_percent: Option<u64>,
    pub expiry_timestamp: Option<i64>,
    pub timestamp: i64,
}

/// A request is admissible only when its numbers are in the engine's range.
pub open spec fn valid_request(r: CreateTradeRequest) -> bool {
    &&& 0 < r.quantity <= MAX_QTY
    &&& r.margin <= MAX_MARGIN
    &&& 1 <= r.leverage <= MAX_LEVERAGE
    &&& (r.order_type == OrderType::Limit ==> match r.limit_price {
        Some(p) => 0 < p <= MAX_PRICE,
        None => false,
    })
    &&& (match r.stop_loss_percent {
        Some(p) => p <= MAX_PERCENT,
        None => true,
    })
    &&& (match r.take_profit_percent {
        Some(p) => p <= MAX_PERCENT,
        None => true,
    })
}

/// An in-flight or resting instruction.
pub struct Order {
    pub id: u64,
    pub uuid: String,
    pub user_id: u64,
    pub asset: u64,
    pub side: Side,
    pub order_type: OrderType,
    pub price: u64,
    pub quantity: u64,
    pub filled: u64,
    pub status: OrderStatus,
    pub margin: u64,
    pub leverage: u64,
    pub stop_loss_percent: Option<u64>,
    pub take_profit_percent: Option<u64>,
    pub created_at: i64,
    pub expiry: Option<i64>,
}

pub open spec fn valid_order(o: Order) -> bool {
    &&& 0 < o.quantity <= MAX_QTY
    &&& o.filled <= o.quantity
    &&& 0 < o.price <= MAX_PRICE
    &&& 1 <= o.leverage <= MAX_LEVERAGE
    &&& o.margin <= MAX_MARGIN
    &&& (match o.stop_loss_percent {
        Some(p) => p <= MAX_PERCENT,
        None => true,
    })
    &&& (match o.take_profit_percent {
        Some(p) => p <= MAX_PERCENT,
        None => true,
    })
}

/// An open position; its id is the id of the order that opened it.
pub struct Trade {
    pub id: u64,
    pub uuid: String,
    pub user_id: u64,
    pub asset: u64,
    pub side: Side,
    pub margin: u64,
    pub leverage: u64,
    pub quantity: u64,
    pub entry_price: u64,
    pub stop_loss_percent: Option<u64>,
    pub take_profit_percent: Option<u64>,
    pub created_at: i64,
}

impl Trade {
    /// A field-exact copy.
    pub fn clone_trade(&self) -> (r: Trade)
        ensures
            r == *self,
    {
        Trade {
            id: self.id,
            uuid: self.uuid.clone(),
            user_id: self.user_id,
            asset: self.asset,
            side: self.side,
            margin: self.margin,
            leverage: self.leverage,
            quantity: self.quantity,
            entry_price: self.entry_price,
            stop_loss_percent: self.stop_loss_percent,
            take_profit_percent: self.take_profit_percent,
            created_at: self.created_at,
        }
    }
}

pub open spec fn valid_trade(t: Trade) -> bool {
    &&& 0 < t.quantity <= MAX_QTY
    &&& 0 < t.entry_price <= MAX_PRICE
    &&& 1 <= t.leverage <= MAX_LEVERAGE
    &&& t.margin <= MAX_MARGIN
    &&& (match t.stop_loss_percent {
        Some(p) => p <= MAX_PERCENT,
        None => true,
    })
    &&& (match t.take_profit_percent {
        Some(p) => p <= MAX_PERCENT,
        None => true,
    })
}

/// One execution against a resting order, as reported by the matcher.
/// `margin` is the resting order's pro-rated share for this execution;
/// the locked-margin ledger stays the authoritative record settlement
/// draws from, and the two agree because both pro-rate by the
/// remaining quantity.
pub struct Fill {
    pub order_id: u64,
    pub uuid: String,
    pub user_id: u64,
    pub asset: u64,
    pub side: Side,
    pub quantity: u64,
    pub price: u64,
    pub prev_remaining: u64,
    pub margin: u64,
    pub leverage: u64,
    pub created_at: i64,
    pub stop_loss_percent: Option<u64>,
    pub take_profit_percent: Option<u64>,
}

/// A mark-price tick.
pub struct PriceUpdate {
    pub asset: u64,
    pub price: u64,
    pub timestamp: i64,
}

/// An external instruction to close a resting or open trade.
pub struct CloseTradeRequest {
    pub user_id: u64,
    pub order_id: u64,
    pub close_price: Option<u64>,
    pub reason: Option<u64>,
    pub timestamp: i64,
}

/// Reply to an admission request.
pub struct TradeResponse {
    pub correlation_id: Option<u64>,
    pub order_id: Option<u64>,
    pub order_uuid: Option<String>,
    pub user_id: u64,
    pub accepted: bool,
    pub reason: Option<RejectReason>,
}

/// Per-execution outcome report.
pub struct TradeOutcome {
    pub trade_id: u64,
    pub trade_uuid: String,
    pub user_id: u64,
    pub asset: u64,
    pub side: Side,
    pub quantity: u64,
    pub entry_price: u64,
    pub close_price: u64,
    pub pnl: i128,
    pub status: OutcomeStatus,
    pub timestamp: i64,
    pub margin: u64,
    pub leverage: u64,
    pub updated_balance: i128,
    pub updated_holdings: i128,
    pub order_type: OrderType,
    pub limit_price: Option<u64>,
}

/// Everything the engine hands to the delivery sink.
pub enum EngineEvent {
    BalanceRequest { user_id: u64 },
    HoldingsRequest { user_id: u64, asset: u64 },
    Response(TradeResponse),
    Outcome(TradeOutcome),
}

/// View a filled order as the position it opens.
pub fn order_to_trade(order: &Order) -> (t: Trade)
    ensures
        t.id == order.id,
        t.uuid == order.uuid,
        t.user_id == order.user_id,
        t.asset == order.asset,
        t.side == order.side,
        t.margin == order.margin,
        t.leverage == order.leverage,
        t.quantity == order.quantity,
        t.entry_price == order.price,
        t.stop_loss_percent == order.stop_loss_percent,
        t.take_profit_percent == order.take_profit_percent,
        t.created_at == order.created_at,
{
    Trade {
        id: order.id,
        uuid: order.uuid.clone(),
        user_id: order.user_id,
        asset: order.asset,
        side: order.side,
        margin: order.margin,
        leverage: order.leverage,
        quantity: order.quantity,
        entry_price: order.price,
        stop_loss_percent: order.stop_loss_percent,
        take_profit_percent: order.take_profit_percent,
        created_at: order.created_at,
    }
}

/// Rebuild an order record from a position, defaulting what a position
/// does not carry, as a market order already fully recorded.
pub fn trade_to_order(trade: &Trade) -> (o: Order)
    ensures
        o.id == trade.id,
        o.uuid == trade.uuid,
        o.user_id == trade.user_id,
        o.asset == trade.asset,
        o.side == trade.side,
        o.order_type == OrderType::Market,
        o.price == trade.entry_price,
        o.quantity == trade.quantity,
        o.filled == 0,
        o.status == OrderStatus::Open,
        o.margin == trade.margin,
        o.leverage == trade.leverage,
        o.stop_loss_percent == trade.stop_loss_percent,
        o.take_profit_percent == trade.take_profit_percent,
        o.created_at == trade.created_at,
        o.expiry.is_none(),
{
    Order {
        id: trade.id,
        uuid: trade.uuid.clone(),
        user_id: trade.user_id,
        asset: trade.asset,
        side: trade.side,
        order_type: OrderType::Market,
        price: trade.entry_price,
        quantity: trade.quantity,
        filled: 0,
        status: OrderStatus::Open,
        margin: trade.margin,
        leverage: trade.leverage,
        stop_loss_percent: trade.stop_loss_percent,
        take_profit_percent: trade.take_profit_percent,
        created_at: trade.created_at,
        expiry: None,
    }
}

} // verus!
