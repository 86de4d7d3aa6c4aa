//! The core of a leveraged, multi-asset perpetual trading engine:
//! per-asset central limit order books with price-time matching,
//! admission of trade requests against balances and holdings, netting
//! of fills against opposite positions with realised PnL, a locked-
//! margin ledger, and a risk pass for stop-loss, take-profit and
//! maintenance-margin liquidation. All money values are scaled
//! integers; every ledger mutation preserves conservation of funds and
//! the mirror between holdings and open positions.

pub mod alist;
pub mod book;
pub mod execution;
pub mod hlist;
pub mod laws;
pub mod liquidations;
pub mod matching;
pub mod pnl;
pub mod processor;
pub mod reconcile;
pub mod state;
pub mod types;
