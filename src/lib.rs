//! An exchange core: per-market limit order books with price-time priority,
//! a shared escrow ledger of user balances, and the engine that routes
//! requests to the market they name.
//!
//! Prices, quantities and balances are exact fixed-point amounts, held as
//! integers in the smallest unit of their asset. A price is counted in
//! quote units per base unit, so that `price * quantity` is an amount of the
//! quote asset.

mod clock;
pub mod engine;
pub mod escrow;
pub mod ledger;
pub mod orderbook;
pub mod ticker;
pub mod types;
pub mod worker;

pub use engine::{Engine, EngineError, MarketBook};
pub use ledger::{BalanceEntry, Ledger, LedgerError};
pub use orderbook::Orderbook;
pub use ticker::{sanitize_ticker, string_to_status};
