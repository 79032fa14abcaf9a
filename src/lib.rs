//! Accounting core of a liquidation-bid queue: premium-slot bid pools with
//! scaled product/sum accumulators, the bid ledger with its per-user listing,
//! and the registries of configuration and collaterals that gate them.
pub mod bid;
pub mod cursor;
pub mod error;
pub mod fixed;
pub mod keys;
pub mod ledger;
pub mod pool;
pub mod queue;
pub mod table;
