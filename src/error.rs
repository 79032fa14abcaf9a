//! The errors of the queue's operations.
use vstd::prelude::*;

verus! {

/// Why an operation was rejected. A rejected operation leaves the ledger as
/// it was.
#[derive(Clone, Copy, Debug, PartialEq, Eq, Structural)]
pub enum QueueError {
    /// The sender does not hold the role the operation requires.
    Unauthorized,
    /// No configuration has been stored.
    ConfigNotFound,
    /// The collateral token has not been whitelisted.
    NotWhitelisted,
    /// No bid pool exists for the collateral and premium slot.
    PoolNotFound,
    /// No bid with the given index exists.
    NoSuchBid,
    /// No aggregate bid amount is recorded for the collateral.
    TotalBidsNotFound,
    /// No sum is archived for the collateral, slot, epoch and scale.
    EpochScaleSumNotFound,
    /// The premium slot lies outside `[0, max_slot)`.
    InvalidSlot,
    /// The operation consumes more capital than the pool holds.
    InsufficientFunds,
    /// A liquidation fraction of zero.
    InvalidFraction,
    /// A bid's snapshot lies ahead of its pool's state.
    StaleSnapshot,
    /// The product accumulator would reach zero.
    PrecisionLoss,
    /// A value does not fit in 128 bits.
    Overflow,
    /// A key read back from a range scan does not have the expected width.
    CorruptedKey,
}

} // verus!
