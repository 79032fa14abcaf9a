//! The per-(collateral, slot) bid pool and its scaled accumulators.
//!
//! A pool holds the live capital of its bids, a product `P` that tracks how
//! much of a unit deposited at epoch start is still live, and a sum `S` that
//! accumulates collateral credited per unit. A bid snapshots `(P, S, epoch,
//! scale)` when it is made, and its entitlement is read back lazily from the
//! pool's later state.
use crate::error::QueueError;
use crate::fixed::{mul_div, mul_fraction, Decimal, DECIMAL_FRACTIONAL};
use vstd::arithmetic::div_mod::{lemma_div_denominator, lemma_div_is_ordered};
use vstd::prelude::*;

verus! {

/// Factor by which the product is rescaled when it falls under the floor.
pub const SCALE_FACTOR: u128 = 1_000_000_000;

/// Precision floor of the product, in atoms (10^-9).
pub const PRODUCT_FLOOR: u128 = 1_000_000_000;

/// The state of one premium slot of one collateral.
#[derive(Clone, Copy, Debug, PartialEq, Eq, Structural)]
pub struct BidPool {
    pub sum_snapshot: Decimal,
    pub product_snapshot: Decimal,
    pub total_bid_amount: u128,
    pub premium_rate: Decimal,
    pub current_epoch: u128,
    pub current_scale: u128,
}

/// The sum a pool held when it left an epoch or a scale.
#[derive(Clone, Copy, Debug, PartialEq, Eq, Structural)]
pub struct ArchivedSum {
    pub epoch: u128,
    pub scale: u128,
    pub sum: Decimal,
}

/// `SCALE_FACTOR` to the power `d`.
pub open spec fn scale_pow(d: nat) -> nat
    decreases d,
{
    if d == 0 {
        1
    } else {
        SCALE_FACTOR as nat * scale_pow((d - 1) as nat)
    }
}

proof fn lemma_scale_pow_grows(a: nat, b: nat)
    requires
        a <= b,
    ensures
        1 <= scale_pow(a) <= scale_pow(b),
    decreases b,
{
    if b > a {
        lemma_scale_pow_grows(a, (b - 1) as nat);
        assert(scale_pow((b - 1) as nat) <= scale_pow(b)) by (nonlinear_arith)
            requires scale_pow(b) == SCALE_FACTOR as nat * scale_pow((b - 1) as nat);
    } else if b > 0 {
        lemma_scale_pow_grows(0, (b - 1) as nat);
        assert(1 <= scale_pow(b)) by (nonlinear_arith)
            requires scale_pow(b) == SCALE_FACTOR as nat * scale_pow((b - 1) as nat),
                1 <= scale_pow((b - 1) as nat);
    }
}

/// `x / SCALE_FACTOR^d`, rounded towards zero.
pub fn div_scale_pow(x: u128, d: u128) -> (r: u128)
    ensures
        r == x as nat / scale_pow(d as nat),
{
    let mut r: u128 = x;
    let mut i: u128 = 0;
    proof {
        assert(x as nat / 1 == x as nat);
    }
    while i < d && r > 0
        invariant
            i <= d,
            r == x as nat / scale_pow(i as nat),
        decreases d - i,
    {
        proof {
            lemma_scale_pow_grows(0, i as nat);
            lemma_div_denominator(x as int, scale_pow(i as nat) as int, SCALE_FACTOR as int);
            assert(scale_pow((i + 1) as nat) == scale_pow(i as nat) * SCALE_FACTOR);
        }
        r = r / SCALE_FACTOR;
        i = i + 1;
    }
    proof {
        if i < d {
            lemma_scale_pow_grows(i as nat, d as nat);
            assert(x < scale_pow(i as nat)) by (nonlinear_arith)
                requires x as nat / scale_pow(i as nat) == 0, scale_pow(i as nat) >= 1;
            assert(x as nat / scale_pow(d as nat) == 0) by (nonlinear_arith)
                requires x < scale_pow(i as nat), scale_pow(i as nat) <= scale_pow(d as nat);
        }
    }
    r
}

/// Something that happens to a pool.
pub enum PoolEvent {
    Deposit { amount: u128 },
    Liquidation { fraction: Decimal, collateral_value: u128 },
}

/// The pool after `events` in order; an event that is rejected leaves the
/// pool as it was.
pub open spec fn replay(pool: BidPool, events: Seq<PoolEvent>) -> BidPool
    decreases events.len(),
{
    if events.len() == 0 {
        pool
    } else {
        let p = replay(pool, events.drop_last());
        match events.last() {
            PoolEvent::Deposit { amount } => match p.deposited(amount) {
                Ok(q) => q,
                Err(_) => p,
            },
            PoolEvent::Liquidation { fraction, collateral_value } => match p.consumed(
                fraction,
                collateral_value,
            ) {
                Ok((q, _)) => q,
                Err(_) => p,
            },
        }
    }
}

/// Neither a deposit nor a liquidation moves a pool's epoch back; a full
/// drain moves it forward by one.
pub proof fn lemma_epoch_monotone(pool: BidPool, amount: u128, fraction: Decimal, collateral_value: u128)
    ensures
        pool.deposited(amount) is Ok ==> pool.deposited(amount)->Ok_0.current_epoch == pool.current_epoch,
        pool.consumed(fraction, collateral_value) is Ok ==> pool.consumed(fraction, collateral_value)->Ok_0.0.current_epoch
            >= pool.current_epoch,
        pool.consumed(fraction, collateral_value) is Ok && fraction.atoms == DECIMAL_FRACTIONAL ==> pool.consumed(
            fraction,
            collateral_value,
        )->Ok_0.0.current_epoch == pool.current_epoch + 1,
{
}

impl BidPool {
    /// The product lies in `(0, 1]`.
    pub open spec fn wf(self) -> bool {
        0 < self.product_snapshot.atoms <= DECIMAL_FRACTIONAL
    }

    /// An empty pool at the start of epoch zero.
    pub open spec fn fresh(premium_slot: u8) -> BidPool {
        BidPool {
            sum_snapshot: Decimal { atoms: 0 },
            product_snapshot: Decimal { atoms: DECIMAL_FRACTIONAL },
            total_bid_amount: 0,
            premium_rate: Decimal { atoms: (premium_slot * (DECIMAL_FRACTIONAL / 100)) as u128 },
            current_epoch: 0,
            current_scale: 0,
        }
    }

    pub fn new(premium_slot: u8) -> (r: BidPool)
        ensures
            r == BidPool::fresh(premium_slot),
            r.wf(),
    {
        BidPool {
            sum_snapshot: Decimal::zero(),
            product_snapshot: Decimal::one(),
            total_bid_amount: 0,
            premium_rate: Decimal::percent(premium_slot as u64),
            current_epoch: 0,
            current_scale: 0,
        }
    }

    /// The pool after `amount` more capital is deposited.
    pub open spec fn deposited(self, amount: u128) -> Result<BidPool, QueueError> {
        if self.total_bid_amount + amount > u128::MAX {
            Err(QueueError::Overflow)
        } else {
            Ok(BidPool { total_bid_amount: (self.total_bid_amount + amount) as u128, ..self })
        }
    }

    pub fn deposit(&mut self, amount: u128) -> (r: Result<(), QueueError>)
        ensures
            match old(self).deposited(amount) {
                Ok(p) => r is Ok && *final(self) == p,
                Err(e) => r == Err::<(), QueueError>(e) && *final(self) == *old(self),
            },
    {
        match self.total_bid_amount.checked_add(amount) {
            Some(t) => {
                self.total_bid_amount = t;
                Ok(())
            },
            None => Err(QueueError::Overflow),
        }
    }

    /// The pool after a liquidation consumes `fraction` of its capital and
    /// credits `collateral_value` to its bids, with the sum archived where the
    /// pool leaves its epoch or its scale. On leaving a scale the truncated
    /// product is multiplied up by `SCALE_FACTOR` and the sum starts again
    /// from zero in the new scale's units; the archived sum keeps the gains
    /// made in the scale left.
    pub open spec fn consumed(self, fraction: Decimal, collateral_value: u128) -> Result<
        (BidPool, Option<ArchivedSum>),
        QueueError,
    > {
        let total = self.total_bid_amount as int;
        let f = fraction.atoms as int;
        let one = DECIMAL_FRACTIONAL as int;
        let p = self.product_snapshot.atoms as int;
        if total == 0 {
            Err(QueueError::InsufficientFunds)
        } else if f == 0 {
            Err(QueueError::InvalidFraction)
        } else if f > one {
            Err(QueueError::InsufficientFunds)
        } else if collateral_value * one > u128::MAX {
            Err(QueueError::Overflow)
        } else {
            let gain_per_unit = mul_div(collateral_value as int, one, total);
            let sum = self.sum_snapshot.atoms + mul_div(gain_per_unit, p, one);
            let archived = ArchivedSum {
                epoch: self.current_epoch,
                scale: self.current_scale,
                sum: Decimal { atoms: sum as u128 },
            };
            let product = p * (one - f);
            if sum > u128::MAX {
                Err(QueueError::Overflow)
            } else if f == one {
                if self.current_epoch == u128::MAX {
                    Err(QueueError::Overflow)
                } else {
                    Ok(
                        (
                            BidPool {
                                sum_snapshot: Decimal { atoms: 0 },
                                product_snapshot: Decimal { atoms: DECIMAL_FRACTIONAL },
                                total_bid_amount: 0,
                                current_epoch: (self.current_epoch + 1) as u128,
                                current_scale: 0,
                                ..self
                            },
                            Some(archived),
                        ),
                    )
                }
            } else if product / one < PRODUCT_FLOOR {
                let kept = product / one;
                if kept == 0 {
                    Err(QueueError::PrecisionLoss)
                } else if self.current_scale == u128::MAX {
                    Err(QueueError::Overflow)
                } else {
                    Ok(
                        (
                            BidPool {
                                sum_snapshot: Decimal { atoms: 0 },
                                product_snapshot: Decimal { atoms: (kept * SCALE_FACTOR) as u128 },
                                total_bid_amount: mul_div(total, one - f, one) as u128,
                                current_scale: (self.current_scale + 1) as u128,
                                ..self
                            },
                            Some(archived),
                        ),
                    )
                }
            } else {
                Ok(
                    (
                        BidPool {
                            sum_snapshot: Decimal { atoms: sum as u128 },
                            product_snapshot: Decimal { atoms: (product / one) as u128 },
                            total_bid_amount: mul_div(total, one - f, one) as u128,
                            ..self
                        },
                        None,
                    ),
                )
            }
        }
    }

    /// Consumes `fraction` of the pool's capital in exchange for
    /// `collateral_value`, and returns the sum to archive where the pool left
    /// its epoch or its scale.
    pub fn consume(&mut self, fraction: Decimal, collateral_value: u128) -> (r: Result<
        Option<ArchivedSum>,
        QueueError,
    >)
        requires
            old(self).wf(),
        ensures
            final(self).wf(),
            final(self).total_bid_amount <= old(self).total_bid_amount,
            final(self).current_epoch >= old(self).current_epoch,
            match old(self).consumed(fraction, collateral_value) {
                Ok((p, a)) => r == Ok::<Option<ArchivedSum>, QueueError>(a) && *final(self) == p,
                Err(e) => r == Err::<Option<ArchivedSum>, QueueError>(e) && *final(self) == *old(
                    self,
                ),
            },
    {
        let total = self.total_bid_amount;
        let f = fraction.atoms;
        let p = self.product_snapshot.atoms;
        if total == 0 {
            return Err(QueueError::InsufficientFunds);
        }
        if f == 0 {
            return Err(QueueError::InvalidFraction);
        }
        if f > DECIMAL_FRACTIONAL {
            return Err(QueueError::InsufficientFunds);
        }
        let gain_per_unit = match Decimal::from_ratio(collateral_value, total) {
            Some(g) => g,
            None => return Err(QueueError::Overflow),
        };
        let credit = mul_fraction(gain_per_unit.atoms, p);
        let sum = match self.sum_snapshot.atoms.checked_add(credit) {
            Some(s) => s,
            None => return Err(QueueError::Overflow),
        };
        let archived = ArchivedSum {
            epoch: self.current_epoch,
            scale: self.current_scale,
            sum: Decimal { atoms: sum },
        };
        if f == DECIMAL_FRACTIONAL {
            if self.current_epoch == u128::MAX {
                return Err(QueueError::Overflow);
            }
            self.sum_snapshot = Decimal::zero();
            self.product_snapshot = Decimal::one();
            self.total_bid_amount = 0;
            self.current_epoch = self.current_epoch + 1;
            self.current_scale = 0;
            return Ok(Some(archived));
        }
        let keep = DECIMAL_FRACTIONAL - f;
        proof {
            assert(p * keep <= DECIMAL_FRACTIONAL * DECIMAL_FRACTIONAL) by (nonlinear_arith)
                requires p <= DECIMAL_FRACTIONAL, keep <= DECIMAL_FRACTIONAL;
        }
        let product = p * keep;
        let total_after = mul_fraction(total, keep);
        let kept = product / DECIMAL_FRACTIONAL;
        if kept < PRODUCT_FLOOR {
            if kept == 0 {
                return Err(QueueError::PrecisionLoss);
            }
            if self.current_scale == u128::MAX {
                return Err(QueueError::Overflow);
            }
            self.sum_snapshot = Decimal::zero();
            self.product_snapshot = Decimal { atoms: kept * SCALE_FACTOR };
            self.total_bid_amount = total_after;
            self.current_scale = self.current_scale + 1;
            Ok(Some(archived))
        } else {
            proof {
                lemma_div_is_ordered(
                    product as int,
                    (DECIMAL_FRACTIONAL * DECIMAL_FRACTIONAL) as int,
                    DECIMAL_FRACTIONAL as int,
                );
            }
            self.sum_snapshot = Decimal { atoms: sum };
            self.product_snapshot = Decimal { atoms: kept };
            self.total_bid_amount = total_after;
            Ok(None)
        }
    }
}

} // verus!
