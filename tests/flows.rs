use liquidation_queue::bid::Entitlement;
use liquidation_queue::error::QueueError;
use liquidation_queue::fixed::{Decimal, DECIMAL_FRACTIONAL};
use liquidation_queue::ledger::{
    read_bid, read_bid_pool, read_epoch_scale_sum, read_or_create_bid_pool, read_total_bids,
    read_collateral_info, store_config, Config, Ledger,
};
use liquidation_queue::queue::{
    execute_liquidation, read_entitlement, submit_bid, whitelist_collateral, withdraw_bid,
};

const HALF: u128 = DECIMAL_FRACTIONAL / 2;

fn owner() -> Vec<u8> {
    b"owner0000".to_vec()
}

fn collateral() -> Vec<u8> {
    b"bluna0000".to_vec()
}

fn bidder() -> Vec<u8> {
    b"addr0000".to_vec()
}

fn config() -> Config {
    Config {
        owner: owner(),
        oracle_contract: b"oracle0000".to_vec(),
        stable_denom: "uusd".to_string(),
        safe_ratio: Decimal { atoms: 8 * DECIMAL_FRACTIONAL / 10 },
        bid_fee: Decimal { atoms: DECIMAL_FRACTIONAL / 100 },
        liquidation_threshold: 100_000_000,
        price_timeframe: 60,
        waiting_period: 600,
    }
}

fn ledger_with_collateral(max_slot: u8) -> Ledger {
    let mut ledger = Ledger::new();
    store_config(&mut ledger, &config());
    whitelist_collateral(&mut ledger, &owner(), &collateral(), 10_000, max_slot).unwrap();
    ledger
}

/// Deposit 100 at slot 5, then consume half of the pool for 10.
fn half_liquidated_pool() -> (Ledger, u128) {
    let mut ledger = ledger_with_collateral(10);
    let idx = submit_bid(&mut ledger, &collateral(), 5, &bidder(), 100, None).unwrap();
    execute_liquidation(&mut ledger, &collateral(), 5, Decimal { atoms: HALF }, 10).unwrap();
    (ledger, idx)
}

#[test]
fn deposit_into_empty_pool() {
    let mut ledger = ledger_with_collateral(10);
    let idx = submit_bid(&mut ledger, &collateral(), 5, &bidder(), 100, None).unwrap();
    assert_eq!(idx, 1);
    let pool = read_bid_pool(&ledger, &collateral(), 5).unwrap();
    assert_eq!(pool.total_bid_amount, 100);
    assert_eq!(pool.product_snapshot, Decimal::one());
    assert_eq!(pool.sum_snapshot, Decimal::zero());
    assert_eq!(pool.premium_rate, Decimal::percent(5));
    assert_eq!(read_total_bids(&ledger, &collateral()), Ok(100));
    let bid = read_bid(&ledger, idx).unwrap();
    assert_eq!(bid.amount, 100);
    assert_eq!(bid.product_snapshot, Decimal::one());
    assert_eq!(bid.epoch_snapshot, 0);
    assert_eq!(bid.bidder, bidder());
}

#[test]
fn half_liquidation_credits_collateral() {
    let (ledger, idx) = half_liquidated_pool();
    let pool = read_bid_pool(&ledger, &collateral(), 5).unwrap();
    assert_eq!(pool.total_bid_amount, 50);
    assert_eq!(pool.sum_snapshot, Decimal { atoms: DECIMAL_FRACTIONAL / 10 });
    assert_eq!(pool.product_snapshot, Decimal { atoms: HALF });
    assert_eq!(pool.current_epoch, 0);
    assert_eq!(read_total_bids(&ledger, &collateral()), Ok(50));
    assert_eq!(read_entitlement(&ledger, idx), Ok(Entitlement { residual: 50, collateral: 10 }));
}

#[test]
fn full_drain_archives_and_rolls_epoch() {
    let (mut ledger, idx) = half_liquidated_pool();
    execute_liquidation(&mut ledger, &collateral(), 5, Decimal::one(), 50).unwrap();
    let pool = read_bid_pool(&ledger, &collateral(), 5).unwrap();
    assert_eq!(pool.current_epoch, 1);
    assert_eq!(pool.current_scale, 0);
    assert_eq!(pool.product_snapshot, Decimal::one());
    assert_eq!(pool.sum_snapshot, Decimal::zero());
    assert_eq!(pool.total_bid_amount, 0);
    let archived = read_epoch_scale_sum(&ledger, &collateral(), 5, 0, 0).unwrap();
    assert_eq!(archived, Decimal { atoms: 6 * DECIMAL_FRACTIONAL / 10 });
    assert_eq!(read_entitlement(&ledger, idx), Ok(Entitlement { residual: 0, collateral: 60 }));
}

#[test]
fn bid_of_new_epoch_is_independent() {
    let (mut ledger, first) = half_liquidated_pool();
    execute_liquidation(&mut ledger, &collateral(), 5, Decimal::one(), 50).unwrap();
    let second = submit_bid(&mut ledger, &collateral(), 5, &bidder(), 40, None).unwrap();
    assert_eq!(second, 2);
    assert_eq!(read_bid(&ledger, second).unwrap().epoch_snapshot, 1);
    execute_liquidation(&mut ledger, &collateral(), 5, Decimal { atoms: HALF }, 8).unwrap();
    assert_eq!(read_entitlement(&ledger, second), Ok(Entitlement { residual: 20, collateral: 8 }));
    assert_eq!(read_entitlement(&ledger, first), Ok(Entitlement { residual: 0, collateral: 60 }));
}

#[test]
fn slot_at_max_is_invalid() {
    let mut ledger = ledger_with_collateral(10);
    assert_eq!(
        submit_bid(&mut ledger, &collateral(), 10, &bidder(), 100, None),
        Err(QueueError::InvalidSlot)
    );
    let info = read_collateral_info(&ledger, &collateral()).unwrap();
    assert_eq!(info.max_slot, 10);
    assert_eq!(read_or_create_bid_pool(&mut ledger, &info, 10).err(), Some(QueueError::InvalidSlot));
    assert_eq!(read_bid_pool(&ledger, &collateral(), 10).err(), Some(QueueError::PoolNotFound));
}

#[test]
fn liquidating_empty_pool_fails() {
    let mut ledger = ledger_with_collateral(10);
    let info = read_collateral_info(&ledger, &collateral()).unwrap();
    let pool = read_or_create_bid_pool(&mut ledger, &info, 3).unwrap();
    assert_eq!(pool.total_bid_amount, 0);
    assert_eq!(
        execute_liquidation(&mut ledger, &collateral(), 3, Decimal { atoms: HALF }, 10),
        Err(QueueError::InsufficientFunds)
    );
    let after = read_bid_pool(&ledger, &collateral(), 3).unwrap();
    assert_eq!(after, pool);
}

#[test]
fn withdraw_pays_entitlement_and_removes_bid() {
    let (mut ledger, idx) = half_liquidated_pool();
    assert_eq!(withdraw_bid(&mut ledger, idx), Ok(Entitlement { residual: 50, collateral: 10 }));
    assert_eq!(read_bid(&ledger, idx).err(), Some(QueueError::NoSuchBid));
    assert_eq!(read_bid_pool(&ledger, &collateral(), 5).unwrap().total_bid_amount, 0);
    assert_eq!(read_total_bids(&ledger, &collateral()), Ok(0));
    assert_eq!(withdraw_bid(&mut ledger, idx), Err(QueueError::NoSuchBid));
}

#[test]
fn two_bidders_share_proportionally() {
    let mut ledger = ledger_with_collateral(10);
    let a = submit_bid(&mut ledger, &collateral(), 2, &bidder(), 300, None).unwrap();
    let b = submit_bid(&mut ledger, &collateral(), 2, &b"addr0001".to_vec(), 100, Some(77)).unwrap();
    execute_liquidation(&mut ledger, &collateral(), 2, Decimal { atoms: DECIMAL_FRACTIONAL / 4 }, 40).unwrap();
    assert_eq!(read_entitlement(&ledger, a), Ok(Entitlement { residual: 225, collateral: 30 }));
    assert_eq!(read_entitlement(&ledger, b), Ok(Entitlement { residual: 75, collateral: 10 }));
    assert_eq!(read_bid(&ledger, b).unwrap().wait_end, Some(77));
}

#[test]
fn errors_of_liquidation() {
    let (mut ledger, _) = half_liquidated_pool();
    assert_eq!(
        execute_liquidation(&mut ledger, &collateral(), 5, Decimal::zero(), 10),
        Err(QueueError::InvalidFraction)
    );
    assert_eq!(
        execute_liquidation(&mut ledger, &collateral(), 5, Decimal { atoms: DECIMAL_FRACTIONAL + 1 }, 10),
        Err(QueueError::InsufficientFunds)
    );
    assert_eq!(
        execute_liquidation(&mut ledger, &collateral(), 7, Decimal { atoms: HALF }, 10),
        Err(QueueError::PoolNotFound)
    );
    assert_eq!(
        execute_liquidation(&mut ledger, &collateral(), 5, Decimal { atoms: HALF }, u128::MAX),
        Err(QueueError::Overflow)
    );
}

#[test]
fn errors_of_registry() {
    let mut ledger = Ledger::new();
    assert_eq!(
        whitelist_collateral(&mut ledger, &owner(), &collateral(), 1, 10),
        Err(QueueError::ConfigNotFound)
    );
    store_config(&mut ledger, &config());
    assert_eq!(
        whitelist_collateral(&mut ledger, &bidder(), &collateral(), 1, 10),
        Err(QueueError::Unauthorized)
    );
    assert_eq!(read_collateral_info(&ledger, &collateral()).err(), Some(QueueError::NotWhitelisted));
    assert_eq!(
        submit_bid(&mut ledger, &collateral(), 1, &bidder(), 100, None),
        Err(QueueError::NotWhitelisted)
    );
    assert_eq!(read_total_bids(&ledger, &collateral()), Err(QueueError::TotalBidsNotFound));
    assert_eq!(
        read_epoch_scale_sum(&ledger, &collateral(), 1, 0, 0),
        Err(QueueError::EpochScaleSumNotFound)
    );
}

#[test]
fn collateral_survives_a_scale_change_in_the_ledger() {
    let (mut ledger, idx) = half_liquidated_pool();
    assert_eq!(read_entitlement(&ledger, idx), Ok(Entitlement { residual: 50, collateral: 10 }));
    let keep_a_billionth = Decimal { atoms: DECIMAL_FRACTIONAL - 1_000_000_000 };
    execute_liquidation(&mut ledger, &collateral(), 5, keep_a_billionth, 10).unwrap();
    let pool = read_bid_pool(&ledger, &collateral(), 5).unwrap();
    assert_eq!(pool.current_epoch, 0);
    assert_eq!(pool.current_scale, 1);
    assert_eq!(pool.product_snapshot, Decimal { atoms: HALF });
    assert_eq!(pool.sum_snapshot, Decimal::zero());
    assert_eq!(
        read_epoch_scale_sum(&ledger, &collateral(), 5, 0, 0),
        Ok(Decimal { atoms: DECIMAL_FRACTIONAL / 5 })
    );
    assert_eq!(read_entitlement(&ledger, idx), Ok(Entitlement { residual: 0, collateral: 20 }));
}

#[test]
fn truncated_capital_spreads_a_later_credit_over_less() {
    let mut ledger = ledger_with_collateral(10);
    let idx = submit_bid(&mut ledger, &collateral(), 1, &bidder(), 3, None).unwrap();
    execute_liquidation(&mut ledger, &collateral(), 1, Decimal { atoms: HALF }, 0).unwrap();
    assert_eq!(read_bid_pool(&ledger, &collateral(), 1).unwrap().total_bid_amount, 1);
    execute_liquidation(&mut ledger, &collateral(), 1, Decimal { atoms: HALF }, 10).unwrap();
    let owed = read_entitlement(&ledger, idx).unwrap();
    assert_eq!(owed, Entitlement { residual: 0, collateral: 15 });
    assert!(owed.residual + owed.collateral > 3 + 10);
}
