use liquidation_queue::bid::{Bid, Entitlement};
use liquidation_queue::error::QueueError;
use liquidation_queue::fixed::{checked_mul_div, mul_fraction, Decimal, DECIMAL_FRACTIONAL};
use liquidation_queue::pool::{div_scale_pow, ArchivedSum, BidPool, SCALE_FACTOR};

const ONE: u128 = DECIMAL_FRACTIONAL;

#[test]
fn decimal_constructors() {
    assert_eq!(Decimal::one().atoms, ONE);
    assert_eq!(Decimal::zero().atoms, 0);
    assert_eq!(Decimal::percent(5).atoms, 50_000_000_000_000_000);
    assert_eq!(Decimal::percent(100), Decimal::one());
}

#[test]
fn decimal_ratio_truncates() {
    assert_eq!(Decimal::from_ratio(1, 3), Some(Decimal { atoms: 333_333_333_333_333_333 }));
    assert_eq!(Decimal::from_ratio(10, 100), Some(Decimal { atoms: ONE / 10 }));
    assert_eq!(Decimal::from_ratio(u128::MAX, 7), None);
}

#[test]
fn decimal_product_truncates() {
    let half = Decimal { atoms: ONE / 2 };
    assert_eq!(half.checked_mul(half), Some(Decimal { atoms: ONE / 4 }));
    assert_eq!(Decimal { atoms: 3 }.checked_mul(Decimal { atoms: ONE / 2 }), Some(Decimal { atoms: 1 }));
    assert_eq!(Decimal { atoms: u128::MAX }.checked_mul(Decimal { atoms: 2 }), None);
}

#[test]
fn fraction_and_scale_division() {
    assert_eq!(mul_fraction(7, ONE / 2), 3);
    assert_eq!(mul_fraction(u128::MAX, ONE), u128::MAX);
    assert_eq!(mul_fraction(u128::MAX, 0), 0);
    assert_eq!(checked_mul_div(6, 7, 4), Some(10));
    assert_eq!(checked_mul_div(u128::MAX, 2, 4), None);
    assert_eq!(div_scale_pow(ONE, 1), 1_000_000_000);
    assert_eq!(div_scale_pow(ONE, 2), 1);
    assert_eq!(div_scale_pow(ONE, 0), ONE);
    assert_eq!(div_scale_pow(5, u128::MAX), 0);
}

fn pool_with(total: u128) -> BidPool {
    let mut pool = BidPool::new(4);
    pool.deposit(total).unwrap();
    pool
}

#[test]
fn deposit_overflow_leaves_pool() {
    let mut pool = pool_with(u128::MAX);
    assert_eq!(pool.deposit(1), Err(QueueError::Overflow));
    assert_eq!(pool.total_bid_amount, u128::MAX);
}

#[test]
fn liquidation_rescales_small_product() {
    let mut pool = pool_with(1_000_000_000_000);
    let bid = Bid::new(1, &b"col".to_vec(), 4, &b"me".to_vec(), 1_000_000_000_000, None, &pool);
    let keep_tenth_of_a_billionth = Decimal { atoms: ONE - 100_000_000 };
    let archived = pool.consume(keep_tenth_of_a_billionth, 1000).unwrap();
    assert_eq!(archived, Some(ArchivedSum { epoch: 0, scale: 0, sum: Decimal { atoms: 1_000_000_000 } }));
    assert_eq!(pool.current_scale, 1);
    assert_eq!(pool.current_epoch, 0);
    assert_eq!(pool.product_snapshot, Decimal { atoms: ONE / 10 });
    assert_eq!(pool.sum_snapshot, Decimal::zero());
    assert_eq!(pool.total_bid_amount, 100);
    let at_scale = Some(Decimal { atoms: 1_000_000_000 });
    assert_eq!(bid.entitlement(&pool, at_scale, None), Ok(Entitlement { residual: 100, collateral: 1000 }));
    assert_eq!(bid.entitlement(&pool, None, None), Err(QueueError::EpochScaleSumNotFound));
    assert_eq!(pool.consume(Decimal { atoms: ONE / 2 }, 50), Ok(None));
    assert_eq!(pool.sum_snapshot, Decimal { atoms: ONE / 20 });
    assert_eq!(bid.entitlement(&pool, at_scale, None), Ok(Entitlement { residual: 50, collateral: 1050 }));
}

#[test]
fn rescale_keeps_the_represented_product() {
    let mut pool = pool_with(1_000_000_000_000);
    pool.product_snapshot = Decimal { atoms: ONE - 1 };
    pool.consume(Decimal { atoms: ONE - 100_000_000 }, 0).unwrap();
    assert_eq!(pool.current_scale, 1);
    assert_eq!(pool.product_snapshot, Decimal { atoms: 99_999_999_000_000_000 });
}

#[test]
fn collateral_survives_a_scale_change() {
    let mut pool = pool_with(100);
    let bid = Bid::new(1, &b"col".to_vec(), 4, &b"me".to_vec(), 100, None, &pool);
    pool.sum_snapshot = Decimal { atoms: ONE / 10 };
    assert_eq!(bid.entitlement(&pool, None, None), Ok(Entitlement { residual: 100, collateral: 10 }));
    let archived = pool.consume(Decimal { atoms: ONE - 1 }, 10).unwrap();
    assert_eq!(archived, Some(ArchivedSum { epoch: 0, scale: 0, sum: Decimal { atoms: ONE / 5 } }));
    assert_eq!(pool.current_scale, 1);
    assert_eq!(pool.product_snapshot, Decimal { atoms: SCALE_FACTOR });
    let after = bid.entitlement(&pool, Some(Decimal { atoms: ONE / 5 }), None).unwrap();
    assert_eq!(after, Entitlement { residual: 0, collateral: 20 });
    assert!(after.collateral >= 10);
}

#[test]
fn collateral_of_the_next_scale_counts() {
    let mut pool = pool_with(1_000_000_000_000);
    let bid = Bid::new(1, &b"col".to_vec(), 4, &b"me".to_vec(), 1_000_000_000_000, None, &pool);
    let archived = pool.consume(Decimal { atoms: ONE - 100_000_000 }, 1000).unwrap().unwrap();
    pool.consume(Decimal { atoms: ONE / 2 }, 50).unwrap();
    let next = pool.consume(Decimal { atoms: ONE - 1_000_000 }, 30).unwrap().unwrap();
    assert_eq!(pool.current_scale, 2);
    assert_eq!(next.scale, 1);
    let live = bid.entitlement(&pool, Some(archived.sum), Some(next.sum)).unwrap();
    assert_eq!(live.residual, 0);
    assert_eq!(live.collateral, 1080);
    assert_eq!(bid.entitlement(&pool, Some(archived.sum), None).unwrap().collateral, 1000);
}

#[test]
fn liquidation_precision_loss() {
    let mut pool = pool_with(100_000_000_000_000_000_000);
    pool.product_snapshot = Decimal { atoms: 1 };
    let before = pool;
    assert_eq!(pool.consume(Decimal { atoms: ONE - 1 }, 10), Err(QueueError::PrecisionLoss));
    assert_eq!(pool, before);
}

#[test]
fn full_drain_rolls_epoch() {
    let mut pool = pool_with(80);
    let archived = pool.consume(Decimal::one(), 40).unwrap();
    assert_eq!(archived, Some(ArchivedSum { epoch: 0, scale: 0, sum: Decimal { atoms: ONE / 2 } }));
    assert_eq!(pool.current_epoch, 1);
    assert_eq!(pool.total_bid_amount, 0);
    assert_eq!(pool.product_snapshot, Decimal::one());
    assert_eq!(pool.sum_snapshot, Decimal::zero());
    assert_eq!(pool.consume(Decimal::one(), 40), Err(QueueError::InsufficientFunds));
}

#[test]
fn entitlement_needs_the_archive_after_a_drain() {
    let mut pool = pool_with(80);
    let bid = Bid::new(9, &b"col".to_vec(), 4, &b"me".to_vec(), 80, None, &pool);
    let archived = pool.consume(Decimal::one(), 40).unwrap();
    assert_eq!(bid.entitlement(&pool, None, None), Err(QueueError::EpochScaleSumNotFound));
    let at_scale = archived.map(|a| a.sum);
    assert_eq!(bid.entitlement(&pool, at_scale, None), Ok(Entitlement { residual: 0, collateral: 40 }));
}

#[test]
fn entitlement_of_a_bid_ahead_of_its_pool_is_stale() {
    let mut later = pool_with(10);
    later.consume(Decimal::one(), 1).unwrap();
    let bid = Bid::new(2, &b"col".to_vec(), 4, &b"me".to_vec(), 10, None, &later);
    let earlier = pool_with(10);
    assert_eq!(bid.entitlement(&earlier, None, None), Err(QueueError::StaleSnapshot));
}

#[test]
fn conservation_over_one_liquidation() {
    let mut pool = pool_with(0);
    let amounts = [333u128, 667, 1000, 1];
    let mut bids = Vec::new();
    for (i, a) in amounts.iter().enumerate() {
        bids.push(Bid::new(i as u128, &b"col".to_vec(), 4, &b"me".to_vec(), *a, None, &pool));
        pool.deposit(*a).unwrap();
    }
    let c = 997u128;
    let archived = pool.consume(Decimal { atoms: ONE / 3 }, c).unwrap();
    let mut owed = 0u128;
    for b in &bids {
        let e = b.entitlement(&pool, archived.map(|a| a.sum), None).unwrap();
        owed += e.residual + e.collateral;
    }
    let deposited: u128 = amounts.iter().sum();
    assert!(owed <= deposited + c);
    assert_eq!(pool.total_bid_amount, 1334);
}

#[test]
fn residual_stays_within_deposit_over_many_events() {
    let mut pool = pool_with(5_000_000_000_000_000);
    let amount = 7_000_000_000_000_000u128;
    let bid = Bid::new(1, &b"col".to_vec(), 4, &b"me".to_vec(), amount, None, &pool);
    pool.deposit(amount).unwrap();
    assert_eq!(pool.consume(Decimal { atoms: ONE / 3 }, 100), Ok(None));
    pool.deposit(1_000_000).unwrap();
    let archived = pool.consume(Decimal { atoms: ONE - 1_000_000_000 }, 5).unwrap();
    assert_eq!(archived, Some(ArchivedSum { epoch: 0, scale: 0, sum: Decimal { atoms: 8749 } }));
    assert_eq!(pool.current_scale, 1);
    assert_eq!(pool.total_bid_amount, 8_000_000);
    pool.deposit(3).unwrap();
    assert_eq!(pool.consume(Decimal { atoms: ONE / 2 }, 7), Ok(None));
    assert_eq!(pool.product_snapshot, Decimal { atoms: 333_333_333_000_000_000 });
    let e = bid.entitlement(&pool, archived.map(|a| a.sum), None).unwrap();
    assert!(e.residual <= amount);
    assert_eq!(e, Entitlement { residual: 2_333_333, collateral: 65 });
}
