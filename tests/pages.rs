use liquidation_queue::cursor::{calc_range_start, clamp_limit, DEFAULT_LIMIT, MAX_LIMIT};
use liquidation_queue::error::QueueError;
use liquidation_queue::fixed::{Decimal, DECIMAL_FRACTIONAL};
use liquidation_queue::keys::{bytes_to_u128, calc_range_start_idx, u128_key};
use liquidation_queue::ledger::{
    pop_bid_idx, read_bid, read_bid_pool, read_bid_pools, read_bids_by_user, read_collateral_info,
    read_config, read_or_create_bid_pool, remove_bid, store_bid, store_collateral_info, store_config,
    CollateralInfo, Config, Ledger,
};
use liquidation_queue::bid::Bid;
use liquidation_queue::pool::BidPool;
use liquidation_queue::queue::{submit_bid, update_config, whitelist_collateral};

fn token() -> Vec<u8> {
    b"token0000".to_vec()
}

fn info(max_slot: u8) -> CollateralInfo {
    CollateralInfo { collateral_token: token(), bid_threshold: 1000, max_slot }
}

fn config() -> Config {
    Config {
        owner: b"owner0000".to_vec(),
        oracle_contract: b"oracle0000".to_vec(),
        stable_denom: "uusd".to_string(),
        safe_ratio: Decimal { atoms: DECIMAL_FRACTIONAL },
        bid_fee: Decimal::zero(),
        liquidation_threshold: 500,
        price_timeframe: 60,
        waiting_period: 600,
    }
}

fn ledger_with_pools(slots: &[u8], max_slot: u8) -> Ledger {
    let mut ledger = Ledger::new();
    store_collateral_info(&mut ledger, &token(), &info(max_slot));
    for s in slots {
        read_or_create_bid_pool(&mut ledger, &info(max_slot), *s).unwrap();
    }
    ledger
}

fn rates(pools: &[BidPool]) -> Vec<u128> {
    pools.iter().map(|p| p.premium_rate.atoms / (DECIMAL_FRACTIONAL / 100)).collect()
}

#[test]
fn pools_page_in_ascending_slot_order() {
    let ledger = ledger_with_pools(&[7, 0, 5, 2], 10);
    assert_eq!(rates(&read_bid_pools(&ledger, &token(), None, None)), vec![0, 2, 5, 7]);
}

#[test]
fn pools_page_after_cursor_excludes_cursor() {
    let ledger = ledger_with_pools(&[7, 0, 5, 2], 10);
    assert_eq!(rates(&read_bid_pools(&ledger, &token(), Some(2), None)), vec![5, 7]);
    assert_eq!(rates(&read_bid_pools(&ledger, &token(), Some(3), None)), vec![5, 7]);
    assert_eq!(rates(&read_bid_pools(&ledger, &token(), Some(0), Some(1))), vec![2]);
    assert!(read_bid_pools(&ledger, &token(), Some(7), None).is_empty());
}

#[test]
fn pools_page_of_other_collateral_is_empty() {
    let ledger = ledger_with_pools(&[1, 2], 10);
    assert!(read_bid_pools(&ledger, &b"token000".to_vec(), None, None).is_empty());
    assert!(read_bid_pools(&ledger, &b"token00000".to_vec(), None, None).is_empty());
}

#[test]
fn page_limits_default_and_clamp() {
    let slots: Vec<u8> = (0..40).collect();
    let ledger = ledger_with_pools(&slots, 50);
    assert_eq!(read_bid_pools(&ledger, &token(), None, None).len(), DEFAULT_LIMIT as usize);
    assert_eq!(read_bid_pools(&ledger, &token(), None, Some(100)).len(), MAX_LIMIT as usize);
    assert_eq!(read_bid_pools(&ledger, &token(), None, Some(0)).len(), 0);
    assert_eq!(clamp_limit(None), 10);
    assert_eq!(clamp_limit(Some(31)), 30);
    assert_eq!(clamp_limit(Some(30)), 30);
    assert_eq!(clamp_limit(Some(4)), 4);
}

#[test]
fn range_start_keys() {
    assert_eq!(calc_range_start(Some(7)), Some(vec![7u8, 1u8]));
    assert_eq!(calc_range_start(None), None);
    let mut expected = vec![0u8; 15];
    expected.push(3);
    expected.push(1);
    assert_eq!(calc_range_start_idx(Some(3)), Some(expected));
    assert_eq!(calc_range_start_idx(None), None);
}

#[test]
fn index_key_round_trip() {
    let key = u128_key(258);
    let mut expected = vec![0u8; 14];
    expected.push(1);
    expected.push(2);
    assert_eq!(key, expected);
    assert_eq!(bytes_to_u128(&key), Ok(258));
    assert_eq!(bytes_to_u128(&u128_key(u128::MAX)), Ok(u128::MAX));
    assert_eq!(bytes_to_u128(&[0u8; 15]), Err(QueueError::CorruptedKey));
    assert_eq!(bytes_to_u128(&[0u8; 17]), Err(QueueError::CorruptedKey));
}

#[test]
fn bid_index_counter_starts_at_one() {
    let mut ledger = Ledger::new();
    assert_eq!(pop_bid_idx(&mut ledger), Ok(1));
    assert_eq!(pop_bid_idx(&mut ledger), Ok(2));
    assert_eq!(pop_bid_idx(&mut ledger), Ok(3));
}

fn bidding_ledger() -> (Ledger, Vec<u128>) {
    let mut ledger = Ledger::new();
    store_config(&mut ledger, &config());
    whitelist_collateral(&mut ledger, &b"owner0000".to_vec(), &token(), 1000, 10).unwrap();
    let alice = b"alice".to_vec();
    let bob = b"bob".to_vec();
    let mut ids = Vec::new();
    ids.push(submit_bid(&mut ledger, &token(), 1, &alice, 10, None).unwrap());
    ids.push(submit_bid(&mut ledger, &token(), 2, &bob, 20, None).unwrap());
    ids.push(submit_bid(&mut ledger, &token(), 3, &alice, 30, None).unwrap());
    ids.push(submit_bid(&mut ledger, &token(), 1, &alice, 40, None).unwrap());
    (ledger, ids)
}

fn amounts(bids: &[Bid]) -> Vec<u128> {
    bids.iter().map(|b| b.amount).collect()
}

#[test]
fn bids_by_user_in_index_order() {
    let (ledger, _) = bidding_ledger();
    let alice = read_bids_by_user(&ledger, &token(), &b"alice".to_vec(), None, None).unwrap();
    assert_eq!(amounts(&alice), vec![10, 30, 40]);
    let bob = read_bids_by_user(&ledger, &token(), &b"bob".to_vec(), None, None).unwrap();
    assert_eq!(amounts(&bob), vec![20]);
    let nobody = read_bids_by_user(&ledger, &token(), &b"carol".to_vec(), None, None).unwrap();
    assert!(nobody.is_empty());
}

#[test]
fn bids_by_user_after_cursor() {
    let (ledger, ids) = bidding_ledger();
    let alice = b"alice".to_vec();
    let page = read_bids_by_user(&ledger, &token(), &alice, Some(ids[0]), None).unwrap();
    assert_eq!(amounts(&page), vec![30, 40]);
    let page = read_bids_by_user(&ledger, &token(), &alice, Some(ids[1]), Some(1)).unwrap();
    assert_eq!(amounts(&page), vec![30]);
    let page = read_bids_by_user(&ledger, &token(), &alice, Some(ids[3]), None).unwrap();
    assert!(page.is_empty());
}

#[test]
fn removing_a_bid_removes_its_listing() {
    let (mut ledger, ids) = bidding_ledger();
    assert_eq!(remove_bid(&mut ledger, ids[2]), Ok(()));
    assert_eq!(read_bid(&ledger, ids[2]).err(), Some(QueueError::NoSuchBid));
    let alice = read_bids_by_user(&ledger, &token(), &b"alice".to_vec(), None, None).unwrap();
    assert_eq!(amounts(&alice), vec![10, 40]);
    assert_eq!(remove_bid(&mut ledger, ids[2]), Err(QueueError::NoSuchBid));
}

#[test]
fn replacing_a_bid_moves_its_listing() {
    let (mut ledger, ids) = bidding_ledger();
    let mut moved = read_bid(&ledger, ids[0]).unwrap();
    moved.bidder = b"bob".to_vec();
    store_bid(&mut ledger, ids[0], &moved);
    let alice = read_bids_by_user(&ledger, &token(), &b"alice".to_vec(), None, None).unwrap();
    assert_eq!(amounts(&alice), vec![30, 40]);
    let bob = read_bids_by_user(&ledger, &token(), &b"bob".to_vec(), None, None).unwrap();
    assert_eq!(amounts(&bob), vec![10, 20]);
}

#[test]
fn reading_twice_gives_the_same_values() {
    let (ledger, ids) = bidding_ledger();
    let first = read_bid(&ledger, ids[1]).unwrap();
    let second = read_bid(&ledger, ids[1]).unwrap();
    assert_eq!(first.idx, second.idx);
    assert_eq!(first.bidder, second.bidder);
    assert_eq!(first.amount, second.amount);
    assert_eq!(first.product_snapshot, second.product_snapshot);
    assert_eq!(first.sum_snapshot, second.sum_snapshot);
    assert_eq!(first.epoch_snapshot, second.epoch_snapshot);
    assert_eq!(read_bid_pool(&ledger, &token(), 1), read_bid_pool(&ledger, &token(), 1));
}

#[test]
fn owner_updates_config() {
    let mut ledger = Ledger::new();
    assert_eq!(read_config(&ledger).err(), Some(QueueError::ConfigNotFound));
    store_config(&mut ledger, &config());
    assert_eq!(
        update_config(&mut ledger, &b"addr0000".to_vec(), None, None, None, None, Some(1), None, None),
        Err(QueueError::Unauthorized)
    );
    update_config(
        &mut ledger,
        &b"owner0000".to_vec(),
        Some(b"owner0001".to_vec()),
        None,
        None,
        Some(Decimal::percent(2)),
        None,
        Some(120),
        None,
    )
    .unwrap();
    let c = read_config(&ledger).unwrap();
    assert_eq!(c.owner, b"owner0001".to_vec());
    assert_eq!(c.bid_fee, Decimal::percent(2));
    assert_eq!(c.price_timeframe, 120);
    assert_eq!(c.waiting_period, 600);
    assert_eq!(c.stable_denom, "uusd".to_string());
    assert_eq!(
        update_config(&mut ledger, &b"owner0000".to_vec(), None, None, None, None, None, None, None),
        Err(QueueError::Unauthorized)
    );
}

#[test]
fn whitelist_stores_collateral_info() {
    let mut ledger = Ledger::new();
    store_config(&mut ledger, &config());
    whitelist_collateral(&mut ledger, &b"owner0000".to_vec(), &token(), 777, 12).unwrap();
    let i = read_collateral_info(&ledger, &token()).unwrap();
    assert_eq!(i.collateral_token, token());
    assert_eq!(i.bid_threshold, 777);
    assert_eq!(i.max_slot, 12);
}
