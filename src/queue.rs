//! The queue's operations over the ledger: bidding, liquidation, reading and
//! withdrawing what a bid is owed, and the owner's registry updates. Each
//! operation either succeeds whole or leaves the ledger as it was.
use crate::bid::{
    archive_after, entitlement_of, lemma_collateral_never_shrinks, Bid, BidView, Entitlement,
};
use crate::cursor::bytes_equal;
use crate::error::QueueError;
use crate::fixed::Decimal;
use crate::keys::{
    copy_bytes, epoch_scale_key, index_key, lemma_epoch_scale_key_injective, pool_key,
};
use crate::ledger::{
    listing_key, pop_bid_idx, read_bid, read_bid_pool, read_collateral_info,
    read_config, read_epoch_scale_sum, read_total_bids, remove_bid, store_bid, store_bid_pool,
    store_collateral_info, store_config, store_epoch_scale_sum, store_total_bids, unlisted,
    CollateralInfo, CollateralInfoView, ConfigView, Ledger, LedgerView,
};
use crate::pool::{lemma_epoch_monotone, BidPool};
use vstd::prelude::*;

verus! {

/// The aggregate bids of a collateral, zero where none are recorded.
pub open spec fn total_of(v: LedgerView, collateral: Seq<u8>) -> int {
    if v.total_bids.contains_key(collateral) {
        v.total_bids[collateral] as int
    } else {
        0
    }
}

/// The pool a bid at `premium_slot` would join: the stored one, or an empty
/// one on first touch.
pub open spec fn pool_to_join(v: LedgerView, collateral: Seq<u8>, premium_slot: u8) -> BidPool {
    let k = pool_key(collateral, premium_slot);
    if v.bid_pools.contains_key(k) {
        v.bid_pools[k]
    } else {
        BidPool::fresh(premium_slot)
    }
}

/// The bid index the ledger hands out next.
pub open spec fn next_idx(v: LedgerView) -> u128 {
    match v.bid_idx {
        Some(i) => i,
        None => 1,
    }
}

/// The index and ledger after a bid of `amount` on `collateral` at
/// `premium_slot`.
pub open spec fn submitted(
    v: LedgerView,
    collateral: Seq<u8>,
    premium_slot: u8,
    bidder: Seq<u8>,
    amount: u128,
    wait_end: Option<u64>,
) -> Result<(u128, LedgerView), QueueError> {
    let pk = pool_key(collateral, premium_slot);
    let pool = pool_to_join(v, collateral, premium_slot);
    let idx = next_idx(v);
    let total = total_of(v, collateral);
    if !v.collateral_infos.contains_key(collateral) {
        Err(QueueError::NotWhitelisted)
    } else if !v.bid_pools.contains_key(pk) && premium_slot >= v.collateral_infos[collateral].max_slot {
        Err(QueueError::InvalidSlot)
    } else if pool.total_bid_amount + amount > u128::MAX || idx == u128::MAX || total + amount
        > u128::MAX {
        Err(QueueError::Overflow)
    } else {
        let key = index_key(idx);
        let bid = BidView {
            idx,
            collateral_token: collateral,
            premium_slot,
            bidder,
            amount,
            product_snapshot: pool.product_snapshot,
            sum_snapshot: pool.sum_snapshot,
            pending_liquidated_collateral: 0,
            wait_end,
            epoch_snapshot: pool.current_epoch,
            scale_snapshot: pool.current_scale,
        };
        Ok(
            (
                idx,
                LedgerView {
                    bid_idx: Some((idx + 1) as u128),
                    bid_pools: v.bid_pools.insert(
                        pk,
                        BidPool { total_bid_amount: (pool.total_bid_amount + amount) as u128, ..pool },
                    ),
                    total_bids: v.total_bids.insert(collateral, (total + amount) as u128),
                    bids: v.bids.insert(key, bid),
                    bids_by_user: unlisted(v, key).insert(listing_key(bid, key), true),
                    ..v
                },
            ),
        )
    }
}

/// Deposits `amount` at `premium_slot` of a whitelisted collateral: the new
/// bid snapshots the pool's accumulators and the pool's capital grows by
/// `amount`. Returns the new bid's index.
pub fn submit_bid(
    storage: &mut Ledger,
    collateral_token: &Vec<u8>,
    premium_slot: u8,
    bidder: &Vec<u8>,
    amount: u128,
    wait_end: Option<u64>,
) -> (r: Result<u128, QueueError>)
    requires
        old(storage).wf(),
    ensures
        final(storage).wf(),
        match submitted(old(storage)@, collateral_token@, premium_slot, bidder@, amount, wait_end) {
            Ok((idx, v)) => r == Ok::<u128, QueueError>(idx) && final(storage)@ == v,
            Err(e) => r == Err::<u128, QueueError>(e) && final(storage)@ == old(storage)@,
        },
{
    let ghost v0 = storage@;
    let info = match read_collateral_info(storage, collateral_token) {
        Ok(info) => info,
        Err(e) => return Err(e),
    };
    let pool = match read_bid_pool(storage, collateral_token, premium_slot) {
        Ok(p) => p,
        Err(_) => {
            if premium_slot >= info.max_slot {
                return Err(QueueError::InvalidSlot);
            }
            BidPool::new(premium_slot)
        },
    };
    let mut joined = pool;
    if joined.deposit(amount).is_err() {
        return Err(QueueError::Overflow);
    }
    let total = match read_total_bids(storage, collateral_token) {
        Ok(t) => t,
        Err(_) => 0,
    };
    if total > u128::MAX - amount {
        return Err(QueueError::Overflow);
    }
    let idx = match pop_bid_idx(storage) {
        Ok(i) => i,
        Err(e) => return Err(e),
    };
    let bid = Bid::new(idx, collateral_token, premium_slot, bidder, amount, wait_end, &pool);
    store_bid_pool(storage, collateral_token, premium_slot, &joined);
    store_total_bids(storage, collateral_token, total + amount);
    store_bid(storage, idx, &bid);
    Ok(idx)
}

/// The ledger after a liquidation consumes `fraction` of the pool at
/// `premium_slot` and credits it `collateral_value`.
pub open spec fn liquidated(
    v: LedgerView,
    collateral: Seq<u8>,
    premium_slot: u8,
    fraction: Decimal,
    collateral_value: u128,
) -> Result<LedgerView, QueueError> {
    let pk = pool_key(collateral, premium_slot);
    if !v.bid_pools.contains_key(pk) {
        Err(QueueError::PoolNotFound)
    } else {
        let pool = v.bid_pools[pk];
        match pool.consumed(fraction, collateral_value) {
            Err(e) => Err(e),
            Ok((after, archived)) => {
                let consumed = pool.total_bid_amount - after.total_bid_amount;
                let total = total_of(v, collateral);
                Ok(
                    LedgerView {
                        bid_pools: v.bid_pools.insert(pk, after),
                        epoch_scale_sums: match archived {
                            Some(a) => v.epoch_scale_sums.insert(
                                epoch_scale_key(collateral, premium_slot, a.epoch, a.scale),
                                a.sum,
                            ),
                            None => v.epoch_scale_sums,
                        },
                        total_bids: v.total_bids.insert(
                            collateral,
                            if total > consumed {
                                (total - consumed) as u128
                            } else {
                                0
                            },
                        ),
                        ..v
                    },
                )
            },
        }
    }
}

/// Consumes `fraction` of the capital of the pool at `premium_slot`,
/// crediting `collateral_value` to its bids, and archives the pool's sum
/// where it leaves its epoch or its scale. The collateral's aggregate bids
/// fall by the capital consumed, and not below zero.
pub fn execute_liquidation(
    storage: &mut Ledger,
    collateral_token: &Vec<u8>,
    premium_slot: u8,
    fraction: Decimal,
    collateral_value: u128,
) -> (r: Result<(), QueueError>)
    requires
        old(storage).wf(),
    ensures
        final(storage).wf(),
        match liquidated(old(storage)@, collateral_token@, premium_slot, fraction, collateral_value) {
            Ok(v) => r is Ok && final(storage)@ == v,
            Err(e) => r == Err::<(), QueueError>(e) && final(storage)@ == old(storage)@,
        },
{
    let mut pool = match read_bid_pool(storage, collateral_token, premium_slot) {
        Ok(p) => p,
        Err(e) => return Err(e),
    };
    let before = pool.total_bid_amount;
    let archived = match pool.consume(fraction, collateral_value) {
        Ok(a) => a,
        Err(e) => return Err(e),
    };
    let consumed = before - pool.total_bid_amount;
    let total = match read_total_bids(storage, collateral_token) {
        Ok(t) => t,
        Err(_) => 0,
    };
    store_bid_pool(storage, collateral_token, premium_slot, &pool);
    if let Some(a) = archived {
        store_epoch_scale_sum(storage, collateral_token, premium_slot, a.epoch, a.scale, a.sum);
    }
    store_total_bids(storage, collateral_token, if total > consumed { total - consumed } else { 0 });
    Ok(())
}

/// The sum archived for a pool in `epoch` at `scale`, if any.
pub open spec fn archive_at(v: LedgerView, collateral: Seq<u8>, premium_slot: u8, epoch: u128, scale: int) -> Option<
    Decimal,
> {
    if 0 <= scale <= u128::MAX && v.epoch_scale_sums.contains_key(
        epoch_scale_key(collateral, premium_slot, epoch, scale as u128),
    ) {
        Some(v.epoch_scale_sums[epoch_scale_key(collateral, premium_slot, epoch, scale as u128)])
    } else {
        None
    }
}

/// What the bid under `bid_idx` is owed against its pool's live state and
/// the sums archived for the bid's epoch at its scale and the next.
pub open spec fn entitlement_at(v: LedgerView, bid_idx: u128) -> Result<Entitlement, QueueError> {
    let k = index_key(bid_idx);
    if !v.bids.contains_key(k) {
        Err(QueueError::NoSuchBid)
    } else {
        let bid = v.bids[k];
        let pk = pool_key(bid.collateral_token, bid.premium_slot);
        if !v.bid_pools.contains_key(pk) {
            Err(QueueError::PoolNotFound)
        } else {
            entitlement_of(
                bid,
                v.bid_pools[pk],
                archive_at(v, bid.collateral_token, bid.premium_slot, bid.epoch_snapshot, bid.scale_snapshot as int),
                archive_at(v, bid.collateral_token, bid.premium_slot, bid.epoch_snapshot, bid.scale_snapshot + 1),
            )
        }
    }
}

/// Reads an archived sum, none where nothing is archived.
fn read_archive(storage: &Ledger, collateral_token: &Vec<u8>, premium_slot: u8, epoch: u128, scale: u128) -> (r:
    Option<Decimal>)
    requires
        storage.wf(),
    ensures
        r == archive_at(storage@, collateral_token@, premium_slot, epoch, scale as int),
{
    match read_epoch_scale_sum(storage, collateral_token, premium_slot, epoch, scale) {
        Ok(s) => Some(s),
        Err(_) => None,
    }
}

/// Reads what the bid under `bid_idx` is owed: its residual stable amount
/// and the collateral credited to it.
pub fn read_entitlement(storage: &Ledger, bid_idx: u128) -> (r: Result<Entitlement, QueueError>)
    requires
        storage.wf(),
    ensures
        r == entitlement_at(storage@, bid_idx),
{
    let bid = match read_bid(storage, bid_idx) {
        Ok(b) => b,
        Err(e) => return Err(e),
    };
    let pool = match read_bid_pool(storage, &bid.collateral_token, bid.premium_slot) {
        Ok(p) => p,
        Err(e) => return Err(e),
    };
    let at_scale = read_archive(storage, &bid.collateral_token, bid.premium_slot, bid.epoch_snapshot, bid.scale_snapshot);
    let next_scale = if bid.scale_snapshot < u128::MAX {
        read_archive(storage, &bid.collateral_token, bid.premium_slot, bid.epoch_snapshot, bid.scale_snapshot + 1)
    } else {
        None
    };
    bid.entitlement(&pool, at_scale, next_scale)
}

/// The entitlement paid out and the ledger after the bid under `bid_idx` is
/// withdrawn: its residual leaves its pool and the collateral's aggregate
/// bids (not below zero), and the bid and its listing are removed.
pub open spec fn withdrawn(v: LedgerView, bid_idx: u128) -> Result<
    (Entitlement, LedgerView),
    QueueError,
> {
    match entitlement_at(v, bid_idx) {
        Err(e) => Err(e),
        Ok(e) => {
            let k = index_key(bid_idx);
            let bid = v.bids[k];
            let pk = pool_key(bid.collateral_token, bid.premium_slot);
            let pool = v.bid_pools[pk];
            let total = total_of(v, bid.collateral_token);
            if e.residual > pool.total_bid_amount {
                Err(QueueError::InsufficientFunds)
            } else {
                Ok(
                    (
                        e,
                        LedgerView {
                            bid_pools: v.bid_pools.insert(
                                pk,
                                BidPool {
                                    total_bid_amount: (pool.total_bid_amount - e.residual) as u128,
                                    ..pool
                                },
                            ),
                            total_bids: v.total_bids.insert(
                                bid.collateral_token,
                                if total > e.residual {
                                    (total - e.residual) as u128
                                } else {
                                    0
                                },
                            ),
                            bids: v.bids.remove(k),
                            bids_by_user: unlisted(v, k),
                            ..v
                        },
                    ),
                )
            }
        },
    }
}

/// Withdraws the bid under `bid_idx` whole, returning what it was owed.
pub fn withdraw_bid(storage: &mut Ledger, bid_idx: u128) -> (r: Result<Entitlement, QueueError>)
    requires
        old(storage).wf(),
    ensures
        final(storage).wf(),
        match withdrawn(old(storage)@, bid_idx) {
            Ok((e, v)) => r == Ok::<Entitlement, QueueError>(e) && final(storage)@ == v,
            Err(e) => r == Err::<Entitlement, QueueError>(e) && final(storage)@ == old(storage)@,
        },
{
    let owed = match read_entitlement(storage, bid_idx) {
        Ok(e) => e,
        Err(e) => return Err(e),
    };
    let bid = match read_bid(storage, bid_idx) {
        Ok(b) => b,
        Err(e) => return Err(e),
    };
    let mut pool = match read_bid_pool(storage, &bid.collateral_token, bid.premium_slot) {
        Ok(p) => p,
        Err(e) => return Err(e),
    };
    if owed.residual > pool.total_bid_amount {
        return Err(QueueError::InsufficientFunds);
    }
    let total = match read_total_bids(storage, &bid.collateral_token) {
        Ok(t) => t,
        Err(_) => 0,
    };
    pool.total_bid_amount = pool.total_bid_amount - owed.residual;
    store_bid_pool(storage, &bid.collateral_token, bid.premium_slot, &pool);
    store_total_bids(
        storage,
        &bid.collateral_token,
        if total > owed.residual { total - owed.residual } else { 0 },
    );
    match remove_bid(storage, bid_idx) {
        Ok(()) => Ok(owed),
        Err(e) => Err(e),
    }
}

/// Every pool of `v0` is still in `v1`, at the same epoch or a later one.
pub open spec fn epochs_kept(v0: LedgerView, v1: LedgerView) -> bool {
    forall|k: Seq<u8>|
        #[trigger] v0.bid_pools.contains_key(k) ==> v1.bid_pools.contains_key(k)
            && v1.bid_pools[k].current_epoch >= v0.bid_pools[k].current_epoch
}

/// No operation drops a pool or moves its epoch back.
pub proof fn lemma_operations_keep_epochs(
    v: LedgerView,
    collateral: Seq<u8>,
    premium_slot: u8,
    bidder: Seq<u8>,
    amount: u128,
    wait_end: Option<u64>,
    fraction: Decimal,
    collateral_value: u128,
    bid_idx: u128,
)
    ensures
        submitted(v, collateral, premium_slot, bidder, amount, wait_end) is Ok ==> epochs_kept(
            v,
            submitted(v, collateral, premium_slot, bidder, amount, wait_end)->Ok_0.1,
        ),
        liquidated(v, collateral, premium_slot, fraction, collateral_value) is Ok ==> epochs_kept(
            v,
            liquidated(v, collateral, premium_slot, fraction, collateral_value)->Ok_0,
        ),
        withdrawn(v, bid_idx) is Ok ==> epochs_kept(v, withdrawn(v, bid_idx)->Ok_0.1),
{
    let pk = pool_key(collateral, premium_slot);
    if v.bid_pools.contains_key(pk) {
        lemma_epoch_monotone(v.bid_pools[pk], amount, fraction, collateral_value);
    }
}

/// Within its epoch a liquidation never lowers a bid's collateral as the
/// ledger reports it, where the ledger holds archived sums only for the
/// scales the bid's pool has left.
pub proof fn lemma_liquidation_keeps_collateral(
    v: LedgerView,
    collateral: Seq<u8>,
    premium_slot: u8,
    fraction: Decimal,
    collateral_value: u128,
    bid_idx: u128,
)
    requires
        v.bids.contains_key(index_key(bid_idx)),
        v.bids[index_key(bid_idx)].collateral_token == collateral,
        v.bids[index_key(bid_idx)].premium_slot == premium_slot,
        v.bid_pools.contains_key(pool_key(collateral, premium_slot)),
        ({
            let bid = v.bids[index_key(bid_idx)];
            let pool = v.bid_pools[pool_key(collateral, premium_slot)];
            &&& bid.epoch_snapshot == pool.current_epoch
            &&& bid.scale_snapshot <= pool.current_scale
            &&& bid.scale_snapshot == pool.current_scale ==> archive_at(
                v,
                collateral,
                premium_slot,
                bid.epoch_snapshot,
                bid.scale_snapshot as int,
            ) is None
            &&& bid.scale_snapshot + 1 >= pool.current_scale ==> archive_at(
                v,
                collateral,
                premium_slot,
                bid.epoch_snapshot,
                bid.scale_snapshot + 1,
            ) is None
        }),
        liquidated(v, collateral, premium_slot, fraction, collateral_value) is Ok,
    ensures
        ({
            let before = entitlement_at(v, bid_idx);
            let after = entitlement_at(
                liquidated(v, collateral, premium_slot, fraction, collateral_value)->Ok_0,
                bid_idx,
            );
            before is Ok && after is Ok ==> before->Ok_0.collateral <= after->Ok_0.collateral
        }),
{
    let bid = v.bids[index_key(bid_idx)];
    let pk = pool_key(collateral, premium_slot);
    let pool = v.bid_pools[pk];
    let (after_pool, archived) = pool.consumed(fraction, collateral_value)->Ok_0;
    let w = liquidated(v, collateral, premium_slot, fraction, collateral_value)->Ok_0;
    let e = bid.epoch_snapshot;
    let k0 = bid.scale_snapshot as int;
    let at = archive_at(v, collateral, premium_slot, e, k0);
    let next = archive_at(v, collateral, premium_slot, e, k0 + 1);
    assert forall|s: int| 0 <= s <= u128::MAX implies #[trigger] archive_at(w, collateral, premium_slot, e, s)
        == archive_after(archive_at(v, collateral, premium_slot, e, s), archived, s) by {
        if archived is Some {
            let a = archived->0;
            assert(a.epoch == e);
            if a.scale != s {
                if epoch_scale_key(collateral, premium_slot, e, a.scale) == epoch_scale_key(
                    collateral,
                    premium_slot,
                    e,
                    s as u128,
                ) {
                    lemma_epoch_scale_key_injective(collateral, premium_slot, e, a.scale, s as u128);
                }
            }
        }
    }
    if k0 + 1 > u128::MAX {
        assert(archive_at(w, collateral, premium_slot, e, k0 + 1) == archive_after(next, archived, k0 + 1));
    }
    lemma_collateral_never_shrinks(pool, fraction, collateral_value, bid, at, next);
}

/// The address an optional update holds, as bytes.
pub open spec fn bytes_of(a: Option<Vec<u8>>) -> Option<Seq<u8>> {
    match a {
        Some(v) => Some(v@),
        None => None,
    }
}

/// The ledger after the owner `sender` replaces the parameters given.
pub open spec fn config_updated(
    v: LedgerView,
    sender: Seq<u8>,
    owner: Option<Seq<u8>>,
    oracle_contract: Option<Seq<u8>>,
    safe_ratio: Option<Decimal>,
    bid_fee: Option<Decimal>,
    liquidation_threshold: Option<u128>,
    price_timeframe: Option<u64>,
    waiting_period: Option<u64>,
) -> Result<LedgerView, QueueError> {
    match v.config {
        None => Err(QueueError::ConfigNotFound),
        Some(c) => if sender != c.owner {
            Err(QueueError::Unauthorized)
        } else {
            Ok(
                LedgerView {
                    config: Some(
                        ConfigView {
                            owner: match owner {
                                Some(o) => o,
                                None => c.owner,
                            },
                            oracle_contract: match oracle_contract {
                                Some(o) => o,
                                None => c.oracle_contract,
                            },
                            safe_ratio: match safe_ratio {
                                Some(x) => x,
                                None => c.safe_ratio,
                            },
                            bid_fee: match bid_fee {
                                Some(x) => x,
                                None => c.bid_fee,
                            },
                            liquidation_threshold: match liquidation_threshold {
                                Some(x) => x,
                                None => c.liquidation_threshold,
                            },
                            price_timeframe: match price_timeframe {
                                Some(x) => x,
                                None => c.price_timeframe,
                            },
                            waiting_period: match waiting_period {
                                Some(x) => x,
                                None => c.waiting_period,
                            },
                            ..c
                        },
                    ),
                    ..v
                },
            )
        },
    }
}

/// Replaces the configuration parameters given; only the owner may.
pub fn update_config(
    storage: &mut Ledger,
    sender: &Vec<u8>,
    owner: Option<Vec<u8>>,
    oracle_contract: Option<Vec<u8>>,
    safe_ratio: Option<Decimal>,
    bid_fee: Option<Decimal>,
    liquidation_threshold: Option<u128>,
    price_timeframe: Option<u64>,
    waiting_period: Option<u64>,
) -> (r: Result<(), QueueError>)
    requires
        old(storage).wf(),
    ensures
        final(storage).wf(),
        match config_updated(
            old(storage)@,
            sender@,
            bytes_of(owner),
            bytes_of(oracle_contract),
            safe_ratio,
            bid_fee,
            liquidation_threshold,
            price_timeframe,
            waiting_period,
        ) {
            Ok(v) => r is Ok && final(storage)@ == v,
            Err(e) => r == Err::<(), QueueError>(e) && final(storage)@ == old(storage)@,
        },
{
    let mut config = match read_config(storage) {
        Ok(c) => c,
        Err(e) => return Err(e),
    };
    if !bytes_equal(sender, &config.owner) {
        return Err(QueueError::Unauthorized);
    }
    if let Some(o) = owner {
        config.owner = o;
    }
    if let Some(o) = oracle_contract {
        config.oracle_contract = o;
    }
    if let Some(x) = safe_ratio {
        config.safe_ratio = x;
    }
    if let Some(x) = bid_fee {
        config.bid_fee = x;
    }
    if let Some(x) = liquidation_threshold {
        config.liquidation_threshold = x;
    }
    if let Some(x) = price_timeframe {
        config.price_timeframe = x;
    }
    if let Some(x) = waiting_period {
        config.waiting_period = x;
    }
    store_config(storage, &config);
    Ok(())
}

/// The ledger after the owner `sender` whitelists a collateral.
pub open spec fn whitelisted(
    v: LedgerView,
    sender: Seq<u8>,
    collateral: Seq<u8>,
    bid_threshold: u128,
    max_slot: u8,
) -> Result<LedgerView, QueueError> {
    match v.config {
        None => Err(QueueError::ConfigNotFound),
        Some(c) => if sender != c.owner {
            Err(QueueError::Unauthorized)
        } else {
            Ok(
                LedgerView {
                    collateral_infos: v.collateral_infos.insert(
                        collateral,
                        CollateralInfoView { collateral_token: collateral, bid_threshold, max_slot },
                    ),
                    ..v
                },
            )
        },
    }
}

/// Registers a collateral with its bid threshold and its number of premium
/// slots; only the owner may.
pub fn whitelist_collateral(
    storage: &mut Ledger,
    sender: &Vec<u8>,
    collateral_token: &Vec<u8>,
    bid_threshold: u128,
    max_slot: u8,
) -> (r: Result<(), QueueError>)
    requires
        old(storage).wf(),
    ensures
        final(storage).wf(),
        match whitelisted(old(storage)@, sender@, collateral_token@, bid_threshold, max_slot) {
            Ok(v) => r is Ok && final(storage)@ == v,
            Err(e) => r == Err::<(), QueueError>(e) && final(storage)@ == old(storage)@,
        },
{
    let config = match read_config(storage) {
        Ok(c) => c,
        Err(e) => return Err(e),
    };
    if !bytes_equal(sender, &config.owner) {
        return Err(QueueError::Unauthorized);
    }
    let info = CollateralInfo { collateral_token: copy_bytes(collateral_token), bid_threshold, max_slot };
    store_collateral_info(storage, collateral_token, &info);
    Ok(())
}

} // verus!
