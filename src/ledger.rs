//! The queue's persistent ledger: configuration, the bid index counter,
//! aggregate bids, collateral registry, bid pools, the epoch/scale archive of
//! sums, bids, and the per-user listing of bids.
use crate::bid::{Bid, BidView};
use crate::cursor::{
    calc_range_start, clamp_limit, lemma_lex_common_prefix, lemma_lex_push, lex_lt, page_size,
};
use crate::error::QueueError;
use crate::fixed::Decimal;
use crate::keys::{
    append_bytes, be_value, bytes_to_u128, calc_range_start_idx, copy_bytes, epoch_scale_key,
    epoch_scale_key_of, index_key, lemma_index_key_len, lemma_index_key_order,
    lemma_index_key_round_trip, lemma_listing_suffix, namespace,
    namespace_key, pool_key, pool_key_of, tail_bytes, u128_key, user_prefix, user_prefix_of,
};
use crate::pool::BidPool;
use crate::table::{count_in_range, lemma_page_after_cursor, lemma_page_complete, selected_from, Table};
use vstd::prelude::*;

verus! {

/// Global parameters of the queue, set by its owner.
#[derive(Debug)]
pub struct Config {
    pub owner: Vec<u8>,
    pub oracle_contract: Vec<u8>,
    pub stable_denom: String,
    pub safe_ratio: Decimal,
    pub bid_fee: Decimal,
    pub liquidation_threshold: u128,
    pub price_timeframe: u64,
    pub waiting_period: u64,
}

pub struct ConfigView {
    pub owner: Seq<u8>,
    pub oracle_contract: Seq<u8>,
    pub stable_denom: Seq<char>,
    pub safe_ratio: Decimal,
    pub bid_fee: Decimal,
    pub liquidation_threshold: u128,
    pub price_timeframe: u64,
    pub waiting_period: u64,
}

impl View for Config {
    type V = ConfigView;

    open spec fn view(&self) -> ConfigView {
        ConfigView {
            owner: self.owner@,
            oracle_contract: self.oracle_contract@,
            stable_denom: self.stable_denom@,
            safe_ratio: self.safe_ratio,
            bid_fee: self.bid_fee,
            liquidation_threshold: self.liquidation_threshold,
            price_timeframe: self.price_timeframe,
            waiting_period: self.waiting_period,
        }
    }
}

impl Config {
    /// A copy of the configuration.
    pub fn duplicate(&self) -> (r: Config)
        ensures
            r@ == self@,
    {
        Config {
            owner: copy_bytes(&self.owner),
            oracle_contract: copy_bytes(&self.oracle_contract),
            stable_denom: self.stable_denom.clone(),
            safe_ratio: self.safe_ratio,
            bid_fee: self.bid_fee,
            liquidation_threshold: self.liquidation_threshold,
            price_timeframe: self.price_timeframe,
            waiting_period: self.waiting_period,
        }
    }
}

/// A whitelisted collateral: the least liquidation that engages bids, and
/// its number of premium slots, valid slots being `[0, max_slot)`.
#[derive(Debug)]
pub struct CollateralInfo {
    pub collateral_token: Vec<u8>,
    pub bid_threshold: u128,
    pub max_slot: u8,
}

pub struct CollateralInfoView {
    pub collateral_token: Seq<u8>,
    pub bid_threshold: u128,
    pub max_slot: u8,
}

impl View for CollateralInfo {
    type V = CollateralInfoView;

    open spec fn view(&self) -> CollateralInfoView {
        CollateralInfoView {
            collateral_token: self.collateral_token@,
            bid_threshold: self.bid_threshold,
            max_slot: self.max_slot,
        }
    }
}

impl CollateralInfo {
    /// A copy of the collateral's parameters.
    pub fn duplicate(&self) -> (r: CollateralInfo)
        ensures
            r@ == self@,
    {
        CollateralInfo {
            collateral_token: copy_bytes(&self.collateral_token),
            bid_threshold: self.bid_threshold,
            max_slot: self.max_slot,
        }
    }
}

/// The whole ledger. Each table is keyed by byte strings as `keys` lays
/// them out.
pub struct Ledger {
    config: Option<Config>,
    bid_idx: Option<u128>,
    total_bids: Table<u128>,
    epoch_scale_sums: Table<Decimal>,
    collateral_infos: Table<CollateralInfo>,
    bid_pools: Table<BidPool>,
    bids: Table<Bid>,
    bids_by_user: Table<bool>,
}

/// The ledger as maps from keys to records.
pub struct LedgerView {
    pub config: Option<ConfigView>,
    pub bid_idx: Option<u128>,
    pub total_bids: Map<Seq<u8>, u128>,
    pub epoch_scale_sums: Map<Seq<u8>, Decimal>,
    pub collateral_infos: Map<Seq<u8>, CollateralInfoView>,
    pub bid_pools: Map<Seq<u8>, BidPool>,
    pub bids: Map<Seq<u8>, BidView>,
    pub bids_by_user: Map<Seq<u8>, bool>,
}

impl View for Ledger {
    type V = LedgerView;

    closed spec fn view(&self) -> LedgerView {
        LedgerView {
            config: match self.config {
                Some(c) => Some(c@),
                None => None,
            },
            bid_idx: self.bid_idx,
            total_bids: self.total_bids@,
            epoch_scale_sums: self.epoch_scale_sums@,
            collateral_infos: self.collateral_infos@.map_values(|c: CollateralInfo| c@),
            bid_pools: self.bid_pools@,
            bids: self.bids@.map_values(|b: Bid| b@),
            bids_by_user: self.bids_by_user@,
        }
    }
}

/// Every bid is listed under its collateral and bidder, and every listing
/// names a bid of that collateral and bidder.
pub open spec fn index_consistent(v: LedgerView) -> bool {
    &&& forall|k: Seq<u8>| #[trigger] v.bids.contains_key(k) ==> k.len() == 16
    &&& forall|k: Seq<u8>| #[trigger] v.bids.contains_key(k) ==> v.bids_by_user.contains_key(
        user_prefix(v.bids[k].collateral_token, v.bids[k].bidder) + k,
    )
    &&& forall|u: Seq<u8>| #[trigger] v.bids_by_user.contains_key(u) ==> exists|k: Seq<u8>|
        #[trigger] v.bids.contains_key(k) && u == user_prefix(v.bids[k].collateral_token, v.bids[k].bidder)
            + k
}

/// Every stored pool's product lies in `(0, 1]`, and its key is the pool
/// key of a collateral and a slot.
pub open spec fn pools_wf(v: LedgerView) -> bool {
    forall|k: Seq<u8>|
        #[trigger] v.bid_pools.contains_key(k) ==> v.bid_pools[k].wf() && exists|c: Seq<u8>, s: u8|
            c.len() <= usize::MAX && k == #[trigger] pool_key(c, s)
}

/// `v` with the pool under `key` set to `pool`.
pub open spec fn with_pool(v: LedgerView, key: Seq<u8>, pool: BidPool) -> LedgerView {
    LedgerView { bid_pools: v.bid_pools.insert(key, pool), ..v }
}

/// The pools of `collateral` that a range read returns.
pub open spec fn pool_page(
    v: LedgerView,
    pool_keys: Seq<Seq<u8>>,
    collateral: Seq<u8>,
    start_after: Option<u8>,
    limit: Option<u8>,
) -> Seq<BidPool> {
    let prefix = namespace(collateral);
    let start = match start_after {
        Some(s) => prefix + seq![s, 1u8],
        None => Seq::empty(),
    };
    selected_from(pool_keys, prefix, start, 0, page_size(limit)).map_values(
        |p: int| v.bid_pools[pool_keys[p]],
    )
}

/// The listing key of the bid under `key`.
pub open spec fn listing_key(bid: BidView, key: Seq<u8>) -> Seq<u8> {
    user_prefix(bid.collateral_token, bid.bidder) + key
}

/// The listing of `v` once the bid under `key` is no longer listed.
pub open spec fn unlisted(v: LedgerView, key: Seq<u8>) -> Map<Seq<u8>, bool> {
    if v.bids.contains_key(key) {
        v.bids_by_user.remove(listing_key(v.bids[key], key))
    } else {
        v.bids_by_user
    }
}

/// The bid a listing key stands for, the key read past its first `skip`
/// bytes as a bid index.
pub open spec fn listed_bid(v: LedgerView, key: Seq<u8>, skip: nat) -> Result<BidView, QueueError> {
    if skip > key.len() || key.len() - skip != 16 {
        Err(QueueError::CorruptedKey)
    } else {
        let k = index_key(be_value(key.subrange(skip as int, key.len() as int)) as u128);
        if v.bids.contains_key(k) {
            Ok(v.bids[k])
        } else {
            Err(QueueError::NoSuchBid)
        }
    }
}

/// The bids that listing keys stand for; the first key that stands for none
/// fails the whole read.
pub open spec fn bids_listed(v: LedgerView, keys: Seq<Seq<u8>>, skip: nat) -> Result<Seq<BidView>, QueueError>
    decreases keys.len(),
{
    if keys.len() == 0 {
        Ok(Seq::empty())
    } else {
        match bids_listed(v, keys.drop_last(), skip) {
            Err(e) => Err(e),
            Ok(s) => match listed_bid(v, keys.last(), skip) {
                Err(e) => Err(e),
                Ok(b) => Ok(s.push(b)),
            },
        }
    }
}

proof fn lemma_listed_err(v: LedgerView, keys: Seq<Seq<u8>>, skip: nat, i: int)
    requires
        0 <= i <= keys.len(),
        bids_listed(v, keys.take(i), skip) is Err,
    ensures
        bids_listed(v, keys, skip) == bids_listed(v, keys.take(i), skip),
    decreases keys.len(),
{
    if i < keys.len() {
        assert(keys.drop_last().take(i) =~= keys.take(i));
        lemma_listed_err(v, keys.drop_last(), skip, i);
    } else {
        assert(keys.take(i) =~= keys);
    }
}

/// The bids of `bidder` on `collateral` that a range read returns.
pub open spec fn user_page(
    v: LedgerView,
    user_keys: Seq<Seq<u8>>,
    collateral: Seq<u8>,
    bidder: Seq<u8>,
    start_after: Option<u128>,
    limit: Option<u8>,
) -> Result<Seq<BidView>, QueueError> {
    let prefix = user_prefix(collateral, bidder);
    let start = match start_after {
        Some(x) => prefix + index_key(x).push(1u8),
        None => Seq::empty(),
    };
    bids_listed(
        v,
        selected_from(user_keys, prefix, start, 0, page_size(limit)).map_values(|p: int| user_keys[p]),
        prefix.len(),
    )
}

impl Ledger {
    /// The keys of the bid pools in ascending byte order.
    pub closed spec fn pool_keys(&self) -> Seq<Seq<u8>> {
        self.bid_pools.keys()
    }

    /// The keys of the per-user listing in ascending byte order.
    pub closed spec fn user_keys(&self) -> Seq<Seq<u8>> {
        self.bids_by_user.keys()
    }

    /// Every table is in key order, and the bids and their listings agree.
    pub closed spec fn wf(&self) -> bool {
        &&& self.total_bids.wf()
        &&& self.epoch_scale_sums.wf()
        &&& self.collateral_infos.wf()
        &&& self.bid_pools.wf()
        &&& self.bids.wf()
        &&& self.bids_by_user.wf()
        &&& index_consistent(self@)
        &&& pools_wf(self@)
    }

    /// The tables that a range read walks are in ascending key order, and
    /// hold exactly the keys of their maps.
    pub proof fn lemma_ordered(&self)
        requires
            self.wf(),
        ensures
            forall|i: int, j: int|
                0 <= i < j < self.pool_keys().len() ==> crate::cursor::lex_lt(
                    #[trigger] self.pool_keys()[i],
                    #[trigger] self.pool_keys()[j],
                ),
            forall|i: int| 0 <= i < self.pool_keys().len() ==> self@.bid_pools.contains_key(
                #[trigger] self.pool_keys()[i],
            ),
            forall|k: Seq<u8>| #[trigger] self@.bid_pools.contains_key(k) ==> self.pool_keys().contains(k),
            forall|i: int| 0 <= i < self.user_keys().len() ==> self@.bids_by_user.contains_key(
                #[trigger] self.user_keys()[i],
            ),
            forall|k: Seq<u8>| #[trigger] self@.bids_by_user.contains_key(k) ==> self.user_keys().contains(k),
            forall|i: int, j: int|
                0 <= i < j < self.user_keys().len() ==> crate::cursor::lex_lt(
                    #[trigger] self.user_keys()[i],
                    #[trigger] self.user_keys()[j],
                ),
            index_consistent(self@),
    {
        assert forall|i: int| 0 <= i < self.pool_keys().len() implies self@.bid_pools.contains_key(
            #[trigger] self.pool_keys()[i],
        ) by {
            self.bid_pools.lemma_entry(i);
        }
        assert forall|i: int| 0 <= i < self.user_keys().len() implies self@.bids_by_user.contains_key(
            #[trigger] self.user_keys()[i],
        ) by {
            self.bids_by_user.lemma_entry(i);
        }
    }

    /// An empty ledger.
    pub fn new() -> (r: Ledger)
        ensures
            r.wf(),
            r@.config is None,
            r@.bid_idx is None,
            r@.total_bids == Map::<Seq<u8>, u128>::empty(),
            r@.epoch_scale_sums == Map::<Seq<u8>, Decimal>::empty(),
            r@.collateral_infos == Map::<Seq<u8>, CollateralInfoView>::empty(),
            r@.bid_pools == Map::<Seq<u8>, BidPool>::empty(),
            r@.bids == Map::<Seq<u8>, BidView>::empty(),
            r@.bids_by_user == Map::<Seq<u8>, bool>::empty(),
    {
        let r = Ledger {
            config: None,
            bid_idx: None,
            total_bids: Table::new(),
            epoch_scale_sums: Table::new(),
            collateral_infos: Table::new(),
            bid_pools: Table::new(),
            bids: Table::new(),
            bids_by_user: Table::new(),
        };
        proof {
            assert(r@.collateral_infos =~= Map::<Seq<u8>, CollateralInfoView>::empty());
            assert(r@.bids =~= Map::<Seq<u8>, BidView>::empty());
        }
        r
    }
}

pub fn store_config(storage: &mut Ledger, config: &Config)
    requires
        old(storage).wf(),
    ensures
        final(storage).wf(),
        final(storage)@ == (LedgerView { config: Some(config@), ..old(storage)@ }),
{
    storage.config = Some(config.duplicate());
}

pub fn read_config(storage: &Ledger) -> (r: Result<Config, QueueError>)
    ensures
        match storage@.config {
            Some(c) => r is Ok && r->Ok_0@ == c,
            None => r == Err::<Config, QueueError>(QueueError::ConfigNotFound),
        },
{
    match &storage.config {
        Some(c) => Ok(c.duplicate()),
        None => Err(QueueError::ConfigNotFound),
    }
}

/// Hands out the next bid index, starting from 1.
pub fn pop_bid_idx(storage: &mut Ledger) -> (r: Result<u128, QueueError>)
    requires
        old(storage).wf(),
    ensures
        final(storage).wf(),
        ({
            let last = match old(storage)@.bid_idx {
                Some(i) => i,
                None => 1,
            };
            if last == u128::MAX {
                r == Err::<u128, QueueError>(QueueError::Overflow) && final(storage)@ == old(storage)@
            } else {
                r == Ok::<u128, QueueError>(last) && final(storage)@ == (LedgerView {
                    bid_idx: Some((last + 1) as u128),
                    ..old(storage)@
                })
            }
        }),
{
    let last = match storage.bid_idx {
        Some(i) => i,
        None => 1,
    };
    if last == u128::MAX {
        return Err(QueueError::Overflow);
    }
    storage.bid_idx = Some(last + 1);
    Ok(last)
}

pub fn store_total_bids(storage: &mut Ledger, collateral_token: &Vec<u8>, total_bids: u128)
    requires
        old(storage).wf(),
    ensures
        final(storage).wf(),
        final(storage)@ == (LedgerView {
            total_bids: old(storage)@.total_bids.insert(collateral_token@, total_bids),
            ..old(storage)@
        }),
{
    storage.total_bids.insert(copy_bytes(collateral_token), total_bids);
}

pub fn read_total_bids(storage: &Ledger, collateral_token: &Vec<u8>) -> (r: Result<u128, QueueError>)
    requires
        storage.wf(),
    ensures
        storage@.total_bids.contains_key(collateral_token@) ==> r == Ok::<u128, QueueError>(
            storage@.total_bids[collateral_token@],
        ),
        !storage@.total_bids.contains_key(collateral_token@) ==> r == Err::<u128, QueueError>(
            QueueError::TotalBidsNotFound,
        ),
{
    match storage.total_bids.get(collateral_token) {
        Some(t) => Ok(*t),
        None => Err(QueueError::TotalBidsNotFound),
    }
}

pub fn store_epoch_scale_sum(
    storage: &mut Ledger,
    collateral_token: &Vec<u8>,
    premium_slot: u8,
    epoch: u128,
    scale: u128,
    sum: Decimal,
)
    requires
        old(storage).wf(),
    ensures
        final(storage).wf(),
        final(storage)@ == (LedgerView {
            epoch_scale_sums: old(storage)@.epoch_scale_sums.insert(
                epoch_scale_key(collateral_token@, premium_slot, epoch, scale),
                sum,
            ),
            ..old(storage)@
        }),
{
    storage.epoch_scale_sums.insert(epoch_scale_key_of(collateral_token, premium_slot, epoch, scale), sum);
}

pub fn read_epoch_scale_sum(
    storage: &Ledger,
    collateral_token: &Vec<u8>,
    premium_slot: u8,
    epoch: u128,
    scale: u128,
) -> (r: Result<Decimal, QueueError>)
    requires
        storage.wf(),
    ensures
        ({
            let k = epoch_scale_key(collateral_token@, premium_slot, epoch, scale);
            if storage@.epoch_scale_sums.contains_key(k) {
                r == Ok::<Decimal, QueueError>(storage@.epoch_scale_sums[k])
            } else {
                r == Err::<Decimal, QueueError>(QueueError::EpochScaleSumNotFound)
            }
        }),
{
    match storage.epoch_scale_sums.get(&epoch_scale_key_of(collateral_token, premium_slot, epoch, scale)) {
        Some(s) => Ok(*s),
        None => Err(QueueError::EpochScaleSumNotFound),
    }
}

pub fn store_collateral_info(storage: &mut Ledger, collateral_token: &Vec<u8>, collateral_info: &CollateralInfo)
    requires
        old(storage).wf(),
    ensures
        final(storage).wf(),
        final(storage)@ == (LedgerView {
            collateral_infos: old(storage)@.collateral_infos.insert(collateral_token@, collateral_info@),
            ..old(storage)@
        }),
{
    storage.collateral_infos.insert(copy_bytes(collateral_token), collateral_info.duplicate());
    proof {
        assert(storage@.collateral_infos =~= old(storage)@.collateral_infos.insert(
            collateral_token@,
            collateral_info@,
        ));
    }
}

/// Reads a whitelisted collateral's parameters; an unknown collateral is
/// not whitelisted.
pub fn read_collateral_info(storage: &Ledger, collateral_token: &Vec<u8>) -> (r: Result<CollateralInfo, QueueError>)
    requires
        storage.wf(),
    ensures
        storage@.collateral_infos.contains_key(collateral_token@) ==> r is Ok && r->Ok_0@
            == storage@.collateral_infos[collateral_token@],
        !storage@.collateral_infos.contains_key(collateral_token@) ==> r == Err::<
            CollateralInfo,
            QueueError,
        >(QueueError::NotWhitelisted),
{
    match storage.collateral_infos.get(collateral_token) {
        Some(c) => Ok(c.duplicate()),
        None => Err(QueueError::NotWhitelisted),
    }
}

pub fn store_bid_pool(storage: &mut Ledger, collateral_token: &Vec<u8>, premium_slot: u8, bid_pool: &BidPool)
    requires
        old(storage).wf(),
        bid_pool.wf(),
    ensures
        final(storage).wf(),
        final(storage)@ == with_pool(old(storage)@, pool_key(collateral_token@, premium_slot), *bid_pool),
{
    storage.bid_pools.insert(pool_key_of(collateral_token, premium_slot), *bid_pool);
    proof {
        let k = pool_key(collateral_token@, premium_slot);
        assert(collateral_token@.len() == collateral_token.len());
        assert(collateral_token@.len() <= usize::MAX && k == pool_key(collateral_token@, premium_slot));
    }
}

/// Reads a bid pool strictly: a pool never touched is not found.
pub fn read_bid_pool(storage: &Ledger, collateral_token: &Vec<u8>, premium_slot: u8) -> (r: Result<BidPool, QueueError>)
    requires
        storage.wf(),
    ensures
        r is Ok ==> r->Ok_0.wf(),
        ({
            let k = pool_key(collateral_token@, premium_slot);
            if storage@.bid_pools.contains_key(k) {
                r == Ok::<BidPool, QueueError>(storage@.bid_pools[k])
            } else {
                r == Err::<BidPool, QueueError>(QueueError::PoolNotFound)
            }
        }),
{
    let key = pool_key_of(collateral_token, premium_slot);
    match storage.bid_pools.get(&key) {
        Some(p) => {
            proof {
                assert(storage@.bid_pools.contains_key(key@));
            }
            Ok(*p)
        },
        None => Err(QueueError::PoolNotFound),
    }
}

/// Reads a bid pool, creating an empty one on first touch of a valid slot.
pub fn read_or_create_bid_pool(storage: &mut Ledger, collateral_info: &CollateralInfo, premium_slot: u8) -> (r: Result<
    BidPool,
    QueueError,
>)
    requires
        old(storage).wf(),
    ensures
        final(storage).wf(),
        r is Ok ==> r->Ok_0.wf(),
        ({
            let k = pool_key(collateral_info.collateral_token@, premium_slot);
            if old(storage)@.bid_pools.contains_key(k) {
                r == Ok::<BidPool, QueueError>(old(storage)@.bid_pools[k]) && final(storage)@ == old(
                    storage,
                )@
            } else if premium_slot < collateral_info.max_slot {
                r == Ok::<BidPool, QueueError>(BidPool::fresh(premium_slot)) && final(storage)@
                    == with_pool(old(storage)@, k, BidPool::fresh(premium_slot))
            } else {
                r == Err::<BidPool, QueueError>(QueueError::InvalidSlot) && final(storage)@ == old(
                    storage,
                )@
            }
        }),
{
    match read_bid_pool(storage, &collateral_info.collateral_token, premium_slot) {
        Ok(pool) => Ok(pool),
        Err(_) => {
            if premium_slot < collateral_info.max_slot {
                let pool = BidPool::new(premium_slot);
                store_bid_pool(storage, &collateral_info.collateral_token, premium_slot, &pool);
                Ok(pool)
            } else {
                Err(QueueError::InvalidSlot)
            }
        },
    }
}

/// Lists the pools of a collateral in ascending slot order, from the first
/// slot after `start_after`, at most `limit` of them (`DEFAULT_LIMIT` where
/// none is given, never more than `MAX_LIMIT`).
pub fn read_bid_pools(
    storage: &Ledger,
    collateral_token: &Vec<u8>,
    start_after: Option<u8>,
    limit: Option<u8>,
) -> (r: Vec<BidPool>)
    requires
        storage.wf(),
    ensures
        r@ == pool_page(storage@, storage.pool_keys(), collateral_token@, start_after, limit),
{
    let prefix = namespace_key(collateral_token);
    let start = match calc_range_start(start_after) {
        Some(cursor) => {
            let mut s = namespace_key(collateral_token);
            append_bytes(&mut s, &cursor);
            s
        },
        None => Vec::new(),
    };
    proof {
        if start_after is None {
            assert(start@ =~= Seq::<u8>::empty());
        }
    }
    let positions = storage.bid_pools.select(&prefix, &start, clamp_limit(limit));
    let ghost sel = selected_from(storage.pool_keys(), prefix@, start@, 0, page_size(limit));
    let mut out: Vec<BidPool> = Vec::new();
    let mut i: usize = 0;
    while i < positions.len()
        invariant
            storage.wf(),
            i <= positions@.len(),
            positions@.map_values(|p: usize| p as int) == sel,
            forall|j: int| 0 <= j < positions@.len() ==> positions@[j] < storage.pool_keys().len(),
            out@ == sel.take(i as int).map_values(|p: int| storage@.bid_pools[storage.pool_keys()[p]]),
        decreases positions.len() - i,
    {
        let p = positions[i];
        proof {
            storage.bid_pools.lemma_entry(p as int);
            assert(sel[i as int] == p as int);
        }
        out.push(*storage.bid_pools.value_at(p));
        i = i + 1;
        proof {
            assert(out@ =~= sel.take(i as int).map_values(|p: int| storage@.bid_pools[storage.pool_keys()[p]]));
        }
    }
    proof {
        assert(sel.take(i as int) =~= sel);
    }
    out
}

/// Paging the pools of a collateral after cursor slot `x`: every pool
/// returned is a pool of that collateral at a slot after `x`, the pools come in ascending slot
/// order, and the first is the pool at the least slot after `x`; the page
/// holds as many as the limit allows of the pools after the cursor, and is
/// empty only where no pool lies after `x` or the limit is zero.
pub proof fn lemma_pool_page_cursor(storage: &Ledger, collateral: Seq<u8>, x: u8, limit: Option<u8>)
    requires
        storage.wf(),
        collateral.len() <= usize::MAX,
    ensures
        ({
            let keys = storage.pool_keys();
            let prefix = namespace(collateral);
            let sel = selected_from(keys, prefix, prefix + seq![x, 1u8], 0, page_size(limit));
            &&& pool_page(storage@, keys, collateral, Some(x), limit) == sel.map_values(
                |p: int| storage@.bid_pools[keys[p]],
            )
            &&& sel.len() == if page_size(limit) < count_in_range(keys, prefix, prefix + seq![x, 1u8], 0) {
                page_size(limit)
            } else {
                count_in_range(keys, prefix, prefix + seq![x, 1u8], 0)
            }
            &&& forall|j: int|
                0 <= j < sel.len() ==> #[trigger] keys[sel[j]] == pool_key(collateral, keys[sel[j]].last())
                    && x < keys[sel[j]].last()
            &&& forall|j: int, s: u8|
                #![trigger sel[j], pool_key(collateral, s)]
                0 <= j < sel.len() && keys[sel[j]] == pool_key(collateral, s) ==> x < s
            &&& forall|j1: int, j2: int, s1: u8, s2: u8|
                #![trigger sel[j1], sel[j2], pool_key(collateral, s1), pool_key(collateral, s2)]
                0 <= j1 < j2 < sel.len() && keys[sel[j1]] == pool_key(collateral, s1) && keys[sel[j2]]
                    == pool_key(collateral, s2) ==> s1 < s2
            &&& forall|s: u8, s0: u8|
                x < s && storage@.bid_pools.contains_key(#[trigger] pool_key(collateral, s)) && sel.len() > 0
                    && keys[sel[0]] == #[trigger] pool_key(collateral, s0) ==> s0 <= s
            &&& forall|s: u8|
                x < s && storage@.bid_pools.contains_key(#[trigger] pool_key(collateral, s)) && page_size(limit) > 0
                    ==> sel.len() > 0
        }),
{
    let keys = storage.pool_keys();
    let prefix = namespace(collateral);
    let cursor = pool_key(collateral, x);
    let sel = selected_from(keys, prefix, prefix + seq![x, 1u8], 0, page_size(limit));
    storage.lemma_ordered();
    assert(prefix + seq![x, 1u8] =~= cursor.push(1u8));
    lemma_page_after_cursor(keys, prefix, cursor, page_size(limit));
    lemma_page_complete(keys, prefix, prefix + seq![x, 1u8], page_size(limit));
    assert forall|j: int, s: u8|
        #![trigger sel[j], pool_key(collateral, s)]
        0 <= j < sel.len() && keys[sel[j]] == pool_key(collateral, s) implies x < s by {
        lemma_lex_push(prefix, x, s);
    }
    assert forall|j: int| 0 <= j < sel.len() implies #[trigger] keys[sel[j]] == pool_key(
        collateral,
        keys[sel[j]].last(),
    ) && x < keys[sel[j]].last() by {
        let key = keys[sel[j]];
        assert(storage@.bid_pools.contains_key(key));
        let (c2, s2) = choose|c: Seq<u8>, s: u8| c.len() <= usize::MAX && key == #[trigger] pool_key(c, s);
        crate::keys::lemma_pool_key_in_namespace(collateral, c2, s2);
        lemma_lex_push(prefix, x, s2);
        assert(key.last() == s2);
    }
    assert forall|j1: int, j2: int, s1: u8, s2: u8|
        #![trigger sel[j1], sel[j2], pool_key(collateral, s1), pool_key(collateral, s2)]
        0 <= j1 < j2 < sel.len() && keys[sel[j1]] == pool_key(collateral, s1) && keys[sel[j2]]
            == pool_key(collateral, s2) implies s1 < s2 by {
        lemma_lex_push(prefix, s1, s2);
    }
    assert forall|s: u8|
        x < s && storage@.bid_pools.contains_key(#[trigger] pool_key(collateral, s)) implies (exists|m: int|
        0 <= m < keys.len() && keys[m] == pool_key(collateral, s)) && prefix.is_prefix_of(pool_key(collateral, s))
        && lex_lt(cursor, pool_key(collateral, s)) by {
        lemma_lex_push(prefix, x, s);
        assert(keys.contains(pool_key(collateral, s)));
        assert(prefix =~= pool_key(collateral, s).subrange(0, prefix.len() as int));
    }
    assert forall|s: u8, s0: u8|
        x < s && storage@.bid_pools.contains_key(#[trigger] pool_key(collateral, s)) && sel.len() > 0
            && keys[sel[0]] == #[trigger] pool_key(collateral, s0) implies s0 <= s by {
        let m = choose|m: int| 0 <= m < keys.len() && keys[m] == pool_key(collateral, s);
        lemma_lex_push(prefix, s, s0);
    }
}

/// A listing key made of a bidder's prefix and the key of index `i` reads
/// the bid stored under index `i`.
pub proof fn lemma_listed_bid_of_index(v: LedgerView, prefix: Seq<u8>, i: u128)
    ensures
        listed_bid(v, prefix + index_key(i), prefix.len()) == if v.bids.contains_key(index_key(i)) {
            Ok::<BidView, QueueError>(v.bids[index_key(i)])
        } else {
            Err::<BidView, QueueError>(QueueError::NoSuchBid)
        },
{
    let key = prefix + index_key(i);
    lemma_index_key_round_trip(i);
    assert(key.subrange(prefix.len() as int, key.len() as int) =~= index_key(i));
}

/// Paging a bidder's listing after cursor index `x`: every bid index the
/// page lists comes after `x`, the indices ascend, and the first is the
/// least index after `x` in the bidder's listing; the page holds as many
/// as the limit allows of the listing keys after the cursor, and is empty
/// only where no such index is listed or the limit is zero.
pub proof fn lemma_user_page_cursor(
    storage: &Ledger,
    collateral: Seq<u8>,
    bidder: Seq<u8>,
    x: u128,
    limit: Option<u8>,
)
    requires
        storage.wf(),
    ensures
        ({
            let keys = storage.user_keys();
            let prefix = user_prefix(collateral, bidder);
            let sel = selected_from(keys, prefix, (prefix + index_key(x)).push(1u8), 0, page_size(limit));
            &&& user_page(storage@, keys, collateral, bidder, Some(x), limit) == bids_listed(
                storage@,
                sel.map_values(|p: int| keys[p]),
                prefix.len(),
            )
            &&& sel.len() == if page_size(limit) < count_in_range(keys, prefix, (prefix + index_key(x)).push(1u8), 0) {
                page_size(limit)
            } else {
                count_in_range(keys, prefix, (prefix + index_key(x)).push(1u8), 0)
            }
            &&& forall|j: int, i: u128|
                #![trigger sel[j], index_key(i)]
                0 <= j < sel.len() && keys[sel[j]] == prefix + index_key(i) ==> x < i
            &&& forall|j1: int, j2: int, i1: u128, i2: u128|
                #![trigger sel[j1], sel[j2], index_key(i1), index_key(i2)]
                0 <= j1 < j2 < sel.len() && keys[sel[j1]] == prefix + index_key(i1) && keys[sel[j2]] == prefix
                    + index_key(i2) ==> i1 < i2
            &&& forall|i: u128, i0: u128|
                #![trigger index_key(i), index_key(i0)]
                x < i && storage@.bids_by_user.contains_key(prefix + index_key(i)) && sel.len() > 0
                    && keys[sel[0]] == prefix + index_key(i0) ==> i0 <= i
            &&& forall|i: u128|
                x < i && storage@.bids_by_user.contains_key(prefix + #[trigger] index_key(i)) && page_size(limit)
                    > 0 ==> sel.len() > 0
        }),
{
    let keys = storage.user_keys();
    let prefix = user_prefix(collateral, bidder);
    let cursor = prefix + index_key(x);
    let sel = selected_from(keys, prefix, cursor.push(1u8), 0, page_size(limit));
    storage.lemma_ordered();
    assert(prefix + index_key(x).push(1u8) =~= cursor.push(1u8));
    lemma_page_after_cursor(keys, prefix, cursor, page_size(limit));
    lemma_page_complete(keys, prefix, cursor.push(1u8), page_size(limit));
    lemma_index_key_len(x);
    assert forall|j: int, i: u128|
        #![trigger sel[j], index_key(i)]
        0 <= j < sel.len() && keys[sel[j]] == prefix + index_key(i) implies x < i by {
        lemma_index_key_len(i);
        lemma_lex_common_prefix(prefix, index_key(x), index_key(i));
        lemma_index_key_order(x, i);
    }
    assert forall|j1: int, j2: int, i1: u128, i2: u128|
        #![trigger sel[j1], sel[j2], index_key(i1), index_key(i2)]
        0 <= j1 < j2 < sel.len() && keys[sel[j1]] == prefix + index_key(i1) && keys[sel[j2]] == prefix
            + index_key(i2) implies i1 < i2 by {
        lemma_lex_common_prefix(prefix, index_key(i1), index_key(i2));
        lemma_index_key_order(i1, i2);
    }
    assert forall|i: u128|
        x < i && storage@.bids_by_user.contains_key(prefix + #[trigger] index_key(i)) implies (exists|m: int|
        0 <= m < keys.len() && keys[m] == prefix + index_key(i)) && prefix.is_prefix_of(prefix + index_key(i))
        && (prefix + index_key(i)).len() == cursor.len() && lex_lt(cursor, prefix + index_key(i)) by {
        assert(keys.contains(prefix + index_key(i)));
        assert(prefix =~= (prefix + index_key(i)).subrange(0, prefix.len() as int));
        lemma_index_key_len(i);
        lemma_lex_common_prefix(prefix, index_key(x), index_key(i));
        lemma_index_key_order(x, i);
    }
    assert forall|i: u128, i0: u128|
        #![trigger index_key(i), index_key(i0)]
        x < i && storage@.bids_by_user.contains_key(prefix + index_key(i)) && sel.len() > 0
            && keys[sel[0]] == prefix + index_key(i0) implies i0 <= i by {
        let m = choose|m: int| 0 <= m < keys.len() && keys[m] == prefix + index_key(i);
        lemma_lex_common_prefix(prefix, index_key(i), index_key(i0));
        lemma_index_key_order(i, i0);
    }
}

/// Stores a bid under `bid_idx` and lists it under its collateral and
/// bidder; a bid it replaces is no longer listed.
pub fn store_bid(storage: &mut Ledger, bid_idx: u128, bid: &Bid)
    requires
        old(storage).wf(),
    ensures
        final(storage).wf(),
        final(storage)@ == (LedgerView {
            bids: old(storage)@.bids.insert(index_key(bid_idx), bid@),
            bids_by_user: unlisted(old(storage)@, index_key(bid_idx)).insert(
                listing_key(bid@, index_key(bid_idx)),
                true,
            ),
            ..old(storage)@
        }),
{
    let key = u128_key(bid_idx);
    let ghost v0 = storage@;
    let ghost k = key@;
    let replaced = match storage.bids.get(&key) {
        Some(prev) => {
            let mut listing = user_prefix_of(&prev.collateral_token, &prev.bidder);
            append_bytes(&mut listing, &key);
            Some(listing)
        },
        None => None,
    };
    proof {
        if v0.bids.contains_key(k) {
            assert(replaced is Some && replaced->0@ == listing_key(v0.bids[k], k));
        } else {
            assert(replaced is None);
        }
    }
    if let Some(listing) = replaced {
        storage.bids_by_user.remove(&listing);
    }
    let mut listing = user_prefix_of(&bid.collateral_token, &bid.bidder);
    append_bytes(&mut listing, &key);
    storage.bids_by_user.insert(listing, true);
    storage.bids.insert(key, bid.duplicate());
    proof {
        let v1 = storage@;
        assert(v1.bids =~= v0.bids.insert(k, bid@));
        assert(v1.bids_by_user =~= unlisted(v0, k).insert(listing_key(bid@, k), true));
        lemma_index_key_len(bid_idx);
        assert forall|j: Seq<u8>| #[trigger] v1.bids.contains_key(j) implies v1.bids_by_user.contains_key(
            user_prefix(v1.bids[j].collateral_token, v1.bids[j].bidder) + j,
        ) by {
            if j != k {
                let lj = listing_key(v0.bids[j], j);
                assert(v0.bids_by_user.contains_key(lj));
                if v0.bids.contains_key(k) && lj == listing_key(v0.bids[k], k) {
                    lemma_listing_suffix(user_prefix(v0.bids[j].collateral_token, v0.bids[j].bidder), j,
                        user_prefix(v0.bids[k].collateral_token, v0.bids[k].bidder), k);
                }
            }
        }
        assert forall|u: Seq<u8>| #[trigger] v1.bids_by_user.contains_key(u) implies exists|j: Seq<u8>|
            #[trigger] v1.bids.contains_key(j) && u == user_prefix(v1.bids[j].collateral_token, v1.bids[j].bidder)
                + j by {
            if u == listing_key(bid@, k) {
                assert(v1.bids.contains_key(k));
            } else {
                assert(v0.bids_by_user.contains_key(u));
                let j = choose|j: Seq<u8>|
                    #[trigger] v0.bids.contains_key(j) && u == user_prefix(v0.bids[j].collateral_token, v0.bids[j].bidder) + j;
                assert(j != k);
                assert(v1.bids.contains_key(j));
            }
        }
    }
}

/// Removes the bid under `bid_idx` together with its listing.
pub fn remove_bid(storage: &mut Ledger, bid_idx: u128) -> (r: Result<(), QueueError>)
    requires
        old(storage).wf(),
    ensures
        final(storage).wf(),
        old(storage)@.bids.contains_key(index_key(bid_idx)) ==> r is Ok && final(storage)@ == (LedgerView {
            bids: old(storage)@.bids.remove(index_key(bid_idx)),
            bids_by_user: unlisted(old(storage)@, index_key(bid_idx)),
            ..old(storage)@
        }),
        !old(storage)@.bids.contains_key(index_key(bid_idx)) ==> r == Err::<(), QueueError>(QueueError::NoSuchBid)
            && final(storage)@ == old(storage)@,
{
    let key = u128_key(bid_idx);
    let ghost v0 = storage@;
    let ghost k = key@;
    let listing = match storage.bids.get(&key) {
        Some(prev) => {
            let mut listing = user_prefix_of(&prev.collateral_token, &prev.bidder);
            append_bytes(&mut listing, &key);
            listing
        },
        None => return Err(QueueError::NoSuchBid),
    };
    storage.bids.remove(&key);
    storage.bids_by_user.remove(&listing);
    proof {
        let v1 = storage@;
        assert(v1.bids =~= v0.bids.remove(k));
        assert(v1.bids_by_user =~= unlisted(v0, k));
        assert forall|j: Seq<u8>| #[trigger] v1.bids.contains_key(j) implies v1.bids_by_user.contains_key(
            user_prefix(v1.bids[j].collateral_token, v1.bids[j].bidder) + j,
        ) by {
            let lj = listing_key(v0.bids[j], j);
            assert(v0.bids_by_user.contains_key(lj));
            if lj == listing_key(v0.bids[k], k) {
                lemma_listing_suffix(user_prefix(v0.bids[j].collateral_token, v0.bids[j].bidder), j,
                    user_prefix(v0.bids[k].collateral_token, v0.bids[k].bidder), k);
            }
        }
        assert forall|u: Seq<u8>| #[trigger] v1.bids_by_user.contains_key(u) implies exists|j: Seq<u8>|
            #[trigger] v1.bids.contains_key(j) && u == user_prefix(v1.bids[j].collateral_token, v1.bids[j].bidder)
                + j by {
            let j = choose|j: Seq<u8>|
                #[trigger] v0.bids.contains_key(j) && u == user_prefix(v0.bids[j].collateral_token, v0.bids[j].bidder) + j;
            assert(j != k);
            assert(v1.bids.contains_key(j));
        }
    }
    Ok(())
}

/// Reads the bid under `bid_idx`.
pub fn read_bid(storage: &Ledger, bid_idx: u128) -> (r: Result<Bid, QueueError>)
    requires
        storage.wf(),
    ensures
        storage@.bids.contains_key(index_key(bid_idx)) ==> r is Ok && r->Ok_0@ == storage@.bids[index_key(bid_idx)],
        !storage@.bids.contains_key(index_key(bid_idx)) ==> r == Err::<Bid, QueueError>(QueueError::NoSuchBid),
{
    match storage.bids.get(&u128_key(bid_idx)) {
        Some(b) => Ok(b.duplicate()),
        None => Err(QueueError::NoSuchBid),
    }
}

/// Reads the bid that a listing key stands for.
fn read_listed_bid(storage: &Ledger, key: &Vec<u8>, skip: usize) -> (r: Result<Bid, QueueError>)
    requires
        storage.wf(),
    ensures
        match listed_bid(storage@, key@, skip as nat) {
            Ok(b) => r is Ok && r->Ok_0@ == b,
            Err(e) => r == Err::<Bid, QueueError>(e),
        },
{
    if skip > key.len() || key.len() - skip != 16 {
        return Err(QueueError::CorruptedKey);
    }
    let suffix = tail_bytes(key, skip);
    let idx = match bytes_to_u128(suffix.as_slice()) {
        Ok(idx) => idx,
        Err(e) => return Err(e),
    };
    read_bid(storage, idx)
}

/// Reading a bid twice with no write between gives the same value: any two
/// results that `read_bid` may return on one ledger agree.
pub proof fn lemma_read_bid_idempotent(
    storage: &Ledger,
    bid_idx: u128,
    r1: Result<Bid, QueueError>,
    r2: Result<Bid, QueueError>,
)
    requires
        call_ensures(read_bid, (storage, bid_idx), r1),
        call_ensures(read_bid, (storage, bid_idx), r2),
    ensures
        match (r1, r2) {
            (Ok(b1), Ok(b2)) => b1@ == b2@,
            (Err(e1), Err(e2)) => e1 == e2,
            _ => false,
        },
{
}

/// Reading a bid pool twice with no write between gives the same value.
pub proof fn lemma_read_bid_pool_idempotent(
    storage: &Ledger,
    collateral_token: &Vec<u8>,
    premium_slot: u8,
    r1: Result<BidPool, QueueError>,
    r2: Result<BidPool, QueueError>,
)
    requires
        call_ensures(read_bid_pool, (storage, collateral_token, premium_slot), r1),
        call_ensures(read_bid_pool, (storage, collateral_token, premium_slot), r2),
    ensures
        r1 == r2,
{
}

/// Lists a bidder's bids on a collateral in ascending index order, from the
/// first index after `start_after`, at most `limit` of them (`DEFAULT_LIMIT`
/// where none is given, never more than `MAX_LIMIT`).
pub fn read_bids_by_user(
    storage: &Ledger,
    collateral_token: &Vec<u8>,
    bidder: &Vec<u8>,
    start_after: Option<u128>,
    limit: Option<u8>,
) -> (r: Result<Vec<Bid>, QueueError>)
    requires
        storage.wf(),
    ensures
        match user_page(storage@, storage.user_keys(), collateral_token@, bidder@, start_after, limit) {
            Ok(s) => r is Ok && r->Ok_0@.map_values(|b: Bid| b@) == s,
            Err(e) => r == Err::<Vec<Bid>, QueueError>(e),
        },
{
    let prefix = user_prefix_of(collateral_token, bidder);
    let start = match calc_range_start_idx(start_after) {
        Some(cursor) => {
            let mut s = user_prefix_of(collateral_token, bidder);
            append_bytes(&mut s, &cursor);
            s
        },
        None => Vec::new(),
    };
    proof {
        if start_after is None {
            assert(start@ =~= Seq::<u8>::empty());
        }
    }
    let positions = storage.bids_by_user.select(&prefix, &start, clamp_limit(limit));
    let ghost keys = selected_from(storage.user_keys(), prefix@, start@, 0, page_size(limit)).map_values(
        |p: int| storage.user_keys()[p],
    );
    let ghost skip = prefix@.len();
    proof {
        assert forall|j: int| 0 <= j < keys.len() implies keys[j] == storage.user_keys()[positions@[j] as int] by {
            assert(positions@.map_values(|p: usize| p as int)[j] == positions@[j] as int);
        }
    }
    let mut out: Vec<Bid> = Vec::new();
    let mut i: usize = 0;
    proof {
        assert(keys.take(0) =~= Seq::<Seq<u8>>::empty());
        assert(out@.map_values(|b: Bid| b@) =~= Seq::<BidView>::empty());
    }
    while i < positions.len()
        invariant
            storage.wf(),
            i <= positions@.len(),
            forall|j: int| 0 <= j < positions@.len() ==> positions@[j] < storage.user_keys().len(),
            keys.len() == positions@.len(),
            skip == prefix@.len(),
            forall|j: int| 0 <= j < keys.len() ==> keys[j] == storage.user_keys()[positions@[j] as int],
            bids_listed(storage@, keys.take(i as int), skip) == Ok::<Seq<BidView>, QueueError>(
                out@.map_values(|b: Bid| b@),
            ),
            user_page(storage@, storage.user_keys(), collateral_token@, bidder@, start_after, limit)
                == bids_listed(storage@, keys, skip),
        decreases positions.len() - i,
    {
        let key = storage.bids_by_user.key_at(positions[i]);
        let ghost before = out@.map_values(|b: Bid| b@);
        proof {
            assert(keys.take(i + 1).drop_last() =~= keys.take(i as int));
            assert(keys.take(i + 1).last() == key@);
        }
        match read_listed_bid(storage, key, prefix.len()) {
            Ok(b) => {
                out.push(b);
                proof {
                    assert(out@.map_values(|b: Bid| b@) =~= before.push(b@));
                }
            },
            Err(e) => {
                proof {
                    assert(bids_listed(storage@, keys.take(i + 1), skip) == Err::<Seq<BidView>, QueueError>(e));
                    lemma_listed_err(storage@, keys, skip, i + 1);
                }
                return Err(e);
            },
        }
        i = i + 1;
    }
    proof {
        assert(keys.take(i as int) =~= keys);
    }
    Ok(out)
}

} // verus!
