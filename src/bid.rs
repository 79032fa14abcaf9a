//! Bid records and the lazy reconstruction of what a bid is owed.
use crate::error::QueueError;
use crate::fixed::{checked_mul_div, mul_div, Decimal, DECIMAL_FRACTIONAL};
use crate::keys::copy_bytes;
use crate::pool::{div_scale_pow, replay, scale_pow, ArchivedSum, BidPool, PoolEvent, SCALE_FACTOR};
use vstd::arithmetic::div_mod::{lemma_fundamental_div_mod, lemma_mod_pos_bound};
use vstd::prelude::*;

verus! {

/// One deposit into a bid pool, with the pool's accumulators as they stood
/// when it was made.
#[derive(Debug)]
pub struct Bid {
    pub idx: u128,
    pub collateral_token: Vec<u8>,
    pub premium_slot: u8,
    pub bidder: Vec<u8>,
    pub amount: u128,
    pub product_snapshot: Decimal,
    pub sum_snapshot: Decimal,
    pub pending_liquidated_collateral: u128,
    pub wait_end: Option<u64>,
    pub epoch_snapshot: u128,
    pub scale_snapshot: u128,
}

/// A bid with its addresses as byte sequences.
pub struct BidView {
    pub idx: u128,
    pub collateral_token: Seq<u8>,
    pub premium_slot: u8,
    pub bidder: Seq<u8>,
    pub amount: u128,
    pub product_snapshot: Decimal,
    pub sum_snapshot: Decimal,
    pub pending_liquidated_collateral: u128,
    pub wait_end: Option<u64>,
    pub epoch_snapshot: u128,
    pub scale_snapshot: u128,
}

impl View for Bid {
    type V = BidView;

    open spec fn view(&self) -> BidView {
        BidView {
            idx: self.idx,
            collateral_token: self.collateral_token@,
            premium_slot: self.premium_slot,
            bidder: self.bidder@,
            amount: self.amount,
            product_snapshot: self.product_snapshot,
            sum_snapshot: self.sum_snapshot,
            pending_liquidated_collateral: self.pending_liquidated_collateral,
            wait_end: self.wait_end,
            epoch_snapshot: self.epoch_snapshot,
            scale_snapshot: self.scale_snapshot,
        }
    }
}

/// What a bid can withdraw: the stable amount still live in its pool and the
/// collateral credited to it.
#[derive(Clone, Copy, Debug, PartialEq, Eq, Structural)]
pub struct Entitlement {
    pub residual: u128,
    pub collateral: u128,
}

/// The sum of a scale the pool has left, or the live sum where it has not.
/// `at_scale` and `next_scale` are the sums archived for the bid's epoch at
/// the bid's scale and at the scale after it.
pub open spec fn sums_for(
    bid: BidView,
    pool: BidPool,
    at_scale: Option<Decimal>,
    next_scale: Option<Decimal>,
) -> (Option<Decimal>, int) {
    let live = bid.epoch_snapshot == pool.current_epoch;
    if live && bid.scale_snapshot == pool.current_scale {
        (Some(pool.sum_snapshot), 0)
    } else if live && bid.scale_snapshot + 1 == pool.current_scale {
        (at_scale, pool.sum_snapshot.atoms as int)
    } else {
        (
            at_scale,
            match next_scale {
                Some(s) => s.atoms as int,
                None => 0,
            },
        )
    }
}

/// A bid's entitlement against its pool's live state and the sums archived
/// for its epoch at its scale (`at_scale`) and at the scale after
/// (`next_scale`). The collateral is the bid's share of the rise of the sum
/// within its own scale, plus its share of the sum of the next scale, whose
/// units are `SCALE_FACTOR` times finer; later scales lie below the
/// product's precision floor and add nothing. The residual is the bid's
/// share of the live product, in the bid's scale, while the pool is in the
/// bid's epoch, and nothing after.
pub open spec fn entitlement_of(
    bid: BidView,
    pool: BidPool,
    at_scale: Option<Decimal>,
    next_scale: Option<Decimal>,
) -> Result<Entitlement, QueueError> {
    let amount = bid.amount as int;
    let p0 = bid.product_snapshot.atoms as int;
    let s0 = bid.sum_snapshot.atoms as int;
    let p = pool.product_snapshot.atoms as int;
    let live = bid.epoch_snapshot == pool.current_epoch;
    let (first, second) = sums_for(bid, pool, at_scale, next_scale);
    if p0 == 0 || bid.epoch_snapshot > pool.current_epoch || (live && bid.scale_snapshot
        > pool.current_scale) {
        Err(QueueError::StaleSnapshot)
    } else {
        match first {
            None => Err(QueueError::EpochScaleSumNotFound),
            Some(s1) => if s0 > s1.atoms {
                Err(QueueError::StaleSnapshot)
            } else if (live && amount * p > u128::MAX) || amount * (s1.atoms - s0) > u128::MAX || amount
                * second > u128::MAX {
                Err(QueueError::Overflow)
            } else {
                let residual = if live {
                    mul_div(amount, p, p0) / scale_pow((pool.current_scale - bid.scale_snapshot) as nat) as int
                } else {
                    0
                };
                let collateral = bid.pending_liquidated_collateral + mul_div(amount, s1.atoms - s0, p0)
                    + mul_div(amount, second, p0) / SCALE_FACTOR as int;
                if collateral > u128::MAX {
                    Err(QueueError::Overflow)
                } else {
                    Ok(Entitlement { residual: residual as u128, collateral: collateral as u128 })
                }
            },
        }
    }
}

/// Once its pool has moved past the bid's epoch, a bid has no residual
/// stable amount left.
pub proof fn lemma_no_residual_after_epoch(
    bid: BidView,
    pool: BidPool,
    at_scale: Option<Decimal>,
    next_scale: Option<Decimal>,
)
    requires
        bid.epoch_snapshot < pool.current_epoch,
    ensures
        entitlement_of(bid, pool, at_scale, next_scale) is Ok ==> entitlement_of(
            bid,
            pool,
            at_scale,
            next_scale,
        )->Ok_0.residual == 0,
{
}

/// The bid was made against `pool` as it stands, and holds no pending
/// collateral.
pub open spec fn snapshots(bid: BidView, pool: BidPool) -> bool {
    &&& bid.product_snapshot == pool.product_snapshot
    &&& bid.sum_snapshot == pool.sum_snapshot
    &&& bid.epoch_snapshot == pool.current_epoch
    &&& bid.scale_snapshot == pool.current_scale
    &&& bid.pending_liquidated_collateral == 0
}

/// The amounts the bids deposited.
pub open spec fn amount_sum(bids: Seq<BidView>) -> int
    decreases bids.len(),
{
    if bids.len() == 0 {
        0
    } else {
        amount_sum(bids.drop_last()) + bids.last().amount
    }
}

/// The sum a liquidation archived, if any.
pub open spec fn archived_sum(archived: Option<ArchivedSum>) -> Option<Decimal> {
    match archived {
        Some(a) => Some(a.sum),
        None => None,
    }
}

/// The stable amounts left to the bids against `pool`, counting a bid whose
/// entitlement cannot be read as owed nothing.
pub open spec fn residual_sum(
    bids: Seq<BidView>,
    pool: BidPool,
    at_scale: Option<Decimal>,
    next_scale: Option<Decimal>,
) -> int
    decreases bids.len(),
{
    if bids.len() == 0 {
        0
    } else {
        residual_sum(bids.drop_last(), pool, at_scale, next_scale) + match entitlement_of(
            bids.last(),
            pool,
            at_scale,
            next_scale,
        ) {
            Ok(e) => e.residual as int,
            Err(_) => 0,
        }
    }
}

/// The collateral credited to the bids against `pool`, counting a bid whose
/// entitlement cannot be read as owed nothing.
pub open spec fn collateral_sum(
    bids: Seq<BidView>,
    pool: BidPool,
    at_scale: Option<Decimal>,
    next_scale: Option<Decimal>,
) -> int
    decreases bids.len(),
{
    if bids.len() == 0 {
        0
    } else {
        collateral_sum(bids.drop_last(), pool, at_scale, next_scale) + match entitlement_of(
            bids.last(),
            pool,
            at_scale,
            next_scale,
        ) {
            Ok(e) => e.collateral as int,
            Err(_) => 0,
        }
    }
}

proof fn lemma_mul_div_le(x: int, y: int, z: int)
    requires
        x >= 0,
        y >= 0,
        z > 0,
    ensures
        0 <= mul_div(x, y, z),
        mul_div(x, y, z) * z <= x * y,
{
    let p = x * y;
    assert(p >= 0) by (nonlinear_arith)
        requires x >= 0, y >= 0, p == x * y;
    lemma_fundamental_div_mod(p, z);
    lemma_mod_pos_bound(p, z);
    assert((p / z) * z <= p) by (nonlinear_arith)
        requires p == z * (p / z) + p % z, p % z >= 0;
    assert(0 <= p / z) by (nonlinear_arith)
        requires p >= 0, z > 0;
}

proof fn lemma_scale_le(x: int, y: int, m: int)
    requires
        x <= y,
        m >= 0,
    ensures
        x * m <= y * m,
{
    assert(x * m <= y * m) by (nonlinear_arith)
        requires x <= y, m >= 0;
}

proof fn lemma_cancel_le(x: int, y: int, m: int)
    requires
        x * m <= y * m,
        m > 0,
    ensures
        x <= y,
{
    assert(x <= y) by (nonlinear_arith)
        requires x * m <= y * m, m > 0;
}

/// `col * t <= a * c` where `col` is the bid's share of a credit made from
/// `c` over capital `t`.
proof fn lemma_credit_share(a: int, c: int, t: int, p0: int, one: int)
    requires
        a >= 0,
        c >= 0,
        t > 0,
        p0 > 0,
        one > 0,
    ensures
        ({
            let g = mul_div(c, one, t);
            let credit = mul_div(g, p0, one);
            mul_div(a, credit, p0) * t <= a * c
        }),
{
    let g = mul_div(c, one, t);
    lemma_mul_div_le(c, one, t);
    let credit = mul_div(g, p0, one);
    lemma_mul_div_le(g, p0, one);
    let col = mul_div(a, credit, p0);
    lemma_mul_div_le(a, credit, p0);
    // col * p0 <= a * credit and credit * one <= g * p0 give col * one <= a * g.
    lemma_scale_le(col * p0, a * credit, one);
    lemma_scale_le(credit * one, g * p0, a);
    assert((col * p0) * one == (col * one) * p0) by (nonlinear_arith);
    assert((a * credit) * one == (credit * one) * a) by (nonlinear_arith);
    assert((g * p0) * a == (a * g) * p0) by (nonlinear_arith);
    lemma_cancel_le(col * one, a * g, p0);
    // col * one <= a * g and g * t <= c * one give col * t <= a * c.
    lemma_scale_le(col * one, a * g, t);
    lemma_scale_le(g * t, c * one, a);
    assert((col * one) * t == (col * t) * one) by (nonlinear_arith);
    assert((a * g) * t == (g * t) * a) by (nonlinear_arith);
    assert((c * one) * a == (a * c) * one) by (nonlinear_arith);
    lemma_cancel_le(col * t, a * c, one);
}

/// A single bid's share of one liquidation: of a bid that snapshots the
/// pool, what stays live is at most its amount times `1 - fraction`, and the
/// collateral credited to it at most its amount times `collateral_value`
/// over the pool's capital, read with the sum the liquidation archived.
pub proof fn lemma_bid_share(pool: BidPool, fraction: Decimal, collateral_value: u128, bid: BidView)
    requires
        pool.wf(),
        snapshots(bid, pool),
        pool.consumed(fraction, collateral_value) is Ok,
    ensures
        ({
            let (after, archived) = pool.consumed(fraction, collateral_value)->Ok_0;
            let e = entitlement_of(bid, after, archived_sum(archived), None);
            e is Ok ==> {
                &&& e->Ok_0.residual * DECIMAL_FRACTIONAL <= bid.amount * (DECIMAL_FRACTIONAL - fraction.atoms)
                &&& e->Ok_0.collateral * pool.total_bid_amount <= bid.amount * collateral_value
            }
        }),
{
    let (after, archived) = pool.consumed(fraction, collateral_value)->Ok_0;
    let at = archived_sum(archived);
    let one = DECIMAL_FRACTIONAL as int;
    let f = fraction.atoms as int;
    let t = pool.total_bid_amount as int;
    let c = collateral_value as int;
    let a = bid.amount as int;
    let p0 = pool.product_snapshot.atoms as int;
    let s0 = pool.sum_snapshot.atoms as int;
    assert(t > 0 && 0 < f <= one);
    let k = one - f;
    let g = mul_div(c, one, t);
    let credit = mul_div(g, p0, one);
    let col = mul_div(a, credit, p0);
    let sum = s0 + credit;
    assert(sum <= u128::MAX);
    assert(scale_pow(0) == 1);
    assert(scale_pow(1) == SCALE_FACTOR) by {
        assert(scale_pow(0) == 1);
    }
    lemma_credit_share(a, c, t, p0, one);
    lemma_mul_div_le(c, one, t);
    lemma_mul_div_le(g, p0, one);
    lemma_mul_div_le(a, credit, p0);
    assert(mul_div(a, 0, p0) == 0);
    assert(0int / (SCALE_FACTOR as int) == 0);
    let product = p0 * k;
    assert(0 <= product <= one * one) by (nonlinear_arith)
        requires 0 < p0 <= one, 0 <= k <= one, product == p0 * k;
    let kept = product / one;
    lemma_fundamental_div_mod(product, one);
    lemma_mod_pos_bound(product, one);
    assert(kept * one <= product && kept <= one) by (nonlinear_arith)
        requires product == one * kept + product % one, product % one >= 0, product <= one * one, one > 0;
    let e = entitlement_of(bid, after, at, None);
    if e is Ok {
        let e = e->Ok_0;
        if f == one {
            assert(archived == Some(
                ArchivedSum { epoch: pool.current_epoch, scale: pool.current_scale, sum: Decimal { atoms: sum as u128 } },
            ));
            assert(after.current_epoch == pool.current_epoch + 1);
            assert(e.residual == 0);
            assert(e.collateral == col);
        } else if kept < crate::pool::PRODUCT_FLOOR {
            let r = kept * SCALE_FACTOR;
            assert(archived == Some(
                ArchivedSum { epoch: pool.current_epoch, scale: pool.current_scale, sum: Decimal { atoms: sum as u128 } },
            ));
            assert(r <= u128::MAX) by (nonlinear_arith)
                requires kept < crate::pool::PRODUCT_FLOOR, r == kept * SCALE_FACTOR, kept >= 0;
            assert(after.product_snapshot.atoms == r);
            assert(after.current_scale == pool.current_scale + 1);
            assert(after.sum_snapshot.atoms == 0);
            let q = mul_div(a, r, p0);
            lemma_mul_div_le(a, r, p0);
            assert(e.residual == q / SCALE_FACTOR as int);
            assert(e.collateral == col);
            let res = q / SCALE_FACTOR as int;
            lemma_fundamental_div_mod(q, SCALE_FACTOR as int);
            lemma_mod_pos_bound(q, SCALE_FACTOR as int);
            assert(res * SCALE_FACTOR <= q) by (nonlinear_arith)
                requires q == SCALE_FACTOR * res + q % (SCALE_FACTOR as int), q % (SCALE_FACTOR as int) >= 0;
            // res * 1e9 * p0 <= q * p0 <= a * kept * 1e9, and kept * one <= p0 * k.
            lemma_scale_le(res * SCALE_FACTOR, q, p0);
            assert(q * p0 <= a * r);
            assert(a * r == (a * kept) * SCALE_FACTOR) by (nonlinear_arith)
                requires r == kept * SCALE_FACTOR;
            assert(res * p0 <= a * kept) by (nonlinear_arith)
                requires (res * SCALE_FACTOR) * p0 <= q * p0, q * p0 <= (a * kept) * SCALE_FACTOR;
            lemma_scale_le(res * p0, a * kept, one);
            lemma_scale_le(kept * one, product, a);
            assert((res * p0) * one == (res * one) * p0) by (nonlinear_arith);
            assert((a * kept) * one == (kept * one) * a) by (nonlinear_arith);
            assert(product * a == (a * k) * p0) by (nonlinear_arith)
                requires product == p0 * k;
            lemma_cancel_le(res * one, a * k, p0);
        } else {
            assert(after.product_snapshot.atoms == kept);
            assert(after.current_scale == pool.current_scale);
            assert(after.sum_snapshot.atoms == sum);
            let res = mul_div(a, kept, p0);
            lemma_mul_div_le(a, kept, p0);
            assert(e.residual == res);
            assert(e.collateral == col);
            lemma_scale_le(res * p0, a * kept, one);
            lemma_scale_le(kept * one, product, a);
            assert((res * p0) * one == (res * one) * p0) by (nonlinear_arith);
            assert((a * kept) * one == (kept * one) * a) by (nonlinear_arith);
            assert(product * a == (a * k) * p0) by (nonlinear_arith)
                requires product == p0 * k;
            lemma_cancel_le(res * one, a * k, p0);
        }
    }
}

/// One liquidation pays out no more than it takes in: over bids that each
/// snapshot the pool as it stood, and that between them hold no more than
/// its capital, the stable amounts left to them and the collateral credited
/// to them add up to at most what they deposited plus the collateral value
/// the liquidation credited. (Over several liquidations this need not hold:
/// the pool's capital is truncated at each one, so a later credit can be
/// spread over less capital than the bids still hold.)
pub proof fn lemma_liquidation_conserves(
    pool: BidPool,
    fraction: Decimal,
    collateral_value: u128,
    bids: Seq<BidView>,
)
    requires
        pool.wf(),
        pool.consumed(fraction, collateral_value) is Ok,
        forall|i: int| 0 <= i < bids.len() ==> snapshots(#[trigger] bids[i], pool),
        amount_sum(bids) <= pool.total_bid_amount,
    ensures
        ({
            let (after, archived) = pool.consumed(fraction, collateral_value)->Ok_0;
            residual_sum(bids, after, archived_sum(archived), None) + collateral_sum(bids, after, archived_sum(archived), None) <= amount_sum(bids)
                + collateral_value
        }),
{
    let (after, archived) = pool.consumed(fraction, collateral_value)->Ok_0;
    let t = pool.total_bid_amount as int;
    let c = collateral_value as int;
    let k = DECIMAL_FRACTIONAL - fraction.atoms;
    lemma_sums_bounded(pool, fraction, collateral_value, bids);
    assert(t > 0);
    assert(amount_sum(bids) >= 0) by {
        lemma_amount_sum_nonneg(bids);
    }
    assert(residual_sum(bids, after, archived_sum(archived), None) <= amount_sum(bids)) by (nonlinear_arith)
        requires
            residual_sum(bids, after, archived_sum(archived), None) * DECIMAL_FRACTIONAL <= k * amount_sum(bids),
            k <= DECIMAL_FRACTIONAL,
            amount_sum(bids) >= 0;
    assert(collateral_sum(bids, after, archived_sum(archived), None) <= c) by (nonlinear_arith)
        requires
            collateral_sum(bids, after, archived_sum(archived), None) * t <= c * amount_sum(bids),
            amount_sum(bids) <= t,
            c >= 0,
            t > 0;
}

proof fn lemma_amount_sum_nonneg(bids: Seq<BidView>)
    ensures
        amount_sum(bids) >= 0,
    decreases bids.len(),
{
    if bids.len() > 0 {
        lemma_amount_sum_nonneg(bids.drop_last());
    }
}

proof fn lemma_sums_bounded(pool: BidPool, fraction: Decimal, collateral_value: u128, bids: Seq<BidView>)
    requires
        pool.wf(),
        pool.consumed(fraction, collateral_value) is Ok,
        forall|i: int| 0 <= i < bids.len() ==> snapshots(#[trigger] bids[i], pool),
    ensures
        ({
            let (after, archived) = pool.consumed(fraction, collateral_value)->Ok_0;
            &&& residual_sum(bids, after, archived_sum(archived), None) * DECIMAL_FRACTIONAL <= (DECIMAL_FRACTIONAL
                - fraction.atoms) * amount_sum(bids)
            &&& collateral_sum(bids, after, archived_sum(archived), None) * pool.total_bid_amount <= collateral_value
                * amount_sum(bids)
        }),
    decreases bids.len(),
{
    if bids.len() > 0 {
        let (after, archived) = pool.consumed(fraction, collateral_value)->Ok_0;
        let rest = bids.drop_last();
        let bid = bids.last();
        assert(snapshots(bids[bids.len() - 1], pool));
        lemma_sums_bounded(pool, fraction, collateral_value, rest);
        lemma_bid_share(pool, fraction, collateral_value, bid);
        let k = DECIMAL_FRACTIONAL - fraction.atoms;
        let t = pool.total_bid_amount as int;
        let c = collateral_value as int;
        let (res, col) = match entitlement_of(bid, after, archived_sum(archived), None) {
            Ok(e) => (e.residual as int, e.collateral as int),
            Err(_) => (0int, 0int),
        };
        assert(bid.amount * k >= 0 && bid.amount * c >= 0) by (nonlinear_arith)
            requires k >= 0, c >= 0;
        assert(res * DECIMAL_FRACTIONAL <= bid.amount * k);
        assert(col * t <= bid.amount * c);
        assert(residual_sum(bids, after, archived_sum(archived), None) == residual_sum(rest, after, archived_sum(archived), None) + res);
        assert(collateral_sum(bids, after, archived_sum(archived), None) == collateral_sum(rest, after, archived_sum(archived), None) + col);
        assert(amount_sum(bids) == amount_sum(rest) + bid.amount);
        assert(residual_sum(bids, after, archived_sum(archived), None) * DECIMAL_FRACTIONAL <= k * amount_sum(bids)) by (nonlinear_arith)
            requires
                residual_sum(rest, after, archived_sum(archived), None) * DECIMAL_FRACTIONAL <= k * amount_sum(rest),
                res * DECIMAL_FRACTIONAL <= bid.amount * k,
                residual_sum(bids, after, archived_sum(archived), None) == residual_sum(rest, after, archived_sum(archived), None) + res,
                amount_sum(bids) == amount_sum(rest) + bid.amount;
        assert(collateral_sum(bids, after, archived_sum(archived), None) * t <= c * amount_sum(bids)) by (nonlinear_arith)
            requires
                collateral_sum(rest, after, archived_sum(archived), None) * t <= c * amount_sum(rest),
                col * t <= bid.amount * c,
                collateral_sum(bids, after, archived_sum(archived), None) == collateral_sum(rest, after, archived_sum(archived), None) + col,
                amount_sum(bids) == amount_sum(rest) + bid.amount;
    }
}

/// The archived sum for `scale` after a liquidation that archived
/// `archived`: the new one where it is for that scale, else `before`.
pub open spec fn archive_after(before: Option<Decimal>, archived: Option<ArchivedSum>, scale: int) -> Option<Decimal> {
    match archived {
        Some(a) => if a.scale == scale {
            Some(a.sum)
        } else {
            before
        },
        None => before,
    }
}

proof fn lemma_share_grows(amount: int, x: int, y: int, p0: int, div: int)
    requires
        amount >= 0,
        0 <= x <= y,
        p0 > 0,
        div > 0,
    ensures
        mul_div(amount, x, p0) / div <= mul_div(amount, y, p0) / div,
{
    assert(amount * x <= amount * y) by (nonlinear_arith)
        requires amount >= 0, x <= y;
    vstd::arithmetic::div_mod::lemma_div_is_ordered(amount * x, amount * y, p0);
    vstd::arithmetic::div_mod::lemma_div_is_ordered(mul_div(amount, x, p0), mul_div(amount, y, p0), div);
}

/// Within its epoch a liquidation never takes collateral from a bid: read
/// against the pool and the sums archived for the bid's epoch, before the
/// liquidation and after it (with the sum it archived), the bid's collateral
/// does not fall. Only scales the pool has left hold an archived sum.
pub proof fn lemma_collateral_never_shrinks(
    pool: BidPool,
    fraction: Decimal,
    collateral_value: u128,
    bid: BidView,
    at_scale: Option<Decimal>,
    next_scale: Option<Decimal>,
)
    requires
        bid.epoch_snapshot == pool.current_epoch,
        bid.scale_snapshot <= pool.current_scale,
        bid.scale_snapshot == pool.current_scale ==> at_scale is None,
        bid.scale_snapshot + 1 >= pool.current_scale ==> next_scale is None,
        pool.consumed(fraction, collateral_value) is Ok,
    ensures
        ({
            let (after, archived) = pool.consumed(fraction, collateral_value)->Ok_0;
            let before_e = entitlement_of(bid, pool, at_scale, next_scale);
            let after_e = entitlement_of(
                bid,
                after,
                archive_after(at_scale, archived, bid.scale_snapshot as int),
                archive_after(next_scale, archived, bid.scale_snapshot + 1),
            );
            before_e is Ok && after_e is Ok ==> before_e->Ok_0.collateral <= after_e->Ok_0.collateral
        }),
{
    let (after, archived) = pool.consumed(fraction, collateral_value)->Ok_0;
    let at2 = archive_after(at_scale, archived, bid.scale_snapshot as int);
    let next2 = archive_after(next_scale, archived, bid.scale_snapshot + 1);
    let (f1, s1) = sums_for(bid, pool, at_scale, next_scale);
    let (f2, s2) = sums_for(bid, after, at2, next2);
    let one = DECIMAL_FRACTIONAL as int;
    let t = pool.total_bid_amount as int;
    let c = collateral_value as int;
    let g = mul_div(c, one, t);
    let p = pool.product_snapshot.atoms as int;
    assert(t > 0);
    lemma_mul_div_le(c, one, t);
    lemma_mul_div_le(g, p, one);
    let sum = pool.sum_snapshot.atoms + mul_div(g, p, one);
    assert(sum >= pool.sum_snapshot.atoms);
    if entitlement_of(bid, pool, at_scale, next_scale) is Ok && entitlement_of(bid, after, at2, next2) is Ok {
        assert(archived is Some ==> archived->0.sum.atoms == sum && archived->0.scale == pool.current_scale);
        let x1 = f1->0.atoms - bid.sum_snapshot.atoms;
        let x2 = f2->0.atoms - bid.sum_snapshot.atoms;
        assert(f1 is Some && f2 is Some);
        assert(0 <= x1 <= x2);
        assert(0 <= s1 <= s2);
        let a = bid.amount as int;
        let p0 = bid.product_snapshot.atoms as int;
        lemma_share_grows(a, x1, x2, p0, 1);
        lemma_share_grows(a, s1, s2, p0, SCALE_FACTOR as int);
        assert(mul_div(a, x1, p0) / 1 == mul_div(a, x1, p0));
        assert(mul_div(a, x2, p0) / 1 == mul_div(a, x2, p0));
    }
}

/// The product the pool holds, in the bid's scale, is at most the bid's
/// product snapshot, or the pool has left the bid's epoch.
pub open spec fn share_kept(bid: BidView, pool: BidPool) -> bool {
    ||| bid.epoch_snapshot < pool.current_epoch
    ||| {
        &&& bid.epoch_snapshot == pool.current_epoch
        &&& bid.scale_snapshot <= pool.current_scale
        &&& pool.product_snapshot.atoms <= bid.product_snapshot.atoms * scale_pow(
            (pool.current_scale - bid.scale_snapshot) as nat,
        )
    }
}

proof fn lemma_share_kept_step(bid: BidView, pool: BidPool, event: PoolEvent)
    requires
        share_kept(bid, pool),
    ensures
        share_kept(bid, replay(pool, seq![event])),
{
    let events = seq![event];
    assert(events.drop_last() =~= Seq::<PoolEvent>::empty());
    assert(replay(pool, events.drop_last()) == pool);
    match event {
        PoolEvent::Deposit { amount } => {},
        PoolEvent::Liquidation { fraction, collateral_value } => {
            if pool.consumed(fraction, collateral_value) is Ok && bid.epoch_snapshot == pool.current_epoch {
                let after = pool.consumed(fraction, collateral_value)->Ok_0.0;
                let one = DECIMAL_FRACTIONAL as int;
                let f = fraction.atoms as int;
                let p = pool.product_snapshot.atoms as int;
                let k = one - f;
                let product = p * k;
                let d = (pool.current_scale - bid.scale_snapshot) as nat;
                let bound = bid.product_snapshot.atoms * scale_pow(d);
                assert(0 <= k <= one);
                assert(0 <= product <= p * one) by (nonlinear_arith)
                    requires product == p * k, 0 <= k <= one, p >= 0;
                let kept = product / one;
                assert(0 <= kept <= p) by (nonlinear_arith)
                    requires kept == product / one, 0 <= product <= p * one, one > 0;
                if f == one {
                } else if kept < crate::pool::PRODUCT_FLOOR {
                    let r = kept * SCALE_FACTOR;
                    assert(after.current_scale == pool.current_scale + 1);
                    assert(r <= u128::MAX) by (nonlinear_arith)
                        requires kept < crate::pool::PRODUCT_FLOOR, r == kept * SCALE_FACTOR, kept >= 0;
                    assert(after.product_snapshot.atoms == r);
                    assert(((after.current_scale - bid.scale_snapshot) as nat) == d + 1);
                    assert(scale_pow(d + 1) == SCALE_FACTOR * scale_pow(d));
                    assert(r <= p * SCALE_FACTOR) by (nonlinear_arith)
                        requires r == kept * SCALE_FACTOR, kept <= p;
                    assert(p * SCALE_FACTOR <= bound * SCALE_FACTOR) by (nonlinear_arith)
                        requires p <= bound;
                    assert(bound * SCALE_FACTOR == bid.product_snapshot.atoms * scale_pow(d + 1)) by (nonlinear_arith)
                        requires bound == bid.product_snapshot.atoms * scale_pow(d), scale_pow(d + 1) == SCALE_FACTOR
                            * scale_pow(d);
                } else {
                    assert(after.product_snapshot.atoms == kept);
                }
            }
        },
    }
}

proof fn lemma_share_kept(bid: BidView, pool: BidPool, events: Seq<PoolEvent>)
    requires
        share_kept(bid, pool),
    ensures
        share_kept(bid, replay(pool, events)),
    decreases events.len(),
{
    if events.len() > 0 {
        let before = replay(pool, events.drop_last());
        lemma_share_kept(bid, pool, events.drop_last());
        lemma_share_kept_step(bid, before, events.last());
        let one = seq![events.last()];
        assert(one.drop_last() =~= Seq::<PoolEvent>::empty());
        assert(one.last() == events.last());
        assert(replay(before, Seq::<PoolEvent>::empty()) == before);
        assert(replay(before, one.drop_last()) == before);
        assert(replay(pool, events.drop_last()) == before);
        assert(replay(before, one) == replay(pool, events));
    }
}

/// However deposits and liquidations follow one another on a pool, a bid
/// made against it never has more stable amount left than it deposited, so
/// the bids' residuals never add up to more than the capital deposited.
pub proof fn lemma_residual_never_exceeds_amount(
    pool: BidPool,
    bid: BidView,
    events: Seq<PoolEvent>,
    at_scale: Option<Decimal>,
    next_scale: Option<Decimal>,
)
    requires
        bid.product_snapshot == pool.product_snapshot,
        bid.epoch_snapshot == pool.current_epoch,
        bid.scale_snapshot == pool.current_scale,
    ensures
        entitlement_of(bid, replay(pool, events), at_scale, next_scale) is Ok ==> entitlement_of(
            bid,
            replay(pool, events),
            at_scale,
            next_scale,
        )->Ok_0.residual <= bid.amount,
{
    assert(scale_pow(0) == 1);
    assert(pool.product_snapshot.atoms <= bid.product_snapshot.atoms * scale_pow(0));
    lemma_share_kept(bid, pool, events);
    let now = replay(pool, events);
    if entitlement_of(bid, now, at_scale, next_scale) is Ok && bid.epoch_snapshot == now.current_epoch {
        let a = bid.amount as int;
        let p0 = bid.product_snapshot.atoms as int;
        let p = now.product_snapshot.atoms as int;
        let d = (now.current_scale - bid.scale_snapshot) as nat;
        let sp = scale_pow(d) as int;
        lemma_scale_pow_positive(d);
        let q = mul_div(a, p, p0);
        lemma_mul_div_le(a, p, p0);
        assert(q <= a * sp) by (nonlinear_arith)
            requires q * p0 <= a * p, p <= p0 * sp, p0 > 0, a >= 0;
        assert(q / sp <= a) by (nonlinear_arith)
            requires q <= a * sp, sp > 0, q >= 0;
    }
}

proof fn lemma_scale_pow_positive(d: nat)
    ensures
        scale_pow(d) >= 1,
    decreases d,
{
    if d > 0 {
        lemma_scale_pow_positive((d - 1) as nat);
        assert(scale_pow(d) == SCALE_FACTOR * scale_pow((d - 1) as nat));
    }
}

impl Bid {
    /// A bid of `amount` that snapshots `pool` as it stands.
    pub fn new(
        idx: u128,
        collateral_token: &Vec<u8>,
        premium_slot: u8,
        bidder: &Vec<u8>,
        amount: u128,
        wait_end: Option<u64>,
        pool: &BidPool,
    ) -> (r: Bid)
        ensures
            r@ == (BidView {
                idx,
                collateral_token: collateral_token@,
                premium_slot,
                bidder: bidder@,
                amount,
                product_snapshot: pool.product_snapshot,
                sum_snapshot: pool.sum_snapshot,
                pending_liquidated_collateral: 0,
                wait_end,
                epoch_snapshot: pool.current_epoch,
                scale_snapshot: pool.current_scale,
            }),
    {
        Bid {
            idx,
            collateral_token: copy_bytes(collateral_token),
            premium_slot,
            bidder: copy_bytes(bidder),
            amount,
            product_snapshot: pool.product_snapshot,
            sum_snapshot: pool.sum_snapshot,
            pending_liquidated_collateral: 0,
            wait_end,
            epoch_snapshot: pool.current_epoch,
            scale_snapshot: pool.current_scale,
        }
    }

    /// A copy of the bid.
    pub fn duplicate(&self) -> (r: Bid)
        ensures
            r@ == self@,
    {
        Bid {
            idx: self.idx,
            collateral_token: copy_bytes(&self.collateral_token),
            premium_slot: self.premium_slot,
            bidder: copy_bytes(&self.bidder),
            amount: self.amount,
            product_snapshot: self.product_snapshot,
            sum_snapshot: self.sum_snapshot,
            pending_liquidated_collateral: self.pending_liquidated_collateral,
            wait_end: self.wait_end,
            epoch_snapshot: self.epoch_snapshot,
            scale_snapshot: self.scale_snapshot,
        }
    }

    /// The bid's entitlement against `pool`, its pool's live state, and the
    /// sums archived for the bid's epoch at its scale and at the next.
    pub fn entitlement(&self, pool: &BidPool, at_scale: Option<Decimal>, next_scale: Option<Decimal>) -> (r:
        Result<Entitlement, QueueError>)
        ensures
            r == entitlement_of(self@, *pool, at_scale, next_scale),
    {
        let amount = self.amount;
        let p0 = self.product_snapshot.atoms;
        let s0 = self.sum_snapshot.atoms;
        let live = self.epoch_snapshot == pool.current_epoch;
        if p0 == 0 || self.epoch_snapshot > pool.current_epoch || (live && self.scale_snapshot
            > pool.current_scale) {
            return Err(QueueError::StaleSnapshot);
        }
        let same_scale = live && self.scale_snapshot == pool.current_scale;
        let first = if same_scale {
            pool.sum_snapshot
        } else {
            match at_scale {
                Some(s) => s,
                None => return Err(QueueError::EpochScaleSumNotFound),
            }
        };
        let second: u128 = if same_scale {
            0
        } else if live && self.scale_snapshot + 1 == pool.current_scale {
            pool.sum_snapshot.atoms
        } else {
            match next_scale {
                Some(s) => s.atoms,
                None => 0,
            }
        };
        if s0 > first.atoms {
            return Err(QueueError::StaleSnapshot);
        }
        let residual = if live {
            match checked_mul_div(amount, pool.product_snapshot.atoms, p0) {
                Some(x) => div_scale_pow(x, pool.current_scale - self.scale_snapshot),
                None => return Err(QueueError::Overflow),
            }
        } else {
            0
        };
        let gain = match checked_mul_div(amount, first.atoms - s0, p0) {
            Some(x) => x,
            None => return Err(QueueError::Overflow),
        };
        let later = match checked_mul_div(amount, second, p0) {
            Some(x) => x / SCALE_FACTOR,
            None => return Err(QueueError::Overflow),
        };
        match self.pending_liquidated_collateral.checked_add(gain) {
            Some(c) => match c.checked_add(later) {
                Some(collateral) => Ok(Entitlement { residual, collateral }),
                None => Err(QueueError::Overflow),
            },
            None => Err(QueueError::Overflow),
        }
    }
}

} // verus!
