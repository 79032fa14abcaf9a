//! Byte encodings of the ledger's keys: 16-byte big-endian integers, one
//! byte per premium slot, and length-prefixed address namespaces.
use crate::cursor::{lemma_lex_irreflexive, lemma_lex_push_pair, lex_lt};
use crate::error::QueueError;
use vstd::arithmetic::div_mod::{lemma_breakdown, lemma_fundamental_div_mod, lemma_small_mod};
use vstd::prelude::*;

verus! {

/// Width of an encoded bid index.
pub const INDEX_KEY_LEN: usize = 16;

/// `256^n`.
pub open spec fn pow256(n: nat) -> nat
    decreases n,
{
    if n == 0 {
        1
    } else {
        256 * pow256((n - 1) as nat)
    }
}

/// The number a big-endian byte string stands for.
pub open spec fn be_value(s: Seq<u8>) -> nat
    decreases s.len(),
{
    if s.len() == 0 {
        0
    } else {
        be_value(s.drop_last()) * 256 + s.last() as nat
    }
}

/// The last `n` bytes of the big-endian encoding of `x`.
pub open spec fn be_bytes(x: nat, n: nat) -> Seq<u8>
    decreases n,
{
    if n == 0 {
        Seq::empty()
    } else {
        be_bytes(x / 256, (n - 1) as nat).push((x % 256) as u8)
    }
}

/// The key of a bid index.
pub open spec fn index_key(x: u128) -> Seq<u8> {
    be_bytes(x as nat, 16)
}

/// An address as a key namespace: its length, then its bytes.
pub open spec fn namespace(addr: Seq<u8>) -> Seq<u8> {
    be_bytes(addr.len(), 16) + addr
}

/// The key of the bid pool of `collateral` at `premium_slot`.
pub open spec fn pool_key(collateral: Seq<u8>, premium_slot: u8) -> Seq<u8> {
    namespace(collateral).push(premium_slot)
}

/// The key of the sum archived for a pool at `epoch` and `scale`.
pub open spec fn epoch_scale_key(collateral: Seq<u8>, premium_slot: u8, epoch: u128, scale: u128) -> Seq<u8> {
    pool_key(collateral, premium_slot) + index_key(epoch) + index_key(scale)
}

/// The prefix of the keys under which a bidder's bids on a collateral are
/// listed.
pub open spec fn user_prefix(collateral: Seq<u8>, bidder: Seq<u8>) -> Seq<u8> {
    namespace(collateral) + namespace(bidder)
}

proof fn lemma_be_bytes_len(x: nat, n: nat)
    ensures
        be_bytes(x, n).len() == n,
    decreases n,
{
    if n > 0 {
        lemma_be_bytes_len(x / 256, (n - 1) as nat);
    }
}

/// Every bid index key is 16 bytes wide.
pub proof fn lemma_index_key_len(x: u128)
    ensures
        index_key(x).len() == INDEX_KEY_LEN,
{
    lemma_be_bytes_len(x as nat, 16);
}

/// A listing key ends in the bid's index key, so two listing keys of
/// different bids differ.
pub proof fn lemma_listing_suffix(p1: Seq<u8>, k1: Seq<u8>, p2: Seq<u8>, k2: Seq<u8>)
    requires
        k1.len() == INDEX_KEY_LEN,
        k2.len() == INDEX_KEY_LEN,
        p1 + k1 == p2 + k2,
    ensures
        k1 == k2,
{
    let a = p1 + k1;
    assert(a.subrange(a.len() - 16, a.len() as int) =~= k1);
    assert((p2 + k2).subrange(a.len() - 16, a.len() as int) =~= k2);
}

/// The first key after the bid index `start_after`: its key followed by 1.
pub fn calc_range_start_idx(start_after: Option<u128>) -> (r: Option<Vec<u8>>)
    ensures
        match start_after {
            Some(idx) => r is Some && r->0@ == index_key(idx).push(1u8),
            None => r is None,
        },
{
    match start_after {
        Some(idx) => {
            let mut v = u128_key(idx);
            v.push(1);
            Some(v)
        },
        None => None,
    }
}

/// The bytes of `v` from position `from` on.
pub fn tail_bytes(v: &Vec<u8>, from: usize) -> (r: Vec<u8>)
    requires
        from <= v@.len(),
    ensures
        r@ == v@.subrange(from as int, v@.len() as int),
{
    let mut r: Vec<u8> = Vec::new();
    let mut i: usize = from;
    while i < v.len()
        invariant
            from <= i <= v@.len(),
            r@ == v@.subrange(from as int, i as int),
        decreases v.len() - i,
    {
        r.push(v[i]);
        i = i + 1;
        proof {
            assert(r@ =~= v@.subrange(from as int, i as int));
        }
    }
    r
}

/// Appends `b` to `a`.
pub fn append_bytes(a: &mut Vec<u8>, b: &Vec<u8>)
    ensures
        final(a)@ == old(a)@ + b@,
{
    let mut i: usize = 0;
    while i < b.len()
        invariant
            i <= b.len(),
            a@ == old(a)@ + b@.subrange(0, i as int),
        decreases b.len() - i,
    {
        a.push(b[i]);
        i = i + 1;
        proof {
            assert(a@ =~= old(a)@ + b@.subrange(0, i as int));
        }
    }
    proof {
        assert(b@.subrange(0, b@.len() as int) =~= b@);
    }
}

/// A copy of `v`.
pub fn copy_bytes(v: &Vec<u8>) -> (r: Vec<u8>)
    ensures
        r@ == v@,
{
    let mut r: Vec<u8> = Vec::new();
    append_bytes(&mut r, v);
    proof {
        assert(Seq::<u8>::empty() + v@ =~= v@);
    }
    r
}

pub fn namespace_key(addr: &Vec<u8>) -> (r: Vec<u8>)
    ensures
        r@ == namespace(addr@),
{
    let mut r = u128_key(addr.len() as u128);
    append_bytes(&mut r, addr);
    r
}

pub fn pool_key_of(collateral: &Vec<u8>, premium_slot: u8) -> (r: Vec<u8>)
    ensures
        r@ == pool_key(collateral@, premium_slot),
{
    let mut r = namespace_key(collateral);
    r.push(premium_slot);
    r
}

pub fn epoch_scale_key_of(collateral: &Vec<u8>, premium_slot: u8, epoch: u128, scale: u128) -> (r: Vec<u8>)
    ensures
        r@ == epoch_scale_key(collateral@, premium_slot, epoch, scale),
{
    let mut r = pool_key_of(collateral, premium_slot);
    append_bytes(&mut r, &u128_key(epoch));
    append_bytes(&mut r, &u128_key(scale));
    r
}

pub fn user_prefix_of(collateral: &Vec<u8>, bidder: &Vec<u8>) -> (r: Vec<u8>)
    ensures
        r@ == user_prefix(collateral@, bidder@),
{
    let mut r = namespace_key(collateral);
    append_bytes(&mut r, &namespace_key(bidder));
    r
}

proof fn lemma_pow256_16()
    ensures
        pow256(16) == u128::MAX + 1,
{
    assert(pow256(0) == 1);
    assert(pow256(1) == 256);
    assert(pow256(2) == 65536);
    assert(pow256(3) == 16777216);
    assert(pow256(4) == 4294967296);
    assert(pow256(5) == 1099511627776);
    assert(pow256(6) == 281474976710656);
    assert(pow256(7) == 72057594037927936);
    assert(pow256(8) == 18446744073709551616);
    assert(pow256(9) == 4722366482869645213696);
    assert(pow256(10) == 1208925819614629174706176);
    assert(pow256(11) == 309485009821345068724781056);
    assert(pow256(12) == 79228162514264337593543950336);
    assert(pow256(13) == 20282409603651670423947251286016);
    assert(pow256(14) == 5192296858534827628530496329220096);
    assert(pow256(15) == 1329227995784915872903807060280344576);
    assert(pow256(16) == 340282366920938463463374607431768211456);
}

proof fn lemma_be_value_bound(s: Seq<u8>)
    ensures
        be_value(s) < pow256(s.len()),
    decreases s.len(),
{
    if s.len() > 0 {
        let t = s.drop_last();
        lemma_be_value_bound(t);
        let v = be_value(t);
        let p = pow256(t.len());
        assert(v * 256 + s.last() < 256 * p) by (nonlinear_arith)
            requires v < p, s.last() < 256;
    }
}

proof fn lemma_be_value_prepend(b: u8, t: Seq<u8>)
    ensures
        be_value(seq![b] + t) == b * pow256(t.len()) + be_value(t),
    decreases t.len(),
{
    let s = seq![b] + t;
    assert(s.last() == if t.len() == 0 { b } else { t.last() });
    if t.len() == 0 {
        assert(s.drop_last() =~= Seq::<u8>::empty());
        assert(be_value(Seq::<u8>::empty()) == 0);
        assert(pow256(0) == 1);
    } else {
        assert(s.drop_last() =~= seq![b] + t.drop_last());
        lemma_be_value_prepend(b, t.drop_last());
        let p = pow256(t.drop_last().len());
        let v = be_value(t.drop_last());
        assert(pow256(t.len()) == 256 * p);
        assert(be_value(t) == v * 256 + t.last());
        assert((b * p + v) * 256 + t.last() == b * (256 * p) + (v * 256 + t.last())) by (nonlinear_arith);
    }
}

/// The 16-byte big-endian key of a bid index.
pub fn u128_key(x: u128) -> (r: Vec<u8>)
    ensures
        r@ == index_key(x),
        r@.len() == INDEX_KEY_LEN,
        be_value(r@) == x,
{
    let mut out: Vec<u8> = vec![0u8; 16];
    let mut v: u128 = x;
    let mut i: usize = 16;
    proof {
        assert(out@.subrange(16, 16) =~= Seq::<u8>::empty());
        assert(be_value(Seq::<u8>::empty()) == 0);
        assert(pow256(0) == 1);
        assert(out@.len() == 16);
        assert(v * pow256(0) == v);
        assert(x == v * pow256((16 - i) as nat) + be_value(out@.subrange(i as int, 16)));
        assert(be_bytes(x as nat, 16) =~= be_bytes(x as nat, 16) + out@.subrange(16, 16));
    }
    while i > 0
        invariant
            i <= 16,
            out@.len() == 16,
            x == v * pow256((16 - i) as nat) + be_value(out@.subrange(i as int, 16)),
            be_bytes(x as nat, 16) == be_bytes(v as nat, i as nat) + out@.subrange(i as int, 16),
        decreases i,
    {
        let ghost tail = out@.subrange(i as int, 16);
        let ghost old_v = v;
        i = i - 1;
        out.set(i, (v % 256) as u8);
        v = v / 256;
        proof {
            assert(out@.subrange(i as int, 16) =~= seq![(old_v % 256) as u8] + tail);
            assert(be_bytes(old_v as nat, (i + 1) as nat) == be_bytes(v as nat, i as nat).push((old_v % 256) as u8));
            assert(be_bytes(v as nat, i as nat).push((old_v % 256) as u8) + tail =~= be_bytes(v as nat, i as nat) + out@.subrange(i as int, 16));
            lemma_be_value_prepend((old_v % 256) as u8, tail);
            let p = pow256((15 - i) as nat);
            lemma_fundamental_div_mod(old_v as int, 256);
            assert(old_v * p == v * (256 * p) + (old_v % 256) * p) by (nonlinear_arith)
                requires old_v == 256 * v + old_v % 256;
        }
    }
    proof {
        lemma_pow256_16();
        lemma_be_value_bound(out@);
        assert(out@.subrange(0, 16) =~= out@);
        assert(be_bytes(v as nat, 0) + out@ =~= out@);
        assert(v == 0) by (nonlinear_arith)
            requires x == v * pow256(16) + be_value(out@), pow256(16) == u128::MAX + 1, x <= u128::MAX;
    }
    out
}

/// The bid index a key read back from a range scan stands for; a key that is
/// not exactly 16 bytes wide is corrupted.
pub fn bytes_to_u128(data: &[u8]) -> (r: Result<u128, QueueError>)
    ensures
        data@.len() == INDEX_KEY_LEN ==> r == Ok::<u128, QueueError>(be_value(data@) as u128),
        data@.len() != INDEX_KEY_LEN ==> r == Err::<u128, QueueError>(QueueError::CorruptedKey),
{
    if data.len() != INDEX_KEY_LEN {
        return Err(QueueError::CorruptedKey);
    }
    let mut v: u128 = 0;
    let mut i: usize = 0;
    proof {
        assert(data@.take(0) =~= Seq::<u8>::empty());
        assert(be_value(Seq::<u8>::empty()) == 0);
    }
    while i < 16
        invariant
            i <= 16,
            data@.len() == 16,
            v == be_value(data@.take(i as int)),
        decreases 16 - i,
    {
        proof {
            lemma_be_value_bound(data@.take(i + 1));
            lemma_pow256_16();
            assert(data@.take(i + 1).drop_last() =~= data@.take(i as int));
            assert(pow256((i + 1) as nat) <= pow256(16)) by {
                lemma_pow256_grows((i + 1) as nat, 16);
            }
        }
        v = v * 256 + data[i] as u128;
        i = i + 1;
    }
    proof {
        assert(data@.take(16) =~= data@);
    }
    Ok(v)
}

proof fn lemma_pow256_grows(a: nat, b: nat)
    requires
        a <= b,
    ensures
        pow256(a) <= pow256(b),
    decreases b,
{
    if a < b {
        lemma_pow256_grows(a, (b - 1) as nat);
    }
}

proof fn lemma_be_value_of_bytes(x: nat, n: nat)
    ensures
        be_value(be_bytes(x, n)) == x % pow256(n),
    decreases n,
{
    if n == 0 {
        assert(x % 1 == 0);
    } else {
        let t = be_bytes(x / 256, (n - 1) as nat);
        let s = be_bytes(x, n);
        assert(s.drop_last() =~= t);
        lemma_be_value_of_bytes(x / 256, (n - 1) as nat);
        lemma_pow256_grows(0, (n - 1) as nat);
        assert(pow256(0) == 1);
        lemma_breakdown(x as int, 256, pow256((n - 1) as nat) as int);
    }
}

/// A pool key that starts with the namespace of `collateral` is a pool key
/// of `collateral`: namespaces are length-prefixed, so none extends another.
pub proof fn lemma_pool_key_in_namespace(collateral: Seq<u8>, other: Seq<u8>, premium_slot: u8)
    requires
        collateral.len() <= usize::MAX,
        other.len() <= usize::MAX,
        namespace(collateral).is_prefix_of(pool_key(other, premium_slot)),
    ensures
        other == collateral,
{
    let key = pool_key(other, premium_slot);
    let n1 = be_bytes(collateral.len(), 16);
    let n2 = be_bytes(other.len(), 16);
    lemma_be_bytes_len(collateral.len(), 16);
    lemma_be_bytes_len(other.len(), 16);
    let ns = namespace(collateral);
    assert(ns =~= key.subrange(0, ns.len() as int));
    assert(n1 =~= ns.subrange(0, 16));
    assert(collateral =~= ns.subrange(16, ns.len() as int));
    assert(n1 =~= key.subrange(0, 16));
    assert(n2 =~= key.subrange(0, 16));
    lemma_be_value_of_bytes(collateral.len(), 16);
    lemma_be_value_of_bytes(other.len(), 16);
    lemma_pow256_16();
    assert(usize::MAX < pow256(16));
    lemma_small_mod(collateral.len(), pow256(16));
    lemma_small_mod(other.len(), pow256(16));
    assert(collateral.len() == other.len());
    assert(collateral =~= key.subrange(16, 16 + collateral.len() as int));
    assert(other =~= key.subrange(16, 16 + other.len() as int));
}

proof fn lemma_be_bytes_order(x: nat, y: nat, n: nat)
    requires
        x < pow256(n),
        y < pow256(n),
    ensures
        lex_lt(be_bytes(x, n), be_bytes(y, n)) == (x < y),
    decreases n,
{
    if n == 0 {
        assert(x == 0 && y == 0);
        lemma_lex_irreflexive(Seq::<u8>::empty());
    } else {
        let m = (n - 1) as nat;
        let pm = pow256(m);
        let xq = x / 256;
        let yq = y / 256;
        let xr = x % 256;
        let yr = y % 256;
        lemma_fundamental_div_mod(x as int, 256);
        lemma_fundamental_div_mod(y as int, 256);
        assert(xq < pm && yq < pm) by (nonlinear_arith)
            requires x == 256 * xq + xr, y == 256 * yq + yr, 0 <= xr, 0 <= yr, x < 256 * pm, y < 256 * pm;
        lemma_be_bytes_order(xq, yq, m);
        lemma_be_bytes_len(xq, m);
        lemma_be_bytes_len(yq, m);
        lemma_pow256_grows(0, m);
        assert(pow256(0) == 1);
        lemma_be_value_of_bytes(xq, m);
        lemma_be_value_of_bytes(yq, m);
        lemma_small_mod(xq, pm);
        lemma_small_mod(yq, pm);
        lemma_lex_push_pair(be_bytes(xq, m), be_bytes(yq, m), xr as u8, yr as u8);
        assert((x < y) == (xq < yq || (xq == yq && xr < yr))) by (nonlinear_arith)
            requires x == 256 * xq + xr, y == 256 * yq + yr, 0 <= xr < 256, 0 <= yr < 256;
    }
}

/// Index keys are ordered byte by byte as the indices are ordered.
pub proof fn lemma_index_key_order(x: u128, y: u128)
    ensures
        lex_lt(index_key(x), index_key(y)) == (x < y),
{
    lemma_pow256_16();
    lemma_be_bytes_order(x as nat, y as nat, 16);
}

/// Archive keys of one pool and epoch differ for different scales.
pub proof fn lemma_epoch_scale_key_injective(collateral: Seq<u8>, premium_slot: u8, epoch: u128, s1: u128, s2: u128)
    requires
        epoch_scale_key(collateral, premium_slot, epoch, s1) == epoch_scale_key(collateral, premium_slot, epoch, s2),
    ensures
        s1 == s2,
{
    let p = pool_key(collateral, premium_slot) + index_key(epoch);
    lemma_index_key_len(s1);
    lemma_index_key_len(s2);
    lemma_listing_suffix(p, index_key(s1), p, index_key(s2));
    lemma_index_key_round_trip(s1);
    lemma_index_key_round_trip(s2);
}

/// Decoding the key of a bid index gives the index back.
pub proof fn lemma_index_key_round_trip(x: u128)
    ensures
        index_key(x).len() == INDEX_KEY_LEN,
        be_value(index_key(x)) == x,
{
    lemma_be_bytes_len(x as nat, 16);
    lemma_be_value_of_bytes(x as nat, 16);
    lemma_pow256_16();
    lemma_small_mod(x as nat, pow256(16));
}

} // verus!
