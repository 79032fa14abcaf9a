//! Byte-key order, range cursors and page sizes.
//!
//! Keys are compared byte by byte, a proper prefix coming first. A cursor
//! `X` becomes the range start `X ++ [1]`: among keys as wide as `X`, those
//! at or after that start are exactly those after `X`.
use vstd::prelude::*;

verus! {

/// Largest page a range read returns.
pub const MAX_LIMIT: u8 = 30;

/// Page size when the caller names none.
pub const DEFAULT_LIMIT: u8 = 10;

/// `a` comes before `b`, comparing from position `i` on.
pub open spec fn lex_lt_from(a: Seq<u8>, b: Seq<u8>, i: int) -> bool
    decreases a.len() - i,
{
    if i >= a.len() {
        i < b.len()
    } else if i >= b.len() {
        false
    } else if a[i] != b[i] {
        a[i] < b[i]
    } else {
        lex_lt_from(a, b, i + 1)
    }
}

/// `a` comes before `b` in byte order.
pub open spec fn lex_lt(a: Seq<u8>, b: Seq<u8>) -> bool {
    lex_lt_from(a, b, 0)
}

proof fn lemma_lex_from_irreflexive(a: Seq<u8>, i: int)
    requires
        0 <= i,
    ensures
        !lex_lt_from(a, a, i),
    decreases a.len() - i,
{
    if i < a.len() {
        lemma_lex_from_irreflexive(a, i + 1);
    }
}

proof fn lemma_lex_from_total(a: Seq<u8>, b: Seq<u8>, i: int)
    requires
        0 <= i <= a.len(),
        i <= b.len(),
    ensures
        !(lex_lt_from(a, b, i) && lex_lt_from(b, a, i)),
        lex_lt_from(a, b, i) || lex_lt_from(b, a, i) || (a.len() == b.len() && forall|j: int|
            i <= j < a.len() ==> a[j] == b[j]),
    decreases a.len() - i,
{
    if i < a.len() && i < b.len() && a[i] == b[i] {
        lemma_lex_from_total(a, b, i + 1);
        if !lex_lt_from(a, b, i) && !lex_lt_from(b, a, i) {
            assert forall|j: int| i <= j < a.len() implies a[j] == b[j] by {
                if j > i {
                }
            }
        }
    }
}

proof fn lemma_lex_from_transitive(a: Seq<u8>, b: Seq<u8>, c: Seq<u8>, i: int)
    requires
        0 <= i,
        lex_lt_from(a, b, i),
        lex_lt_from(b, c, i),
    ensures
        lex_lt_from(a, c, i),
    decreases a.len() - i,
{
    if i < a.len() && a[i] == b[i] && b[i] == c[i] {
        lemma_lex_from_transitive(a, b, c, i + 1);
    }
}

/// Byte order is irreflexive.
pub proof fn lemma_lex_irreflexive(a: Seq<u8>)
    ensures
        !lex_lt(a, a),
{
    lemma_lex_from_irreflexive(a, 0);
}

/// Of two distinct byte strings exactly one comes first.
pub proof fn lemma_lex_total(a: Seq<u8>, b: Seq<u8>)
    ensures
        !(lex_lt(a, b) && lex_lt(b, a)),
        a != b ==> lex_lt(a, b) || lex_lt(b, a),
{
    lemma_lex_from_total(a, b, 0);
    if !lex_lt(a, b) && !lex_lt(b, a) {
        assert(a =~= b);
    }
}

/// Byte order is transitive.
pub proof fn lemma_lex_transitive(a: Seq<u8>, b: Seq<u8>, c: Seq<u8>)
    requires
        lex_lt(a, b),
        lex_lt(b, c),
    ensures
        lex_lt(a, c),
{
    lemma_lex_from_transitive(a, b, c, 0);
}

proof fn lemma_successor_from(x: Seq<u8>, k: Seq<u8>, i: int)
    requires
        0 <= i <= x.len(),
        k.len() == x.len(),
    ensures
        lex_lt_from(k, x.push(1u8), i) == !lex_lt_from(x, k, i),
    decreases x.len() - i,
{
    if i < x.len() {
        assert(x.push(1u8)[i] == x[i]);
        lemma_successor_from(x, k, i + 1);
    }
}

/// The range start made from cursor `x` comes before every key as wide as
/// `x` that comes after `x`, and after every other key as wide as `x`, `x`
/// itself among them.
pub proof fn lemma_range_start_successor(x: Seq<u8>, k: Seq<u8>)
    requires
        k.len() == x.len(),
    ensures
        !lex_lt(k, x.push(1u8)) <==> lex_lt(x, k),
        k != x.push(1u8),
{
    lemma_successor_from(x, k, 0);
}

/// Whether `a` comes before `b` in byte order.
pub fn lex_less(a: &Vec<u8>, b: &Vec<u8>) -> (r: bool)
    ensures
        r == lex_lt(a@, b@),
{
    let mut i: usize = 0;
    while i < a.len() && i < b.len() && a[i] == b[i]
        invariant
            i <= a.len(),
            i <= b.len(),
            lex_lt(a@, b@) == lex_lt_from(a@, b@, i as int),
        decreases a.len() - i,
    {
        i = i + 1;
    }
    if i == a.len() {
        i < b.len()
    } else if i == b.len() {
        false
    } else {
        a[i] < b[i]
    }
}

/// Whether `a` and `b` hold the same bytes.
pub fn bytes_equal(a: &Vec<u8>, b: &Vec<u8>) -> (r: bool)
    ensures
        r == (a@ == b@),
{
    if a.len() != b.len() {
        return false;
    }
    let mut i: usize = 0;
    while i < a.len()
        invariant
            i <= a.len(),
            a.len() == b.len(),
            forall|j: int| 0 <= j < i ==> a@[j] == b@[j],
        decreases a.len() - i,
    {
        if a[i] != b[i] {
            return false;
        }
        i = i + 1;
    }
    proof {
        assert(a@ =~= b@);
    }
    true
}

/// Whether `key` starts with `prefix`.
pub fn has_prefix(key: &Vec<u8>, prefix: &Vec<u8>) -> (r: bool)
    ensures
        r == prefix@.is_prefix_of(key@),
{
    if prefix.len() > key.len() {
        return false;
    }
    let mut i: usize = 0;
    while i < prefix.len()
        invariant
            i <= prefix.len() <= key.len(),
            forall|j: int| 0 <= j < i ==> prefix@[j] == key@[j],
        decreases prefix.len() - i,
    {
        if prefix[i] != key[i] {
            return false;
        }
        i = i + 1;
    }
    proof {
        assert(prefix@ =~= key@.subrange(0, prefix@.len() as int));
    }
    true
}

proof fn lemma_lex_push_from(p: Seq<u8>, a: u8, b: u8, i: int)
    requires
        0 <= i <= p.len(),
    ensures
        lex_lt_from(p.push(a), p.push(b), i) == (a < b),
    decreases p.len() - i,
{
    if i < p.len() {
        assert(p.push(a)[i] == p[i]);
        assert(p.push(b)[i] == p[i]);
        lemma_lex_push_from(p, a, b, i + 1);
    } else {
        assert(p.push(a)[i] == a);
        assert(p.push(b)[i] == b);
        assert(!lex_lt_from(p.push(a), p.push(b), i + 1));
    }
}

/// Two keys that share all bytes but the last are ordered by their last
/// byte.
pub proof fn lemma_lex_push(p: Seq<u8>, a: u8, b: u8)
    ensures
        lex_lt(p.push(a), p.push(b)) == (a < b),
{
    lemma_lex_push_from(p, a, b, 0);
}

proof fn lemma_lex_push_pair_from(a: Seq<u8>, b: Seq<u8>, u: u8, v: u8, i: int)
    requires
        a.len() == b.len(),
        0 <= i <= a.len(),
    ensures
        lex_lt_from(a.push(u), b.push(v), i) == (lex_lt_from(a, b, i) || (a.subrange(i, a.len() as int)
            == b.subrange(i, b.len() as int) && u < v)),
    decreases a.len() - i,
{
    assert(a.push(u).len() == a.len() + 1);
    if i < a.len() {
        assert(a.push(u)[i] == a[i]);
        assert(b.push(v)[i] == b[i]);
        lemma_lex_push_pair_from(a, b, u, v, i + 1);
        if a[i] != b[i] {
            assert(a.subrange(i, a.len() as int)[0] != b.subrange(i, b.len() as int)[0]);
        } else {
            assert(a.subrange(i, a.len() as int) =~= seq![a[i]] + a.subrange(i + 1, a.len() as int));
            assert(b.subrange(i, b.len() as int) =~= seq![b[i]] + b.subrange(i + 1, b.len() as int));
            if a.subrange(i + 1, a.len() as int) != b.subrange(i + 1, b.len() as int) {
                assert(a.subrange(i + 1, a.len() as int) =~= a.subrange(i, a.len() as int).subrange(
                    1,
                    a.len() - i,
                ));
                assert(b.subrange(i + 1, b.len() as int) =~= b.subrange(i, b.len() as int).subrange(
                    1,
                    b.len() - i,
                ));
                assert(a.subrange(i, a.len() as int) != b.subrange(i, b.len() as int));
            }
        }
    } else {
        assert(a.push(u)[i] == u);
        assert(b.push(v)[i] == v);
        assert(a.subrange(i, a.len() as int) =~= b.subrange(i, b.len() as int));
        assert(!lex_lt_from(a.push(u), b.push(v), i + 1));
    }
}

/// Two keys of one width, each followed by one more byte, are ordered by
/// the keys, and by the added bytes where the keys are equal.
pub proof fn lemma_lex_push_pair(a: Seq<u8>, b: Seq<u8>, u: u8, v: u8)
    requires
        a.len() == b.len(),
    ensures
        lex_lt(a.push(u), b.push(v)) == (lex_lt(a, b) || (a == b && u < v)),
{
    lemma_lex_push_pair_from(a, b, u, v, 0);
    assert(a.subrange(0, a.len() as int) =~= a);
    assert(b.subrange(0, b.len() as int) =~= b);
}

proof fn lemma_lex_common_prefix_from(p: Seq<u8>, a: Seq<u8>, b: Seq<u8>, i: int)
    requires
        0 <= i <= p.len(),
    ensures
        lex_lt_from(p + a, p + b, i) == lex_lt(a, b),
    decreases p.len() - i + a.len(),
{
    if i < p.len() {
        assert((p + a)[i] == p[i]);
        assert((p + b)[i] == p[i]);
        lemma_lex_common_prefix_from(p, a, b, i + 1);
    } else {
        lemma_lex_shift(p, a, b, 0);
    }
}

proof fn lemma_lex_shift(p: Seq<u8>, a: Seq<u8>, b: Seq<u8>, j: int)
    requires
        0 <= j,
    ensures
        lex_lt_from(p + a, p + b, p.len() + j) == lex_lt_from(a, b, j),
    decreases a.len() - j,
{
    if j < a.len() && j < b.len() {
        assert((p + a)[p.len() + j] == a[j]);
        assert((p + b)[p.len() + j] == b[j]);
        lemma_lex_shift(p, a, b, j + 1);
    } else if j < a.len() {
        assert((p + a)[p.len() + j] == a[j]);
    } else if j < b.len() {
    }
}

/// Keys that share a prefix are ordered as what follows it.
pub proof fn lemma_lex_common_prefix(p: Seq<u8>, a: Seq<u8>, b: Seq<u8>)
    ensures
        lex_lt(p + a, p + b) == lex_lt(a, b),
{
    lemma_lex_common_prefix_from(p, a, b, 0);
}

/// Page size for a requested `limit`: `DEFAULT_LIMIT` where none is given,
/// and never more than `MAX_LIMIT`.
pub open spec fn page_size(limit: Option<u8>) -> nat {
    let l = match limit {
        Some(l) => l,
        None => DEFAULT_LIMIT,
    };
    if l < MAX_LIMIT {
        l as nat
    } else {
        MAX_LIMIT as nat
    }
}

pub fn clamp_limit(limit: Option<u8>) -> (r: usize)
    ensures
        r == page_size(limit),
{
    let l = match limit {
        Some(l) => l,
        None => DEFAULT_LIMIT,
    };
    if l < MAX_LIMIT {
        l as usize
    } else {
        MAX_LIMIT as usize
    }
}

/// The first key after the slot `start_after`: its byte followed by 1.
pub fn calc_range_start(start_after: Option<u8>) -> (r: Option<Vec<u8>>)
    ensures
        match start_after {
            Some(id) => r is Some && r->0@ == seq![id, 1u8],
            None => r is None,
        },
{
    match start_after {
        Some(id) => {
            let mut v: Vec<u8> = Vec::new();
            v.push(id);
            v.push(1);
            proof {
                assert(v@ =~= seq![id, 1u8]);
            }
            Some(v)
        },
        None => None,
    }
}

} // verus!
