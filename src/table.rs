//! An ordered table from byte-string keys to values, kept sorted by byte
//! order, with point reads and writes and ordered positions for range reads.
use crate::cursor::{
    bytes_equal, has_prefix, lemma_lex_irreflexive, lemma_lex_total, lemma_lex_transitive,
    lemma_range_start_successor, lex_less, lex_lt,
};
use vstd::prelude::*;

verus! {

/// `key` lies in the range of keys that start with `prefix` and do not come
/// before `start`.
pub open spec fn in_range(key: Seq<u8>, prefix: Seq<u8>, start: Seq<u8>) -> bool {
    prefix.is_prefix_of(key) && !lex_lt(key, start)
}

/// The first `limit` positions from `i` on whose keys lie in the range, in
/// table order.
pub open spec fn selected_from(
    keys: Seq<Seq<u8>>,
    prefix: Seq<u8>,
    start: Seq<u8>,
    i: int,
    limit: nat,
) -> Seq<int>
    decreases keys.len() - i,
{
    if i < 0 || i >= keys.len() || limit == 0 {
        Seq::empty()
    } else if in_range(keys[i], prefix, start) {
        seq![i] + selected_from(keys, prefix, start, i + 1, (limit - 1) as nat)
    } else {
        selected_from(keys, prefix, start, i + 1, limit)
    }
}

/// The keys ascend strictly in byte order.
pub open spec fn ascending(keys: Seq<Seq<u8>>) -> bool {
    forall|i: int, j: int| 0 <= i < j < keys.len() ==> lex_lt(#[trigger] keys[i], #[trigger] keys[j])
}

proof fn lemma_selected_shape(keys: Seq<Seq<u8>>, prefix: Seq<u8>, start: Seq<u8>, i: int, limit: nat)
    requires
        0 <= i,
    ensures
        ({
            let sel = selected_from(keys, prefix, start, i, limit);
            &&& sel.len() <= limit
            &&& forall|j: int|
                0 <= j < sel.len() ==> i <= #[trigger] sel[j] < keys.len() && in_range(
                    keys[sel[j]],
                    prefix,
                    start,
                )
            &&& forall|j1: int, j2: int| 0 <= j1 < j2 < sel.len() ==> #[trigger] sel[j1] < #[trigger] sel[j2]
            &&& sel.len() > 0 ==> forall|m: int| i <= m < sel[0] ==> !in_range(#[trigger] keys[m], prefix, start)
            &&& (limit > 0 && sel.len() == 0) ==> forall|m: int|
                i <= m < keys.len() ==> !in_range(#[trigger] keys[m], prefix, start)
        }),
    decreases keys.len() - i,
{
    if i < keys.len() && limit > 0 {
        if in_range(keys[i], prefix, start) {
            lemma_selected_shape(keys, prefix, start, i + 1, (limit - 1) as nat);
        } else {
            lemma_selected_shape(keys, prefix, start, i + 1, limit);
        }
    }
}

/// The number of positions from `i` on whose keys lie in the range.
pub open spec fn count_in_range(keys: Seq<Seq<u8>>, prefix: Seq<u8>, start: Seq<u8>, i: int) -> nat
    decreases keys.len() - i,
{
    if i < 0 || i >= keys.len() {
        0
    } else {
        (if in_range(keys[i], prefix, start) {
            1nat
        } else {
            0nat
        }) + count_in_range(keys, prefix, start, i + 1)
    }
}

proof fn lemma_selected_complete_from(keys: Seq<Seq<u8>>, prefix: Seq<u8>, start: Seq<u8>, i: int, limit: nat)
    requires
        0 <= i,
    ensures
        ({
            let sel = selected_from(keys, prefix, start, i, limit);
            &&& sel.len() == if limit < count_in_range(keys, prefix, start, i) {
                limit
            } else {
                count_in_range(keys, prefix, start, i)
            }
            &&& forall|m: int|
                i <= m < keys.len() && in_range(#[trigger] keys[m], prefix, start) && (sel.len() < limit || (
                sel.len() > 0 && m <= sel.last())) ==> sel.contains(m)
        }),
    decreases keys.len() - i,
{
    let sel = selected_from(keys, prefix, start, i, limit);
    if i < keys.len() && limit > 0 {
        if in_range(keys[i], prefix, start) {
            let rest = selected_from(keys, prefix, start, i + 1, (limit - 1) as nat);
            lemma_selected_complete_from(keys, prefix, start, i + 1, (limit - 1) as nat);
            lemma_selected_shape(keys, prefix, start, i + 1, (limit - 1) as nat);
            assert(sel == seq![i] + rest);
            assert forall|m: int|
                i <= m < keys.len() && in_range(#[trigger] keys[m], prefix, start) && (sel.len() < limit || (
                sel.len() > 0 && m <= sel.last())) implies sel.contains(m) by {
                if m == i {
                    assert(sel[0] == i);
                } else {
                    if rest.len() == 0 {
                        assert(sel.last() == i);
                    } else {
                        assert(sel.last() == rest.last());
                    }
                    assert(rest.contains(m));
                    let j = choose|j: int| 0 <= j < rest.len() && rest[j] == m;
                    assert(sel[j + 1] == m);
                }
            }
        } else {
            lemma_selected_complete_from(keys, prefix, start, i + 1, limit);
        }
    } else if i < keys.len() {
        assert(sel.len() == 0);
    }
}

/// A page holds the first `limit` keys of the range, or all of them where
/// fewer lie in it: its length is the lesser of `limit` and the number of
/// keys in the range, and no key of the range is skipped up to its last
/// (every key of the range where the page is short of `limit`).
pub proof fn lemma_page_complete(keys: Seq<Seq<u8>>, prefix: Seq<u8>, start: Seq<u8>, limit: nat)
    ensures
        ({
            let sel = selected_from(keys, prefix, start, 0, limit);
            let n = count_in_range(keys, prefix, start, 0);
            &&& sel.len() == if limit < n {
                limit
            } else {
                n
            }
            &&& forall|m: int|
                0 <= m < keys.len() && in_range(#[trigger] keys[m], prefix, start) && (sel.len() < limit || (
                sel.len() > 0 && m <= sel.last())) ==> sel.contains(m)
        }),
{
    lemma_selected_complete_from(keys, prefix, start, 0, limit);
}

/// A page read after cursor `x` (from the range start `x ++ [1]`) over keys
/// in ascending order: among keys as wide as `x`, every key of the page
/// comes after `x`, and no key after `x` comes before the page's first key;
/// where the page is empty but for the limit, no key after `x` lies in the
/// range. The page keeps table order.
pub proof fn lemma_page_after_cursor(keys: Seq<Seq<u8>>, prefix: Seq<u8>, x: Seq<u8>, limit: nat)
    requires
        ascending(keys),
    ensures
        ({
            let sel = selected_from(keys, prefix, x.push(1u8), 0, limit);
            &&& forall|j: int|
                0 <= j < sel.len() ==> 0 <= #[trigger] sel[j] < keys.len() && prefix.is_prefix_of(keys[sel[j]])
                    && (keys[sel[j]].len() == x.len() ==> lex_lt(x, keys[sel[j]]))
            &&& forall|j1: int, j2: int|
                0 <= j1 < j2 < sel.len() ==> lex_lt(#[trigger] keys[sel[j1]], #[trigger] keys[sel[j2]])
            &&& sel.len() > 0 ==> forall|m: int|
                0 <= m < keys.len() && prefix.is_prefix_of(#[trigger] keys[m]) && keys[m].len() == x.len()
                    && lex_lt(x, keys[m]) ==> !lex_lt(keys[m], keys[sel[0]])
            &&& (limit > 0 && sel.len() == 0) ==> forall|m: int|
                0 <= m < keys.len() && prefix.is_prefix_of(#[trigger] keys[m]) && keys[m].len() == x.len()
                    ==> !lex_lt(x, keys[m])
        }),
{
    let start = x.push(1u8);
    let sel = selected_from(keys, prefix, start, 0, limit);
    lemma_selected_shape(keys, prefix, start, 0, limit);
    assert forall|j: int| 0 <= j < sel.len() implies 0 <= #[trigger] sel[j] < keys.len() && prefix.is_prefix_of(
        keys[sel[j]],
    ) && (keys[sel[j]].len() == x.len() ==> lex_lt(x, keys[sel[j]])) by {
        if keys[sel[j]].len() == x.len() {
            lemma_range_start_successor(x, keys[sel[j]]);
        }
    }
    assert forall|j1: int, j2: int| 0 <= j1 < j2 < sel.len() implies lex_lt(
        #[trigger] keys[sel[j1]],
        #[trigger] keys[sel[j2]],
    ) by {
        assert(sel[j1] < sel[j2]);
    }
    if sel.len() > 0 {
        assert forall|m: int|
            0 <= m < keys.len() && prefix.is_prefix_of(#[trigger] keys[m]) && keys[m].len() == x.len()
                && lex_lt(x, keys[m]) implies !lex_lt(keys[m], keys[sel[0]]) by {
            lemma_range_start_successor(x, keys[m]);
            assert(in_range(keys[m], prefix, start));
            if m == sel[0] {
                lemma_lex_irreflexive(keys[m]);
            } else {
                assert(sel[0] < m);
                lemma_lex_total(keys[sel[0]], keys[m]);
            }
        }
    }
    if limit > 0 && sel.len() == 0 {
        assert forall|m: int|
            0 <= m < keys.len() && prefix.is_prefix_of(#[trigger] keys[m]) && keys[m].len() == x.len()
                implies !lex_lt(x, keys[m]) by {
            lemma_range_start_successor(x, keys[m]);
            assert(!in_range(keys[m], prefix, start));
        }
    }
}

pub struct Table<V> {
    entries: Vec<(Vec<u8>, V)>,
}

impl<V> View for Table<V> {
    type V = Map<Seq<u8>, V>;

    open spec fn view(&self) -> Map<Seq<u8>, V> {
        Map::new(
            |k: Seq<u8>| self.keys().contains(k),
            |k: Seq<u8>| self.values()[self.keys().index_of(k)],
        )
    }
}

impl<V> Table<V> {
    /// The keys in table order.
    pub closed spec fn keys(&self) -> Seq<Seq<u8>> {
        self.entries@.map_values(|e: (Vec<u8>, V)| e.0@)
    }

    /// The values in table order.
    pub closed spec fn values(&self) -> Seq<V> {
        self.entries@.map_values(|e: (Vec<u8>, V)| e.1)
    }

    /// The keys ascend strictly in byte order.
    pub open spec fn wf(&self) -> bool {
        &&& self.keys().len() == self.values().len()
        &&& forall|i: int, j: int|
            0 <= i < j < self.keys().len() ==> lex_lt(#[trigger] self.keys()[i], #[trigger] self.keys()[j])
    }

    /// The entry at position `i` is the table's entry for its key.
    pub proof fn lemma_entry(&self, i: int)
        requires
            self.wf(),
            0 <= i < self.keys().len(),
        ensures
            self@.contains_key(self.keys()[i]),
            self@[self.keys()[i]] == self.values()[i],
    {
        let k = self.keys()[i];
        assert(self.keys().contains(k));
        let j = self.keys().index_of(k);
        if j < i {
            lemma_lex_irreflexive(k);
        } else if j > i {
            lemma_lex_irreflexive(k);
        }
    }

    pub fn new() -> (r: Table<V>)
        ensures
            r.wf(),
            r@ == Map::<Seq<u8>, V>::empty(),
            r.keys().len() == 0,
    {
        let r = Table { entries: Vec::new() };
        proof {
            assert(r@ =~= Map::<Seq<u8>, V>::empty());
        }
        r
    }

    pub fn key_at(&self, i: usize) -> (r: &Vec<u8>)
        requires
            i < self.keys().len(),
        ensures
            r@ == self.keys()[i as int],
    {
        &self.entries[i].0
    }

    pub fn value_at(&self, i: usize) -> (r: &V)
        requires
            self.wf(),
            i < self.keys().len(),
        ensures
            *r == self.values()[i as int],
    {
        &self.entries[i].1
    }

    /// The first position whose key does not come before `key`.
    pub fn lower_bound(&self, key: &Vec<u8>) -> (p: usize)
        requires
            self.wf(),
        ensures
            p <= self.keys().len(),
            forall|j: int| 0 <= j < p ==> lex_lt(#[trigger] self.keys()[j], key@),
            p < self.keys().len() ==> !lex_lt(self.keys()[p as int], key@),
    {
        let mut p: usize = 0;
        while p < self.entries.len() && lex_less(&self.entries[p].0, key)
            invariant
                p <= self.keys().len(),
                self.keys().len() == self.entries@.len(),
                forall|j: int| 0 <= j < p ==> lex_lt(#[trigger] self.keys()[j], key@),
            decreases self.entries.len() - p,
        {
            p = p + 1;
        }
        p
    }

    /// No position after `p` holds `key` where the key at `p` does not come
    /// before it.
    proof fn lemma_after_bound(&self, key: Seq<u8>, p: int)
        requires
            self.wf(),
            0 <= p < self.keys().len(),
            !lex_lt(self.keys()[p], key),
            self.keys()[p] != key,
        ensures
            forall|j: int| p <= j < self.keys().len() ==> lex_lt(key, #[trigger] self.keys()[j]),
    {
        let kp = self.keys()[p];
        lemma_lex_total(kp, key);
        assert forall|j: int| p <= j < self.keys().len() implies lex_lt(key, #[trigger] self.keys()[j]) by {
            if j > p {
                lemma_lex_transitive(key, kp, self.keys()[j]);
            }
        }
    }

    pub fn get(&self, key: &Vec<u8>) -> (r: Option<&V>)
        requires
            self.wf(),
        ensures
            match r {
                Some(v) => self@.contains_key(key@) && *v == self@[key@],
                None => !self@.contains_key(key@),
            },
    {
        let p = self.lower_bound(key);
        if p < self.entries.len() && bytes_equal(&self.entries[p].0, key) {
            proof {
                self.lemma_entry(p as int);
            }
            Some(&self.entries[p].1)
        } else {
            proof {
                if p < self.keys().len() {
                    self.lemma_after_bound(key@, p as int);
                }
                assert forall|j: int| 0 <= j < self.keys().len() implies self.keys()[j] != key@ by {
                    lemma_lex_irreflexive(key@);
                }
            }
            None
        }
    }

    /// The positions of the first `limit` keys, in table order, that start
    /// with `prefix` and do not come before `start`.
    pub fn select(&self, prefix: &Vec<u8>, start: &Vec<u8>, limit: usize) -> (r: Vec<usize>)
        ensures
            r@.map_values(|p: usize| p as int) == selected_from(self.keys(), prefix@, start@, 0, limit as nat),
            forall|j: int| 0 <= j < r@.len() ==> r@[j] < self.keys().len(),
    {
        let mut out: Vec<usize> = Vec::new();
        let mut i: usize = 0;
        let ghost all = selected_from(self.keys(), prefix@, start@, 0, limit as nat);
        while i < self.entries.len() && out.len() < limit
            invariant
                i <= self.keys().len(),
                self.keys().len() == self.entries@.len(),
                out@.len() <= limit,
                out@.map_values(|p: usize| p as int) + selected_from(
                    self.keys(),
                    prefix@,
                    start@,
                    i as int,
                    (limit - out@.len()) as nat,
                ) == all,
                forall|j: int| 0 <= j < out@.len() ==> out@[j] < self.keys().len(),
            decreases self.entries.len() - i,
        {
            let ghost before = out@.map_values(|p: usize| p as int);
            if has_prefix(&self.entries[i].0, prefix) && !lex_less(&self.entries[i].0, start) {
                out.push(i);
                proof {
                    assert(out@.map_values(|p: usize| p as int) =~= before + seq![i as int]);
                }
            }
            i = i + 1;
        }
        proof {
            assert(selected_from(self.keys(), prefix@, start@, i as int, (limit - out@.len()) as nat)
                =~= Seq::<int>::empty());
        }
        out
    }

    pub fn insert(&mut self, key: Vec<u8>, value: V)
        requires
            old(self).wf(),
        ensures
            final(self).wf(),
            final(self)@ == old(self)@.insert(key@, value),
    {
        let p = self.lower_bound(&key);
        let ghost k = key@;
        let ghost old_keys = self.keys();
        let ghost old_values = self.values();
        if p < self.entries.len() && bytes_equal(&self.entries[p].0, &key) {
            self.entries.set(p, (key, value));
            proof {
                assert(self.keys() =~= old_keys);
                assert(self.values() =~= old_values.update(p as int, value));
                assert forall|q: Seq<u8>| #[trigger] self@.contains_key(q) implies self@[q] == old(
                    self,
                )@.insert(k, value)[q] by {
                    let i = choose|i: int| 0 <= i < self.keys().len() && self.keys()[i] == q;
                    self.lemma_entry(i);
                    if i != p {
                        old(self).lemma_entry(i);
                    }
                }
                assert(self@ =~= old(self)@.insert(k, value));
            }
        } else {
            proof {
                if p < old_keys.len() {
                    self.lemma_after_bound(k, p as int);
                }
            }
            self.entries.insert(p, (key, value));
            proof {
                assert(self.keys() =~= old_keys.insert(p as int, k));
                assert(self.values() =~= old_values.insert(p as int, value));
                assert forall|i: int, j: int|
                    0 <= i < j < self.keys().len() implies lex_lt(
                    #[trigger] self.keys()[i],
                    #[trigger] self.keys()[j],
                ) by {
                    if j < p {
                    } else if j == p {
                    } else if i < p {
                        assert(lex_lt(k, old_keys[j - 1]));
                        lemma_lex_transitive(self.keys()[i], k, self.keys()[j]);
                    } else if i == p {
                        assert(lex_lt(k, old_keys[j - 1]));
                    } else {
                        assert(lex_lt(old_keys[i - 1], old_keys[j - 1]));
                    }
                }
                assert forall|q: Seq<u8>| #[trigger] self@.contains_key(q) implies self@[q] == old(
                    self,
                )@.insert(k, value)[q] by {
                    let i = choose|i: int| 0 <= i < self.keys().len() && self.keys()[i] == q;
                    self.lemma_entry(i);
                    if i < p {
                        old(self).lemma_entry(i);
                        lemma_lex_irreflexive(k);
                    } else if i > p {
                        old(self).lemma_entry(i - 1);
                        lemma_lex_irreflexive(k);
                    }
                }
                assert forall|q: Seq<u8>| #[trigger] old(self)@.contains_key(q) implies self@.contains_key(q) by {
                    let i = choose|i: int| 0 <= i < old_keys.len() && old_keys[i] == q;
                    if i < p {
                        assert(self.keys()[i] == q);
                    } else {
                        assert(self.keys()[i + 1] == q);
                    }
                }
                assert(self.keys()[p as int] == k);
                assert(self@ =~= old(self)@.insert(k, value));
            }
        }
    }

    pub fn remove(&mut self, key: &Vec<u8>)
        requires
            old(self).wf(),
        ensures
            final(self).wf(),
            final(self)@ == old(self)@.remove(key@),
    {
        let p = self.lower_bound(key);
        let ghost k = key@;
        let ghost old_keys = self.keys();
        let ghost old_values = self.values();
        if p < self.entries.len() && bytes_equal(&self.entries[p].0, key) {
            self.entries.remove(p);
            proof {
                assert(self.keys() =~= old_keys.remove(p as int));
                assert(self.values() =~= old_values.remove(p as int));
                assert forall|i: int, j: int|
                    0 <= i < j < self.keys().len() implies lex_lt(
                    #[trigger] self.keys()[i],
                    #[trigger] self.keys()[j],
                ) by {
                    if j < p {
                    } else if i < p {
                        assert(self.keys()[j] == old_keys[j + 1]);
                    } else {
                        assert(self.keys()[i] == old_keys[i + 1]);
                        assert(self.keys()[j] == old_keys[j + 1]);
                    }
                }
                assert forall|i: int| 0 <= i < old_keys.len() && i != p implies old_keys[i] != k by {
                    lemma_lex_irreflexive(k);
                }
                assert forall|q: Seq<u8>| #[trigger] self@.contains_key(q) implies self@[q] == old(
                    self,
                )@.remove(k)[q] && q != k by {
                    let i = choose|i: int| 0 <= i < self.keys().len() && self.keys()[i] == q;
                    self.lemma_entry(i);
                    if i < p {
                        old(self).lemma_entry(i);
                    } else {
                        old(self).lemma_entry(i + 1);
                    }
                }
                assert forall|q: Seq<u8>| #[trigger] old(self)@.contains_key(q) && q != k implies self@.contains_key(q) by {
                    let i = choose|i: int| 0 <= i < old_keys.len() && old_keys[i] == q;
                    if i < p {
                        assert(self.keys()[i] == q);
                    } else {
                        assert(self.keys()[i - 1] == q);
                    }
                }
                assert(self@ =~= old(self)@.remove(k));
            }
        } else {
            proof {
                if p < old_keys.len() {
                    self.lemma_after_bound(k, p as int);
                }
                assert forall|j: int| 0 <= j < self.keys().len() implies self.keys()[j] != k by {
                    lemma_lex_irreflexive(k);
                }
                assert(self@ =~= old(self)@.remove(k));
            }
        }
    }
}

} // verus!
