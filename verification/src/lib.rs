//! An in-memory, fixed-capacity, key-addressable least-recently-used cache.
//!
//! A [`LRUMap`] holds at most `N` key-value pairs. Once it is full, inserting
//! a fresh key evicts the least-recently-used pair. Lookups promote the found
//! pair to most-recently-used. The pairs live in a fixed backing array
//! threaded into a doubly-linked recency list by slot index, and a hash index
//! maps each key to its slot; the two structures are kept mutually consistent
//! by every operation.
//!
//! The model of a map is the sequence of its `(key, value)` pairs in recency
//! order, most recently used first; every contract speaks of that sequence.

use std::collections::HashMap;
use vstd::prelude::*;

mod cache;

pub use cache::Iter;

use cache::Cache;
use cache::lemma_cons_contains;
use cache::lemma_remove_keeps;

verus! {

broadcast use vstd::std_specs::hash::group_hash_axioms;

/// Does the recency sequence hold `key`?
pub open spec fn has_key<T>(s: Seq<(u64, T)>, key: u64) -> bool {
    exists|i: int| 0 <= i < s.len() && (#[trigger] s[i]).0 == key
}

/// The position of `key` in the recency sequence (meaningful only when
/// `has_key` holds; unique when the keys are distinct).
pub open spec fn key_at<T>(s: Seq<(u64, T)>, key: u64) -> int {
    choose|i: int| 0 <= i < s.len() && (#[trigger] s[i]).0 == key
}

/// The subsequence of `s` at the positions `d` marks `true`, in order.
pub open spec fn taken<A>(s: Seq<A>, d: Seq<bool>) -> Seq<A>
    recommends
        d.len() == s.len(),
    decreases s.len(),
{
    if s.len() == 0 {
        Seq::empty()
    } else if d[0] {
        seq![s[0]] + taken(s.drop_first(), d.drop_first())
    } else {
        taken(s.drop_first(), d.drop_first())
    }
}

/// The subsequence of `s` at the positions `d` marks `false`, in order.
pub open spec fn kept<A>(s: Seq<A>, d: Seq<bool>) -> Seq<A>
    recommends
        d.len() == s.len(),
    decreases s.len(),
{
    if s.len() == 0 {
        Seq::empty()
    } else if d[0] {
        kept(s.drop_first(), d.drop_first())
    } else {
        seq![s[0]] + kept(s.drop_first(), d.drop_first())
    }
}

/// How `taken` and `kept` unfold when one marked element is peeled off the
/// front.
proof fn lemma_split_unfold<A>(s: Seq<A>, d: Seq<bool>, s2: Seq<A>, d2: Seq<bool>, x: A, m: bool)
    requires
        s.len() > 0,
        s[0] == x,
        d.len() > 0,
        d[0] == m,
        s.drop_first() == s2,
        d.drop_first() == d2,
    ensures
        taken(s, d) == if m {
            seq![x] + taken(s2, d2)
        } else {
            taken(s2, d2)
        },
        kept(s, d) == if m {
            kept(s2, d2)
        } else {
            seq![x] + kept(s2, d2)
        },
{
}

/// One step of a backward walk that decides position `k`: how the walked
/// state decomposes once the decision is prepended to `d`, both when the
/// element leaves and when it stays.
proof fn lemma_scan_step<A>(s0: Seq<A>, d: Seq<bool>, k: int)
    requires
        0 <= k < s0.len(),
        d.len() == s0.len() - 1 - k,
    ensures
        (s0.take(k + 1) + kept(s0.skip(k + 1), d)).remove(k) == s0.take(k) + kept(
            s0.skip(k),
            seq![true] + d,
        ),
        s0.take(k + 1) + kept(s0.skip(k + 1), d) == s0.take(k) + kept(s0.skip(k), seq![false] + d),
        taken(s0.skip(k), seq![true] + d) == seq![s0[k]] + taken(s0.skip(k + 1), d),
        taken(s0.skip(k), seq![false] + d) == taken(s0.skip(k + 1), d),
        kept(s0.skip(k), seq![true] + d) == kept(s0.skip(k + 1), d),
        kept(s0.skip(k), seq![false] + d) == seq![s0[k]] + kept(s0.skip(k + 1), d),
{
    let d2t = seq![true] + d;
    let d2f = seq![false] + d;
    assert(s0.skip(k).drop_first() =~= s0.skip(k + 1));
    assert(d2t.drop_first() =~= d);
    assert(d2f.drop_first() =~= d);
    assert(s0.skip(k)[0] == s0[k]);
    lemma_split_unfold(s0.skip(k), d2t, s0.skip(k + 1), d, s0[k], true);
    lemma_split_unfold(s0.skip(k), d2f, s0.skip(k + 1), d, s0[k], false);
    assert((s0.take(k + 1) + kept(s0.skip(k + 1), d)).remove(k) =~= s0.take(k) + kept(
        s0.skip(k + 1),
        d,
    ));
    assert(s0.take(k + 1) + kept(s0.skip(k + 1), d) =~= s0.take(k) + (seq![s0[k]] + kept(
        s0.skip(k + 1),
        d,
    )));
}

/// `taken` and `kept` split a sequence: together they have its length, and
/// the split is decided by `d` alone, so two sequences of one length split at
/// the same lengths.
proof fn lemma_select_len<A, B>(s: Seq<A>, s2: Seq<B>, d: Seq<bool>)
    requires
        s.len() == s2.len(),
    ensures
        taken(s, d).len() == taken(s2, d).len(),
        kept(s, d).len() == kept(s2, d).len(),
        taken(s, d).len() + kept(s, d).len() == s.len(),
    decreases s.len(),
{
    if s.len() != 0 {
        lemma_select_len(s.drop_first(), s2.drop_first(), d.drop_first());
    }
}

/// One step of a backward walk that promotes position `k` of the middle part
/// to the front: how the three-part state — promoted elements, unwalked
/// prefix, walked-and-left elements — decomposes once the decision is
/// prepended to `d`.
proof fn lemma_promote_step<A>(s0: Seq<A>, d: Seq<bool>, k: int)
    requires
        0 <= k < s0.len(),
        d.len() == s0.len() - 1 - k,
    ensures
        (taken(s0.skip(k + 1), d) + s0.take(k + 1) + kept(s0.skip(k + 1), d)).len() == s0.len(),
        (taken(s0.skip(k + 1), d) + s0.take(k + 1) + kept(s0.skip(k + 1), d))[taken(
            s0.skip(k + 1),
            d,
        ).len() + k] == s0[k],
        seq![s0[k]] + (taken(s0.skip(k + 1), d) + s0.take(k + 1) + kept(s0.skip(k + 1), d)).remove(
            taken(s0.skip(k + 1), d).len() + k,
        ) == taken(s0.skip(k), seq![true] + d) + s0.take(k) + kept(s0.skip(k), seq![true] + d),
        taken(s0.skip(k + 1), d) + s0.take(k + 1) + kept(s0.skip(k + 1), d) == taken(
            s0.skip(k),
            seq![false] + d,
        ) + s0.take(k) + kept(s0.skip(k), seq![false] + d),
{
    lemma_scan_step(s0, d, k);
    lemma_select_len(s0.skip(k + 1), s0.skip(k + 1), d);
    let a = taken(s0.skip(k + 1), d);
    let b = s0.take(k + 1);
    let c = kept(s0.skip(k + 1), d);
    let t = a.len() as int;
    assert((a + b + c)[t + k] == s0[k]);
    assert((a + b + c).remove(t + k) =~= a + s0.take(k) + c);
    assert(seq![s0[k]] + (a + s0.take(k) + c) =~= (seq![s0[k]] + a) + s0.take(k) + c);
    assert(a + b + c =~= a + s0.take(k) + (seq![s0[k]] + c));
    assert(a + s0.take(k) + (seq![s0[k]] + c) =~= taken(s0.skip(k), seq![false] + d) + s0.take(k)
        + kept(s0.skip(k), seq![false] + d));
}

/// No key occurs twice in the recency sequence.
pub open spec fn distinct_keys<T>(s: Seq<(u64, T)>) -> bool {
    forall|i: int, j: int| 0 <= i < j < s.len() ==> s[i].0 != s[j].0
}

/// Eviction hits exactly the least-recently-used pair. A fresh put on a full
/// map leaves `seq![(key, value)] + s.drop_last()` (the ensures of `put`):
/// that sequence has lost the last pair's key, while every other pair of `s`
/// survives unchanged, one position further back.
pub proof fn lemma_eviction_is_lru<T>(s: Seq<(u64, T)>, key: u64, value: T)
    requires
        distinct_keys(s),
        s.len() >= 1,
        !has_key(s, key),
    ensures
        !has_key(seq![(key, value)] + s.drop_last(), s.last().0),
        forall|i: int|
            0 <= i < s.len() - 1 ==> (seq![(key, value)] + s.drop_last())[i + 1] == s[i],
{
    let t = seq![(key, value)] + s.drop_last();
    assert(s.contains(s.last())) by {
        assert(s[s.len() - 1] == s.last());
    }
    assert(key != s.last().0);
    if has_key(t, s.last().0) {
        let i = choose|i: int| 0 <= i < t.len() && t[i].0 == s.last().0;
        assert(i >= 1);
        assert(t[i] == s[i - 1]);
        assert(s[i - 1].0 == s[s.len() - 1].0);
        assert(false);
    }
}

/// A least-recently-used map of at most `N` key-value pairs.
///
/// Keys resolve to slots of the recency list through a hash index, so every
/// operation is key-addressed; the list orders the pairs by recency and
/// chooses the victim when an insertion finds the map full.
pub struct LRUMap<T, const N: usize> {
    cache: Cache<(u64, T), N>,
    indices: HashMap<u64, u16>,
}

impl<T, const N: usize> View for LRUMap<T, N> {
    type V = Seq<(u64, T)>;

    closed spec fn view(&self) -> Seq<(u64, T)> {
        self.cache.vals()
    }
}

impl<T, const N: usize> LRUMap<T, N> {
    /// The recency list is well formed and the hash index and the list agree:
    /// every listed slot's key is indexed to that slot, and every indexed key
    /// leads to a listed slot holding it.
    pub closed spec fn wf(self) -> bool {
        &&& self.cache.wf()
        &&& forall|k: int|
            0 <= k < self.cache.order@.len() ==> {
                let key = self.cache.vals()[k].0;
                &&& self.indices@.contains_key(key)
                &&& self.indices@[key] == (#[trigger] self.cache.order@[k])
            }
        &&& forall|key: u64|
            #[trigger] self.indices@.contains_key(key) ==> exists|k: int|
                0 <= k < self.cache.order@.len() && self.cache.order@[k] == self.indices@[key]
                    && self.cache.vals()[k].0 == key
    }

    /// A well-formed map never holds two pairs with one key, and never more
    /// than `N` pairs. Together with the contracts below this is the capacity
    /// bound: no sequence of operations drives the length past `N`.
    pub proof fn lemma_wf_distinct(self)
        requires
            self.wf(),
        ensures
            distinct_keys(self@),
            self@.len() <= N,
    {
        assert forall|i: int, j: int| 0 <= i < j < self@.len() implies self@[i].0 != self@[j].0 by {
            if self@[i].0 == self@[j].0 {
                assert(self.indices@[self.cache.vals()[i].0] == self.cache.order@[i]);
                assert(self.indices@[self.cache.vals()[j].0] == self.cache.order@[j]);
                assert(self.cache.order@[i] == self.cache.order@[j]);
            }
        }
    }

    /// The hash index and the recency sequence know the same keys, and agree
    /// on the slot of each.
    proof fn lemma_key_lookup(self, key: u64)
        requires
            self.wf(),
        ensures
            has_key(self@, key) <==> self.indices@.contains_key(key),
            has_key(self@, key) ==> 0 <= key_at(self@, key) < self@.len(),
            has_key(self@, key) ==> self@[key_at(self@, key)].0 == key,
            has_key(self@, key) ==> self.indices@[key] == self.cache.order@[key_at(self@, key)],
    {
        if has_key(self@, key) {
            let i = key_at(self@, key);
            assert(0 <= i < self@.len() && self@[i].0 == key);
            assert(self.indices@[self.cache.vals()[i].0] == self.cache.order@[i]);
        }
        if self.indices@.contains_key(key) {
            let k = choose|k: int|
                0 <= k < self.cache.order@.len() && self.cache.order@[k] == self.indices@[key]
                    && self.cache.vals()[k].0 == key;
            assert(self@[k].0 == key);
        }
    }

    /// Promoting one listed slot (and possibly changing the value, but never
    /// the key, it holds) keeps the index and the list consistent.
    #[verifier::rlimit(60)]
    proof fn lemma_wf_promote(pre: Self, post: Self, pos: int)
        requires
            pre.wf(),
            0 <= pos < pre.cache.order@.len(),
            post.cache.wf(),
            post.indices@ == pre.indices@,
            post.cache.order@ == seq![pre.cache.order@[pos]] + pre.cache.order@.remove(pos),
            post.cache.entries@.len() == pre.cache.entries@.len(),
            forall|s: int|
                0 <= s < post.cache.entries@.len() ==> (#[trigger] post.cache.entries@[s]).val.0
                    == pre.cache.entries@[s].val.0,
        ensures
            post.wf(),
    {
        let o0 = pre.cache.order@;
        let o = post.cache.order@;
        let idx = o0[pos];
        lemma_remove_keeps(o0, pos);
        lemma_cons_contains(idx, o0.remove(pos));
        assert forall|k: int| 0 <= k < o.len() implies {
            let key = post.cache.vals()[k].0;
            &&& post.indices@.contains_key(key)
            &&& post.indices@[key] == (#[trigger] o[k])
        } by {
            let j = if k == 0 {
                pos
            } else if k - 1 < pos {
                k - 1
            } else {
                k
            };
            assert(o[k] == o0[j]);
            assert(post.cache.vals()[k] == post.cache.entries@[o[k] as int].val);
            assert(pre.cache.vals()[j] == pre.cache.entries@[o0[j] as int].val);
            assert(post.cache.vals()[k].0 == pre.cache.vals()[j].0);
            assert(pre.indices@[pre.cache.vals()[j].0] == o0[j]);
        }
        assert forall|key: u64| #[trigger] post.indices@.contains_key(key) implies exists|k: int|
            0 <= k < o.len() && o[k] == post.indices@[key] && post.cache.vals()[k].0 == key by {
            let j = choose|j: int|
                0 <= j < o0.len() && o0[j] == pre.indices@[key] && pre.cache.vals()[j].0 == key;
            if j == pos {
                assert(o[0] == o0[pos]);
                assert(post.cache.vals()[0].0 == pre.cache.vals()[pos].0);
            } else {
                assert(o0[j] != o0[pos]);
                assert(o0.remove(pos).contains(o0[j]));
                assert(o.contains(o0[j]));
                let k = choose|k: int| 0 <= k < o.len() && o[k] == o0[j];
                assert(post.cache.vals()[k].0 == pre.cache.vals()[j].0);
            }
        }
    }

    /// Unlisting one slot and unindexing exactly its key keeps the index and
    /// the list consistent.
    proof fn lemma_wf_unlist(pre: Self, post: Self, pos: int, key: u64)
        requires
            pre.wf(),
            0 <= pos < pre.cache.order@.len(),
            pre.cache.vals()[pos].0 == key,
            post.cache.wf(),
            post.indices@ == pre.indices@.remove(key),
            post.cache.order@ == pre.cache.order@.remove(pos),
            post.cache.entries@.len() == pre.cache.entries@.len(),
            forall|s: int|
                0 <= s < post.cache.entries@.len() ==> (#[trigger] post.cache.entries@[s]).val.0
                    == pre.cache.entries@[s].val.0,
        ensures
            post.wf(),
    {
        let o0 = pre.cache.order@;
        let o = post.cache.order@;
        lemma_remove_keeps(o0, pos);
        pre.lemma_wf_distinct();
        assert forall|k: int| 0 <= k < o.len() implies {
            let key2 = post.cache.vals()[k].0;
            &&& post.indices@.contains_key(key2)
            &&& post.indices@[key2] == (#[trigger] o[k])
        } by {
            let j = if k < pos {
                k
            } else {
                k + 1
            };
            assert(o[k] == o0[j]);
            assert(post.cache.vals()[k] == post.cache.entries@[o[k] as int].val);
            assert(post.cache.vals()[k].0 == pre.cache.vals()[j].0);
            assert(pre.indices@[pre.cache.vals()[j].0] == o0[j]);
            assert(pre.cache.vals()[j].0 != key);
        }
        assert forall|key2: u64| #[trigger] post.indices@.contains_key(key2) implies exists|k: int|
            0 <= k < o.len() && o[k] == post.indices@[key2] && post.cache.vals()[k].0 == key2 by {
            assert(key2 != key);
            let j = choose|j: int|
                0 <= j < o0.len() && o0[j] == pre.indices@[key2] && pre.cache.vals()[j].0 == key2;
            assert(j != pos);
            assert(o0[j] != o0[pos]);
            assert(o0.remove(pos).contains(o0[j]));
            let k = choose|k: int| 0 <= k < o.len() && o[k] == o0[j];
            assert(post.cache.vals()[k].0 == pre.cache.vals()[j].0);
        }
    }

    /// Putting a fresh key's pair in front of a map with room, and indexing
    /// it, keeps the index and the list consistent.
    proof fn lemma_wf_insert_fresh(pre: Self, post: Self, key: u64, idx: u16)
        requires
            pre.wf(),
            !pre.indices@.contains_key(key),
            post.cache.wf(),
            post.cache.order@ == seq![idx] + pre.cache.order@,
            post.cache.vals().len() == pre.cache.vals().len() + 1,
            post.cache.vals()[0].0 == key,
            forall|j: int|
                0 <= j < pre.cache.vals().len() ==> #[trigger] post.cache.vals()[j + 1]
                    == pre.cache.vals()[j],
            post.indices@ == pre.indices@.insert(key, idx),
        ensures
            post.wf(),
    {
        let o0 = pre.cache.order@;
        let o = post.cache.order@;
        assert forall|k: int| 0 <= k < o.len() implies {
            let key2 = post.cache.vals()[k].0;
            &&& post.indices@.contains_key(key2)
            &&& post.indices@[key2] == (#[trigger] o[k])
        } by {
            if k > 0 {
                assert(post.cache.vals()[k] == pre.cache.vals()[k - 1]);
                assert(o[k] == o0[k - 1]);
                assert(pre.indices@[pre.cache.vals()[k - 1].0] == o0[k - 1]);
            }
        }
        assert forall|key2: u64| #[trigger] post.indices@.contains_key(key2) implies exists|k: int|
            0 <= k < o.len() && o[k] == post.indices@[key2] && post.cache.vals()[k].0 == key2 by {
            if key2 == key {
                assert(o[0] == idx && post.cache.vals()[0].0 == key2);
            } else {
                let j = choose|j: int|
                    0 <= j < o0.len() && o0[j] == pre.indices@[key2] && pre.cache.vals()[j].0
                        == key2;
                assert(o[j + 1] == o0[j]);
                assert(post.cache.vals()[j + 1] == pre.cache.vals()[j]);
            }
        }
    }

    /// Evicting the least-recently-used pair of a full map, unindexing its
    /// key, and putting a fresh key's pair in front of the list in its slot,
    /// keeps the index and the list consistent.
    proof fn lemma_wf_insert_evict(pre: Self, post: Self, key: u64, idx: u16)
        requires
            pre.wf(),
            !pre.indices@.contains_key(key),
            pre.cache.vals().len() >= 1,
            idx == pre.cache.order@[pre.cache.order@.len() - 1],
            post.cache.wf(),
            post.cache.order@ == seq![idx] + pre.cache.order@.drop_last(),
            post.cache.vals().len() == pre.cache.vals().len(),
            post.cache.vals()[0].0 == key,
            forall|j: int|
                0 <= j < pre.cache.vals().len() - 1 ==> #[trigger] post.cache.vals()[j + 1]
                    == pre.cache.vals()[j],
            post.indices@ == pre.indices@.remove(
                pre.cache.vals()[pre.cache.vals().len() - 1].0,
            ).insert(key, idx),
        ensures
            post.wf(),
    {
        let o0 = pre.cache.order@;
        let o = post.cache.order@;
        let last = o0.len() - 1;
        let ek = pre.cache.vals()[last].0;
        pre.lemma_wf_distinct();
        assert(pre.indices@.contains_key(ek) && pre.indices@[ek] == o0[last]) by {
            assert(0 <= last < o0.len());
        }
        assert forall|k: int| 0 <= k < o.len() implies {
            let key2 = post.cache.vals()[k].0;
            &&& post.indices@.contains_key(key2)
            &&& post.indices@[key2] == (#[trigger] o[k])
        } by {
            if k > 0 {
                assert(post.cache.vals()[k] == pre.cache.vals()[k - 1]);
                assert(o[k] == o0[k - 1]);
                assert(pre.indices@[pre.cache.vals()[k - 1].0] == o0[k - 1]);
                assert(pre.cache.vals()[k - 1].0 != ek);
                assert(pre.cache.vals()[k - 1].0 != key);
            }
        }
        assert forall|key2: u64| #[trigger] post.indices@.contains_key(key2) implies exists|k: int|
            0 <= k < o.len() && o[k] == post.indices@[key2] && post.cache.vals()[k].0 == key2 by {
            if key2 == key {
                assert(o[0] == idx && post.cache.vals()[0].0 == key2);
            } else {
                assert(key2 != ek);
                let j = choose|j: int|
                    0 <= j < o0.len() && o0[j] == pre.indices@[key2] && pre.cache.vals()[j].0
                        == key2;
                assert(j != last);
                assert(o[j + 1] == o0[j]);
                assert(post.cache.vals()[j + 1] == pre.cache.vals()[j]);
            }
        }
    }

    /// An empty map. The capacity must be at least one pair and small enough
    /// that a slot index is always strictly below the sentinel index.
    pub fn new() -> (r: Self)
        requires
            1 <= N < u16::MAX as usize,
        ensures
            r.wf(),
            r@ == Seq::<(u64, T)>::empty(),
    {
        LRUMap { cache: Cache::empty(), indices: HashMap::new() }
    }

    /// The number of pairs held.
    pub fn len(&self) -> (r: usize)
        requires
            self.wf(),
        ensures
            r == self@.len(),
    {
        self.cache.len()
    }

    /// Store a pair and make it the most recently used one.
    ///
    /// On a key already present the stored value is replaced in place, the
    /// pair is promoted, the previous value is returned, and the length does
    /// not change. On a fresh key the pair is put in front and `None` is
    /// returned; if the map was full, the least-recently-used pair — and only
    /// that pair — is evicted first, and its key leaves the index.
    #[verifier::rlimit(100)]
    pub fn put(&mut self, key: u64, value: T) -> (r: Option<T>)
        requires
            old(self).wf(),
        ensures
            final(self).wf(),
            has_key(old(self)@, key) ==> r == Some(old(self)@[key_at(old(self)@, key)].1),
            has_key(old(self)@, key) ==> final(self)@ == seq![(key, value)] + old(self)@.remove(
                key_at(old(self)@, key),
            ),
            has_key(old(self)@, key) ==> final(self)@.len() == old(self)@.len(),
            !has_key(old(self)@, key) ==> r is None,
            !has_key(old(self)@, key) && old(self)@.len() < N ==> final(self)@ == seq![(key, value)]
                + old(self)@,
            !has_key(old(self)@, key) && old(self)@.len() == N ==> final(self)@ == seq![
                (key, value),
            ] + old(self)@.drop_last(),
            final(self)@.len() <= N,
    {
        let ghost pre = *self;
        let ghost v0 = self@;
        proof {
            self.lemma_key_lookup(key);
            self.lemma_wf_distinct();
        }
        let idx_opt = self.indices.get(&key);
        match idx_opt {
            Some(i) => {
                let idx = *i;
                let ghost pos = key_at(v0, key);
                proof {
                    assert(self.cache.order@[pos] == idx);
                }
                let pair = self.cache.replace(idx, (key, value), Ghost(pos));
                proof {
                    assert forall|s: int| 0 <= s < self.cache.entries@.len() implies (
                    #[trigger] self.cache.entries@[s]).val.0 == pre.cache.entries@[s].val.0 by {
                        if s == idx {
                            assert(pre.cache.entries@[s].val == v0[pos]);
                        }
                    }
                    Self::lemma_wf_promote(pre, *self, pos);
                    assert(pair == v0[pos]);
                }
                Some(pair.1)
            },
            None => {
                proof {
                    assert(!has_key(v0, key));
                }
                if self.cache.len() == N {
                    let evicted = self.cache.back().0;
                    proof {
                        assert(evicted == v0[v0.len() - 1].0);
                        assert(self.indices@.contains_key(evicted)) by {
                            assert(self.cache.order@[v0.len() - 1] == self.cache.order@[v0.len()
                                - 1]);
                        }
                    }
                    self.indices.remove(&evicted);
                    let idx = self.cache.insert((key, value));
                    self.indices.insert(key, idx);
                    proof {
                        Self::lemma_wf_insert_evict(pre, *self, key, idx);
                    }
                    None
                } else {
                    let idx = self.cache.insert((key, value));
                    self.indices.insert(key, idx);
                    proof {
                        Self::lemma_wf_insert_fresh(pre, *self, key, idx);
                    }
                    None
                }
            },
        }
    }

    /// Look a key up, promote its pair to most-recently-used, and hand back a
    /// reference to the value. Absent keys leave the map untouched: a key is
    /// found if and only if the map holds it.
    pub fn get(&mut self, key: &u64) -> (r: Option<&T>)
        requires
            old(self).wf(),
        ensures
            final(self).wf(),
            !has_key(old(self)@, *key) ==> r is None && *final(self) == *old(self),
            has_key(old(self)@, *key) ==> (r matches Some(v) && *v == old(self)@[key_at(
                old(self)@,
                *key,
            )].1),
            has_key(old(self)@, *key) ==> final(self)@ == seq![
                old(self)@[key_at(old(self)@, *key)],
            ] + old(self)@.remove(key_at(old(self)@, *key)),
    {
        let ghost pre = *self;
        let ghost v0 = self@;
        proof {
            self.lemma_key_lookup(*key);
        }
        let idx_opt = self.indices.get(key);
        match idx_opt {
            None => None,
            Some(i) => {
                let idx = *i;
                let ghost pos = key_at(v0, *key);
                proof {
                    assert(self.cache.order@[pos] == idx);
                }
                self.cache.touch_index(idx, Ghost(pos));
                proof {
                    Self::lemma_wf_promote(pre, *self, pos);
                    assert((idx as int) < self.cache.entries@.len()) by {
                        assert(self.cache.order@[0] == idx);
                    }
                    assert(self.cache.entries@[idx as int].val == v0[pos]) by {
                        assert(self.cache.vals()[0] == self.cache.entries@[self.cache.order@[0] as int].val);
                    }
                }
                Some(&self.cache.entries[idx as usize].val.1)
            },
        }
    }

    /// Remove the pair holding a key, if one is there; the other pairs keep
    /// their relative recency order. Absent keys leave the map untouched.
    pub fn remove_one(&mut self, key: &u64)
        requires
            old(self).wf(),
        ensures
            final(self).wf(),
            !has_key(old(self)@, *key) ==> final(self)@ == old(self)@,
            has_key(old(self)@, *key) ==> final(self)@ == old(self)@.remove(
                key_at(old(self)@, *key),
            ),
    {
        let ghost pre = *self;
        let ghost v0 = self@;
        proof {
            self.lemma_key_lookup(*key);
        }
        let removed = self.indices.remove(key);
        match removed {
            None => {
                proof {
                    assert(self.indices@ =~= pre.indices@);
                }
            },
            Some(idx) => {
                let ghost pos = key_at(v0, *key);
                proof {
                    assert(self.cache.order@[pos] == idx);
                }
                self.cache.remove(idx, Ghost(pos));
                proof {
                    Self::lemma_wf_unlist(pre, *self, pos, *key);
                }
            },
        }
    }

    /// Remove the pair on the given slot and unindex its key.
    fn remove_entry(&mut self, key: u64, idx: u16, Ghost(pos): Ghost<int>)
        requires
            old(self).wf(),
            0 <= pos < old(self).cache.order@.len(),
            old(self).cache.order@[pos] == idx,
            old(self)@[pos].0 == key,
        ensures
            final(self).wf(),
            final(self)@ == old(self)@.remove(pos),
            final(self).cache.order@ == old(self).cache.order@.remove(pos),
            final(self).cache.entries@.len() == old(self).cache.entries@.len(),
    {
        let ghost pre = *self;
        proof {
            assert(pre.indices@.contains_key(pre.cache.vals()[pos].0)) by {
                assert(pre.cache.order@[pos] == pre.cache.order@[pos]);
            }
        }
        self.indices.remove(&key);
        self.cache.remove(idx, Ghost(pos));
        proof {
            Self::lemma_wf_unlist(pre, *self, pos, key);
        }
    }

    /// Remove every pair whose key satisfies the predicate; the kept pairs
    /// retain their relative recency order. The contract: some decision
    /// sequence `d`, each entry a result the predicate can return on the
    /// matching position's key, selects exactly the pairs that leave.
    #[verifier::rlimit(100)]
    pub fn remove<F: Fn(u64) -> bool>(&mut self, pred: F)
        requires
            old(self).wf(),
            forall|key: u64| #[trigger] pred.requires((key,)),
        ensures
            final(self).wf(),
            exists|d: Seq<bool>|
                {
                    &&& d.len() == old(self)@.len()
                    &&& (forall|i: int|
                        0 <= i < d.len() ==> #[trigger] pred.ensures((old(self)@[i].0,), d[i]))
                    &&& final(self)@ == kept(old(self)@, d)
                },
    {
        let ghost v0 = self@;
        let ghost o0 = self.cache.order@;
        let mut cur: u16 = self.cache.tail;
        let ghost mut k: int = o0.len() - 1;
        let ghost mut d: Seq<bool> = Seq::empty();
        proof {
            if o0.len() > 0 {
                assert(cur == o0[k]);
            }
            assert(self@ =~= v0.take(k + 1) + kept(v0.skip(k + 1), d));
            assert(self.cache.order@ =~= o0.take(k + 1) + kept(o0.skip(k + 1), d));
        }
        #[verifier::loop_isolation(false)]
        while cur != cache::NIL
            invariant
                self.wf(),
                -1 <= k < o0.len(),
                k >= 0 ==> cur == o0[k],
                k < 0 ==> cur == cache::NIL,
                d.len() == o0.len() - 1 - k,
                forall|i: int|
                    0 <= i < d.len() ==> #[trigger] pred.ensures((v0[k + 1 + i].0,), d[i]),
                self.cache.order@ == o0.take(k + 1) + kept(o0.skip(k + 1), d),
                self@ == v0.take(k + 1) + kept(v0.skip(k + 1), d),
            decreases k + 1,
        {
            proof {
                assert(k >= 0) by {
                    if k < 0 {
                    } else {
                        assert(self.cache.order@[k] == o0[k]);
                    }
                }
                assert(self.cache.order@[k] == (o0.take(k + 1) + kept(o0.skip(k + 1), d))[k]);
                assert(self.cache.order@[k] == cur);
                assert((cur as int) < self.cache.entries@.len());
                assert(self@[k] == self.cache.entries@[cur as int].val);
                assert(self@[k] == v0[k]);
            }
            let p = self.cache.entries[cur as usize].prev;
            proof {
                if k > 0 {
                    assert(self.cache.order@[k - 1] == o0[k - 1]);
                    assert(p == o0[k - 1]);
                    assert((o0[k - 1] as int) < self.cache.entries@.len());
                    assert(p != cache::NIL);
                } else {
                    assert(p == cache::NIL);
                }
            }
            let key2 = self.cache.entries[cur as usize].val.0;
            proof {
                assert(key2 == v0[k].0);
            }
            let m = pred(key2);
            let ghost d2 = seq![m] + d;
            proof {
                lemma_scan_step(v0, d, k);
                lemma_scan_step(o0, d, k);
                assert forall|i: int| 0 <= i < d2.len() implies #[trigger] pred.ensures(
                    (v0[(k - 1) + 1 + i].0,),
                    d2[i],
                ) by {
                    if i == 0 {
                        assert(d2[0] == m && v0[k].0 == key2);
                    } else {
                        assert(d2[i] == d[i - 1]);
                        assert(pred.ensures((v0[k + 1 + (i - 1)].0,), d[i - 1]));
                    }
                }
            }
            if m {
                self.remove_entry(key2, cur, Ghost(k));
            }
            proof {
                d = d2;
                k = k - 1;
            }
            cur = p;
        }
        proof {
            assert(k == -1) by {
                if k >= 0 {
                    assert(cur == o0[k]);
                    assert((o0[k] as int) < old(self).cache.entries@.len());
                }
            }
            assert(v0.take(0) =~= Seq::empty());
            assert(v0.skip(0) =~= v0);
            assert(self@ =~= kept(v0, d));
            assert forall|i: int| 0 <= i < d.len() implies #[trigger] pred.ensures(
                (v0[i].0,),
                d[i],
            ) by {
                assert(pred.ensures((v0[(-1) + 1 + i].0,), d[i]));
            }
        }
    }

    /// Promote every pair whose key satisfies the predicate to the front,
    /// dropping nothing. The promoted pairs end up in front of the others;
    /// this implementation keeps the promoted pairs' relative recency order,
    /// a choice the contract states through the same decision sequence `d`
    /// as `remove`.
    #[verifier::rlimit(100)]
    pub fn touch<F: Fn(u64) -> bool>(&mut self, pred: F)
        requires
            old(self).wf(),
            forall|key: u64| #[trigger] pred.requires((key,)),
        ensures
            final(self).wf(),
            exists|d: Seq<bool>|
                {
                    &&& d.len() == old(self)@.len()
                    &&& (forall|i: int|
                        0 <= i < d.len() ==> #[trigger] pred.ensures((old(self)@[i].0,), d[i]))
                    &&& final(self)@ == taken(old(self)@, d) + kept(old(self)@, d)
                },
    {
        let ghost v0 = self@;
        let ghost o0 = self.cache.order@;
        let mut cur: u16 = self.cache.tail;
        let mut steps: usize = self.cache.len();
        let ghost mut k: int = o0.len() - 1;
        let ghost mut d: Seq<bool> = Seq::empty();
        proof {
            if o0.len() > 0 {
                assert(cur == o0[k]);
            }
            assert(self@ =~= taken(v0.skip(k + 1), d) + v0.take(k + 1) + kept(v0.skip(k + 1), d));
            assert(self.cache.order@ =~= taken(o0.skip(k + 1), d) + o0.take(k + 1) + kept(
                o0.skip(k + 1),
                d,
            ));
        }
        #[verifier::loop_isolation(false)]
        while steps > 0
            invariant
                self.wf(),
                -1 <= k < o0.len(),
                steps == k + 1,
                k >= 0 ==> cur == o0[k],
                d.len() == o0.len() - 1 - k,
                forall|i: int|
                    0 <= i < d.len() ==> #[trigger] pred.ensures((v0[k + 1 + i].0,), d[i]),
                self.cache.order@ == taken(o0.skip(k + 1), d) + o0.take(k + 1) + kept(
                    o0.skip(k + 1),
                    d,
                ),
                self@ == taken(v0.skip(k + 1), d) + v0.take(k + 1) + kept(v0.skip(k + 1), d),
            decreases steps,
        {
            let ghost tpos = taken(o0.skip(k + 1), d).len() + k;
            proof {
                lemma_select_len(o0.skip(k + 1), v0.skip(k + 1), d);
                lemma_promote_step(o0, d, k);
                lemma_promote_step(v0, d, k);
                assert(self.cache.order@[tpos] == o0[k]);
                assert(self.cache.order@[tpos] == cur);
                assert(self.cache.order@.contains(cur));
                assert((cur as int) < self.cache.entries@.len());
                assert(self@[tpos] == self.cache.entries@[cur as int].val);
                assert(self@[tpos] == v0[k]);
            }
            let p = self.cache.entries[cur as usize].prev;
            proof {
                let o = self.cache.order@;
                if k > 0 {
                    assert(o[tpos - 1] == (taken(o0.skip(k + 1), d) + o0.take(k + 1) + kept(
                        o0.skip(k + 1),
                        d,
                    ))[tpos - 1]);
                    assert(o[tpos - 1] == o0.take(k + 1)[k - 1]);
                    assert(p == o[tpos - 1]);
                    assert(p == o0[k - 1]);
                }
            }
            let key2 = self.cache.entries[cur as usize].val.0;
            proof {
                assert(key2 == v0[k].0);
            }
            let m = pred(key2);
            let ghost d2 = seq![m] + d;
            proof {
                assert forall|i: int| 0 <= i < d2.len() implies #[trigger] pred.ensures(
                    (v0[(k - 1) + 1 + i].0,),
                    d2[i],
                ) by {
                    if i == 0 {
                        assert(d2[0] == m && v0[k].0 == key2);
                    } else {
                        assert(d2[i] == d[i - 1]);
                        assert(pred.ensures((v0[k + 1 + (i - 1)].0,), d[i - 1]));
                    }
                }
            }
            if m {
                let ghost pre = *self;
                self.cache.touch_index(cur, Ghost(tpos));
                proof {
                    Self::lemma_wf_promote(pre, *self, tpos);
                }
            }
            proof {
                d = d2;
                k = k - 1;
            }
            cur = p;
            steps = steps - 1;
        }
        proof {
            assert(k == -1);
            assert(v0.take(0) =~= Seq::empty());
            assert(v0.skip(0) =~= v0);
            assert(self@ =~= taken(v0, d) + kept(v0, d));
            assert forall|i: int| 0 <= i < d.len() implies #[trigger] pred.ensures(
                (v0[i].0,),
                d[i],
            ) by {
                assert(pred.ensures((v0[(-1) + 1 + i].0,), d[i]));
            }
        }
    }

    /// A cursor over the pairs from most- to least-recently used. Iterating
    /// is a read: it promotes nothing.
    pub fn iter<'a>(&'a self) -> (r: Iter<'a, (u64, T), N>)
        requires
            self.wf(),
        ensures
            r.valid(),
            r.remaining() == self@,
    {
        let r = Iter { cache: &self.cache, pos: self.cache.head, seen: Ghost(0) };
        proof {
            assert(r.remaining() =~= self@);
        }
        r
    }

    /// Drop every pair. The capacity is retained, so the emptied map is ready
    /// for reuse; clearing an already empty map is a no-op.
    pub fn clear(&mut self)
        requires
            old(self).wf(),
        ensures
            final(self).wf(),
            final(self)@ == Seq::<(u64, T)>::empty(),
    {
        self.indices.clear();
        self.cache.clear();
    }
}

} // verus!
