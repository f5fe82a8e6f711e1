//! A fixed-capacity recency list: slots live in a backing vector that never
//! grows past the capacity, and a doubly-linked list threaded through the
//! slots by index orders them from most- to least-recently used.

use vstd::prelude::*;

verus! {

/// Sentinel slot index meaning "no neighbour" / "end of the list".
pub(crate) const NIL: u16 = u16::MAX;

/// Removing one position keeps every other element, keeps distinctness, and,
/// on a duplicate-free sequence, removes its element for good.
pub(crate) proof fn lemma_remove_keeps<A>(s: Seq<A>, p: int)
    requires
        0 <= p < s.len(),
    ensures
        forall|x: A| #[trigger] s.remove(p).contains(x) ==> s.contains(x),
        forall|x: A| s.contains(x) && x != s[p] ==> #[trigger] s.remove(p).contains(x),
        s.no_duplicates() ==> s.remove(p).no_duplicates(),
        s.no_duplicates() ==> !s.remove(p).contains(s[p]),
{
    let r = s.remove(p);
    assert forall|x: A| #[trigger] r.contains(x) implies s.contains(x) by {
        let i = choose|i: int| 0 <= i < r.len() && r[i] == x;
        if i < p {
            assert(s[i] == x);
        } else {
            assert(s[i + 1] == x);
        }
    }
    assert forall|x: A| s.contains(x) && x != s[p] implies #[trigger] r.contains(x) by {
        let i = choose|i: int| 0 <= i < s.len() && s[i] == x;
        if i < p {
            assert(r[i] == x);
        } else {
            assert(r[i - 1] == x);
        }
    }
    if s.no_duplicates() {
        assert forall|i: int, j: int|
            0 <= i < r.len() && 0 <= j < r.len() && i != j implies r[i] != r[j] by {
            assert(r[i] == if i < p {
                s[i]
            } else {
                s[i + 1]
            });
            assert(r[j] == if j < p {
                s[j]
            } else {
                s[j + 1]
            });
        }
        if r.contains(s[p]) {
            let i = choose|i: int| 0 <= i < r.len() && r[i] == s[p];
            assert(r[i] == if i < p {
                s[i]
            } else {
                s[i + 1]
            });
            assert(false);
        }
    }
}

/// What a sequence with one element put in front contains.
pub(crate) proof fn lemma_cons_contains<A>(x: A, s: Seq<A>)
    ensures
        forall|y: A| #[trigger] (seq![x] + s).contains(y) <==> (y == x || s.contains(y)),
{
    assert forall|y: A| #[trigger] (seq![x] + s).contains(y) implies (y == x || s.contains(
        y,
    )) by {
        let i = choose|i: int| 0 <= i < (seq![x] + s).len() && (seq![x] + s)[i] == y;
        if i > 0 {
            assert(s[i - 1] == y);
        }
    }
    assert forall|y: A| y == x || s.contains(y) implies #[trigger] (seq![x] + s).contains(y) by {
        if y == x {
            assert((seq![x] + s)[0] == y);
        } else {
            let i = choose|i: int| 0 <= i < s.len() && s[i] == y;
            assert((seq![x] + s)[i + 1] == y);
        }
    }
}

/// One slot of the backing array: a stored value threaded into the recency
/// list through the `prev` and `next` slot indices. The links are meaningful
/// only while the slot is on the list.
pub(crate) struct Entry<T> {
    pub(crate) val: T,
    pub(crate) prev: u16,
    pub(crate) next: u16,
}

/// The array-embedded doubly-linked recency list.
///
/// `entries` is the backing array; it never holds more than `N` slots, so a
/// slot index always fits in a `u16` strictly below the `NIL` sentinel.
/// `head` is the most-recently-used slot and `tail` the least-recently-used
/// one (`NIL` when the list is empty). Slots detached from the list are kept
/// on the `free` stack for reuse, so the backing array is never reallocated
/// and never grows past `N`.
///
/// `order` is the mathematical model of the linked list: the sequence of slot
/// indices in recency order, most recent first. The well-formedness
/// predicates below tie the `prev`/`next` links to this sequence.
pub(crate) struct Cache<T, const N: usize> {
    pub(crate) entries: Vec<Entry<T>>,
    pub(crate) head: u16,
    pub(crate) tail: u16,
    pub(crate) free: Vec<u16>,
    pub(crate) order: Ghost<Seq<u16>>,
}

impl<T, const N: usize> Cache<T, N> {
    /// The stored values in recency order, most recently used first.
    pub(crate) open spec fn vals(self) -> Seq<T> {
        self.order@.map(|k: int, s: u16| self.entries@[s as int].val)
    }

    /// The doubly-linked list agrees with the `order` model: every listed
    /// slot is in range, the links of consecutive listed slots point at each
    /// other, and `head`/`tail` are the ends of the list.
    pub(crate) open spec fn links_ok(self) -> bool {
        let o = self.order@;
        &&& N < NIL as usize
        &&& self.entries@.len() <= N
        &&& o.no_duplicates()
        &&& forall|k: int| 0 <= k < o.len() ==> ((#[trigger] o[k]) as int) < self.entries@.len()
        &&& if o.len() == 0 {
            self.head == NIL && self.tail == NIL
        } else {
            self.head == o[0] && self.tail == o[o.len() - 1]
        }
        &&& forall|k: int|
            0 <= k < o.len() ==> self.entries@[(#[trigger] o[k]) as int].prev == (if k == 0 {
                NIL
            } else {
                o[k - 1]
            })
        &&& forall|k: int|
            0 <= k < o.len() ==> self.entries@[(#[trigger] o[k]) as int].next == (if k == o.len()
                - 1 {
                NIL
            } else {
                o[k + 1]
            })
    }

    /// The free stack holds exactly the slots that are not on the list:
    /// together the list and the stack account for every slot of the backing
    /// array, once each.
    pub(crate) open spec fn free_ok(self) -> bool {
        let f = self.free@;
        &&& f.no_duplicates()
        &&& forall|k: int| 0 <= k < f.len() ==> ((#[trigger] f[k]) as int) < self.entries@.len()
        &&& forall|k: int| 0 <= k < f.len() ==> !self.order@.contains(#[trigger] f[k])
        &&& self.order@.len() + f.len() == self.entries@.len()
    }

    pub(crate) open spec fn wf(self) -> bool {
        &&& 1 <= N
        &&& self.links_ok()
        &&& self.free_ok()
    }

    /// An empty list. The capacity must leave room for the sentinel index.
    pub(crate) fn empty() -> (r: Self)
        requires
            1 <= N < NIL as usize,
        ensures
            r.wf(),
            r.vals() == Seq::<T>::empty(),
            r.order@ == Seq::<u16>::empty(),
            r.entries@.len() == 0,
    {
        let r = Cache {
            entries: Vec::new(),
            head: NIL,
            tail: NIL,
            free: Vec::new(),
            order: Ghost(Seq::empty()),
        };
        proof {
            assert(r.vals() =~= Seq::<T>::empty());
        }
        r
    }

    /// The number of values on the list.
    pub(crate) fn len(&self) -> (r: usize)
        requires
            self.wf(),
        ensures
            r == self.vals().len(),
    {
        self.entries.len() - self.free.len()
    }

    /// Unlink the slot at position `pos` of the list, patching its
    /// neighbours' links and the ends of the list. The slot keeps its value
    /// and is accounted neither live nor free until the caller relinks or
    /// frees it.
    #[verifier::rlimit(30)]
    fn detach(&mut self, idx: u16, Ghost(pos): Ghost<int>)
        requires
            old(self).links_ok(),
            0 <= pos < old(self).order@.len(),
            old(self).order@[pos] == idx,
        ensures
            final(self).links_ok(),
            final(self).order@ == old(self).order@.remove(pos),
            final(self).entries@.len() == old(self).entries@.len(),
            forall|s: int|
                0 <= s < final(self).entries@.len() ==> final(self).entries@[s].val == old(
                    self,
                ).entries@[s].val,
            final(self).free == old(self).free,
    {
        let ghost o0 = self.order@;
        proof {
            assert(o0[pos] == idx);
            if pos > 0 {
                assert((o0[pos - 1] as int) < self.entries@.len());
            }
            if pos < o0.len() - 1 {
                assert((o0[pos + 1] as int) < self.entries@.len());
            }
        }
        let prev = self.entries[idx as usize].prev;
        let next = self.entries[idx as usize].next;
        if prev == NIL {
            self.head = next;
        } else {
            let e = &mut self.entries[prev as usize];
            e.next = next;
        }
        if next == NIL {
            self.tail = prev;
        } else {
            let e = &mut self.entries[next as usize];
            e.prev = prev;
        }
        proof {
            self.order@ = o0.remove(pos);
            let o = self.order@;
            assert(pos > 0 ==> prev == o0[pos - 1]);
            assert(pos < o0.len() - 1 ==> next == o0[pos + 1]);
            assert forall|k: int| 0 <= k < o.len() implies (#[trigger] o[k]) == (if k < pos {
                o0[k]
            } else {
                o0[k + 1]
            }) by {}
            assert forall|k: int| 0 <= k < o.len() implies ((#[trigger] o[k]) as int)
                < self.entries@.len() by {}
            assert forall|k: int| 0 <= k < o.len() implies self.entries@[(#[trigger] o[k]) as int].prev
                == (if k == 0 {
                NIL
            } else {
                o[k - 1]
            }) by {
                if k < pos {
                    assert(o[k] == o0[k]);
                } else {
                    assert(o[k] == o0[k + 1]);
                }
                if k > 0 {
                    if k - 1 < pos {
                        assert(o[k - 1] == o0[k - 1]);
                    } else {
                        assert(o[k - 1] == o0[k]);
                    }
                }
            }
            assert forall|k: int| 0 <= k < o.len() implies self.entries@[(#[trigger] o[k]) as int].next
                == (if k == o.len() - 1 {
                NIL
            } else {
                o[k + 1]
            }) by {
                if k < pos {
                    assert(o[k] == o0[k]);
                } else {
                    assert(o[k] == o0[k + 1]);
                }
                if k < o.len() - 1 {
                    if k + 1 < pos {
                        assert(o[k + 1] == o0[k + 1]);
                    } else {
                        assert(o[k + 1] == o0[k + 2]);
                    }
                }
            }
            assert(o.no_duplicates()) by {
                assert forall|i: int, j: int|
                    0 <= i < o.len() && 0 <= j < o.len() && i != j implies o[i] != o[j] by {
                    assert(o[i] == if i < pos {
                        o0[i]
                    } else {
                        o0[i + 1]
                    });
                    assert(o[j] == if j < pos {
                        o0[j]
                    } else {
                        o0[j + 1]
                    });
                }
            }
            if o.len() > 0 {
                assert(o[0] == if 0 < pos {
                    o0[0]
                } else {
                    o0[1]
                });
                assert(o[o.len() - 1] == if o.len() - 1 < pos {
                    o0[o.len() - 1]
                } else {
                    o0[o.len() as int]
                });
            }
        }
    }

    /// Link the (unlisted) slot `idx` in at the head of the list, making it
    /// the most-recently-used one.
    fn attach_front(&mut self, idx: u16)
        requires
            old(self).links_ok(),
            (idx as int) < old(self).entries@.len(),
            !old(self).order@.contains(idx),
        ensures
            final(self).links_ok(),
            final(self).order@ == seq![idx] + old(self).order@,
            final(self).entries@.len() == old(self).entries@.len(),
            forall|s: int|
                0 <= s < final(self).entries@.len() ==> final(self).entries@[s].val == old(
                    self,
                ).entries@[s].val,
            final(self).free == old(self).free,
    {
        let ghost o0 = self.order@;
        proof {
            if o0.len() > 0 {
                assert((o0[0] as int) < self.entries@.len());
            }
        }
        let h = self.head;
        {
            let e = &mut self.entries[idx as usize];
            e.prev = NIL;
            e.next = h;
        }
        if h == NIL {
            self.tail = idx;
        } else {
            proof {
                assert(o0.len() > 0 && h == o0[0]);
                assert(o0.contains(o0[0]));
                assert(h != idx);
            }
            let e = &mut self.entries[h as usize];
            e.prev = idx;
        }
        self.head = idx;
        proof {
            self.order@ = seq![idx] + o0;
            let o = self.order@;
            assert(o[0] == idx);
            if o0.len() == 0 {
                assert(o[o.len() - 1] == idx);
            } else {
                assert(o[o.len() - 1] == o0[o0.len() - 1]);
                assert(self.tail == o0[o0.len() - 1]);
            }
            assert forall|k: int| 0 <= k < o.len() implies ((#[trigger] o[k]) as int)
                < self.entries@.len() && self.entries@[o[k] as int].prev == (if k == 0 {
                NIL
            } else {
                o[k - 1]
            }) && self.entries@[o[k] as int].next == (if k == o.len() - 1 {
                NIL
            } else {
                o[k + 1]
            }) by {
                if k > 0 {
                    assert(o[k] == o0[k - 1]);
                    assert(o0.contains(o0[k - 1]));
                    assert(o[k] != idx);
                }
            }
            assert(o.no_duplicates()) by {
                assert forall|i: int, j: int|
                    0 <= i < o.len() && 0 <= j < o.len() && i != j implies o[i] != o[j] by {
                    if i > 0 {
                        assert(o[i] == o0[i - 1]);
                        assert(o0.contains(o0[i - 1]));
                    }
                    if j > 0 {
                        assert(o[j] == o0[j - 1]);
                        assert(o0.contains(o0[j - 1]));
                    }
                }
            }
        }
    }

    /// Promote the slot at position `pos` of the list to most-recently-used.
    /// A no-op when the slot is already the head.
    #[verifier::rlimit(30)]
    pub(crate) fn touch_index(&mut self, idx: u16, Ghost(pos): Ghost<int>)
        requires
            old(self).wf(),
            0 <= pos < old(self).order@.len(),
            old(self).order@[pos] == idx,
        ensures
            final(self).wf(),
            final(self).order@ == seq![idx] + old(self).order@.remove(pos),
            final(self).vals() == seq![old(self).vals()[pos]] + old(self).vals().remove(pos),
            final(self).entries@.len() == old(self).entries@.len(),
            forall|s: int|
                0 <= s < final(self).entries@.len() ==> final(self).entries@[s].val == old(
                    self,
                ).entries@[s].val,
            final(self).free == old(self).free,
    {
        let ghost o0 = self.order@;
        let ghost v0 = self.vals();
        proof {
            lemma_remove_keeps(o0, pos);
            assert(o0.contains(idx));
        }
        if idx != self.head {
            self.detach(idx, Ghost(pos));
            self.attach_front(idx);
        } else {
            proof {
                assert(o0[0] == idx);
                assert(pos == 0);
                assert(self.order@ =~= seq![idx] + o0.remove(0));
            }
        }
        proof {
            lemma_cons_contains(idx, o0.remove(pos));
            assert forall|k: int|
                0 <= k < self.free@.len() implies !self.order@.contains(
                #[trigger] self.free@[k],
            ) by {
                if self.order@.contains(self.free@[k]) {
                    assert(o0.contains(self.free@[k]));
                }
            }
            assert forall|k: int| 1 <= k < self.order@.len() implies self.vals()[k] == v0.remove(
                pos,
            )[k - 1] by {
                assert(self.order@[k] == o0.remove(pos)[k - 1]);
                if k - 1 < pos {
                    assert(o0.remove(pos)[k - 1] == o0[k - 1]);
                    assert(v0.remove(pos)[k - 1] == v0[k - 1]);
                } else {
                    assert(o0.remove(pos)[k - 1] == o0[k]);
                    assert(v0.remove(pos)[k - 1] == v0[k]);
                }
            }
            assert(self.vals()[0] == v0[pos]);
            assert(self.vals() =~= seq![v0[pos]] + v0.remove(pos));
        }
    }

    /// Detach the slot at position `pos` of the list and put it on the free
    /// stack: its value becomes unreachable and the slot awaits reuse.
    pub(crate) fn remove(&mut self, idx: u16, Ghost(pos): Ghost<int>)
        requires
            old(self).wf(),
            0 <= pos < old(self).order@.len(),
            old(self).order@[pos] == idx,
        ensures
            final(self).wf(),
            final(self).order@ == old(self).order@.remove(pos),
            final(self).vals() == old(self).vals().remove(pos),
            final(self).entries@.len() == old(self).entries@.len(),
            forall|s: int|
                0 <= s < final(self).entries@.len() ==> final(self).entries@[s].val == old(
                    self,
                ).entries@[s].val,
    {
        let ghost o0 = self.order@;
        let ghost v0 = self.vals();
        let ghost f0 = self.free@;
        proof {
            lemma_remove_keeps(o0, pos);
            assert(o0.contains(idx));
        }
        self.detach(idx, Ghost(pos));
        self.free.push(idx);
        proof {
            let f = self.free@;
            assert forall|i: int, j: int|
                0 <= i < f.len() && 0 <= j < f.len() && i != j implies f[i] != f[j] by {
                if i < f0.len() && j < f0.len() {
                    assert(f[i] == f0[i] && f[j] == f0[j]);
                } else if i < f0.len() {
                    assert(f[i] == f0[i] && f[j] == idx);
                    assert(!o0.contains(f0[i]));
                } else {
                    assert(f[j] == f0[j] && f[i] == idx);
                    assert(!o0.contains(f0[j]));
                }
            }
            assert(f.no_duplicates());
            assert forall|k: int|
                0 <= k < f.len() implies !self.order@.contains(#[trigger] f[k]) by {
                if k < f0.len() {
                    if self.order@.contains(f0[k]) {
                        assert(o0.contains(f0[k]));
                    }
                } else {
                    assert(f[k] == idx);
                    assert(!o0.remove(pos).contains(idx));
                }
            }
            assert forall|k: int| 0 <= k < self.vals().len() implies self.vals()[k] == v0.remove(
                pos,
            )[k] by {
                assert(self.order@[k] == o0.remove(pos)[k]);
                if k < pos {
                    assert(o0.remove(pos)[k] == o0[k]);
                    assert(v0.remove(pos)[k] == v0[k]);
                } else {
                    assert(o0.remove(pos)[k] == o0[k + 1]);
                    assert(v0.remove(pos)[k] == v0[k + 1]);
                }
            }
            assert(self.vals() =~= v0.remove(pos));
        }
    }

    /// Promote the slot at position `pos` to most-recently-used and swap a
    /// new value into it, handing back the one it held.
    #[verifier::rlimit(80)]
    pub(crate) fn replace(&mut self, idx: u16, val: T, Ghost(pos): Ghost<int>) -> (r: T)
        requires
            old(self).wf(),
            0 <= pos < old(self).order@.len(),
            old(self).order@[pos] == idx,
        ensures
            final(self).wf(),
            final(self).order@ == seq![idx] + old(self).order@.remove(pos),
            final(self).vals() == seq![val] + old(self).vals().remove(pos),
            r == old(self).vals()[pos],
            final(self).entries@.len() == old(self).entries@.len(),
            forall|s: int|
                0 <= s < final(self).entries@.len() && s != idx ==> final(self).entries@[s].val
                    == old(self).entries@[s].val,
            final(self).entries@[idx as int].val == val,
            final(self).free == old(self).free,
    {
        let ghost v0 = self.vals();
        self.touch_index(idx, Ghost(pos));
        let ghost mid = *self;
        let mut v = val;
        {
            let e = &mut self.entries[idx as usize];
            core::mem::swap(&mut e.val, &mut v);
        }
        proof {
            let o = self.order@;
            assert(o[0] == idx);
            assert forall|k: int| 0 <= k < o.len() implies ((#[trigger] o[k]) as int)
                < self.entries@.len() && self.entries@[o[k] as int].prev == mid.entries@[o[k] as int].prev
                && self.entries@[o[k] as int].next == mid.entries@[o[k] as int].next by {}
            assert(self.links_ok());
            assert forall|k: int| 1 <= k < o.len() implies self.vals()[k] == mid.vals()[k] by {
                assert(o[k] != idx);
            }
            assert(self.vals()[0] == val);
            assert(self.vals() =~= seq![val] + v0.remove(pos));
        }
        v
    }

    /// Store a value as the most-recently-used one. Below capacity this takes
    /// an unused slot (a freed one, or a fresh one while the backing array is
    /// still growing); at capacity it evicts the least-recently-used slot and
    /// reuses it in place. Returns the slot index used.
    pub(crate) fn insert(&mut self, val: T) -> (idx: u16)
        requires
            old(self).wf(),
        ensures
            final(self).wf(),
            old(self).vals().len() < N ==> final(self).order@ == seq![idx] + old(self).order@,
            old(self).vals().len() < N ==> final(self).vals() == seq![val] + old(self).vals(),
            old(self).vals().len() == N ==> idx == old(self).order@[old(self).order@.len() - 1],
            old(self).vals().len() == N ==> final(self).order@ == seq![idx] + old(
                self,
            ).order@.drop_last(),
            old(self).vals().len() == N ==> final(self).vals() == seq![val] + old(
                self,
            ).vals().drop_last(),
            forall|s: int|
                0 <= s < final(self).entries@.len() && s != idx ==> final(self).entries@[s].val
                    == old(self).entries@[s].val,
            final(self).entries@[idx as int].val == val,
            (idx as int) < final(self).entries@.len(),
            final(self).order@[0] == idx,
            final(self).entries@.len() >= old(self).entries@.len(),
    {
        let ghost o0 = self.order@;
        let ghost v0 = self.vals();
        let live: usize = self.entries.len() - self.free.len();
        if live == N {
            proof {
                assert(self.free@.len() == 0);
                assert(o0.len() == N);
                lemma_remove_keeps(o0, o0.len() - 1);
            }
            let t = self.tail;
            self.detach(t, Ghost(o0.len() - 1));
            {
                let e = &mut self.entries[t as usize];
                e.val = val;
            }
            proof {
                let o = self.order@;
                assert(!o.contains(t));
                assert forall|k: int| 0 <= k < o.len() implies ((#[trigger] o[k]) as int)
                    < self.entries@.len() && o[k] != t by {
                    assert(o.contains(o[k]));
                }
                assert(self.links_ok());
            }
            self.attach_front(t);
            proof {
                assert(self.order@ =~= seq![t] + o0.drop_last());
                assert forall|k: int| 1 <= k < self.order@.len() implies self.vals()[k]
                    == v0.drop_last()[k - 1] by {
                    assert(self.order@[k] == o0[k - 1]);
                    assert(o0[k - 1] != t);
                }
                assert(self.vals()[0] == val);
                assert(self.vals() =~= seq![val] + v0.drop_last());
                lemma_cons_contains(t, o0.drop_last());
                assert(self.wf());
            }
            t
        } else {
            let popped = self.free.pop();
            match popped {
                Some(i) => {
                    let ghost f0 = self.free@.push(i);
                    proof {
                        assert(f0 =~= old(self).free@);
                        assert(old(self).free@[old(self).free@.len() - 1] == i);
                        assert(!o0.contains(i));
                        assert((i as int) < self.entries@.len());
                    }
                    {
                        let e = &mut self.entries[i as usize];
                        e.val = val;
                    }
                    proof {
                        let o = self.order@;
                        assert forall|k: int| 0 <= k < o.len() implies ((#[trigger] o[k]) as int)
                            < self.entries@.len() && o[k] != i by {
                            assert(o.contains(o[k]));
                        }
                        assert(self.links_ok());
                    }
                    self.attach_front(i);
                    proof {
                        lemma_cons_contains(i, o0);
                        assert forall|k: int|
                            0 <= k < self.free@.len() implies !self.order@.contains(
                            #[trigger] self.free@[k],
                        ) && ((#[trigger] self.free@[k]) as int) < self.entries@.len() by {
                            assert(old(self).free@[k] == self.free@[k]);
                            assert(!o0.contains(self.free@[k]));
                            assert(self.free@[k] != i) by {
                                assert(old(self).free@.no_duplicates());
                            }
                        }
                        assert(self.free@.no_duplicates()) by {
                            assert forall|a: int, b: int|
                                0 <= a < self.free@.len() && 0 <= b < self.free@.len() && a
                                    != b implies self.free@[a] != self.free@[b] by {
                                assert(old(self).free@[a] == self.free@[a]);
                                assert(old(self).free@[b] == self.free@[b]);
                            }
                        }
                        assert(self.wf());
                        assert forall|k: int| 1 <= k < self.order@.len() implies self.vals()[k]
                            == v0[k - 1] by {
                            assert(self.order@[k] == o0[k - 1]);
                            assert(o0.contains(o0[k - 1]));
                            assert(o0[k - 1] != i);
                        }
                        assert(self.vals()[0] == val);
                        assert(self.vals() =~= seq![val] + v0);
                    }
                    i
                },
                None => {
                    proof {
                        assert(self.free@.len() == 0);
                        assert(o0.len() == self.entries@.len());
                        assert(self.entries@.len() < N);
                    }
                    let i = self.entries.len() as u16;
                    self.entries.push(Entry { val, prev: NIL, next: NIL });
                    proof {
                        let o = self.order@;
                        assert forall|k: int| 0 <= k < o.len() implies ((#[trigger] o[k]) as int)
                            < self.entries@.len() && o[k] != i by {
                            assert(o.contains(o[k]));
                            assert((o[k] as int) < self.entries@.len() - 1);
                        }
                        assert(!o0.contains(i));
                        assert(self.links_ok());
                    }
                    self.attach_front(i);
                    proof {
                        lemma_cons_contains(i, o0);
                        assert forall|k: int|
                            0 <= k < self.free@.len() implies !self.order@.contains(
                            #[trigger] self.free@[k],
                        ) by {
                            assert(!o0.contains(self.free@[k]));
                        }
                        assert(self.wf());
                        assert forall|k: int| 1 <= k < self.order@.len() implies self.vals()[k]
                            == v0[k - 1] by {
                            assert(self.order@[k] == o0[k - 1]);
                            assert(o0.contains(o0[k - 1]));
                            assert((o0[k - 1] as int) < self.entries@.len() - 1);
                        }
                        assert(self.vals()[0] == val);
                        assert(self.vals() =~= seq![val] + v0);
                    }
                    i
                },
            }
        }
    }

    /// A reference to the least-recently-used value.
    pub(crate) fn back(&self) -> (r: &T)
        requires
            self.wf(),
            self.vals().len() > 0,
        ensures
            *r == self.vals()[self.vals().len() - 1],
    {
        proof {
            assert((self.order@[self.order@.len() - 1] as int) < self.entries@.len());
        }
        &self.entries[self.tail as usize].val
    }

    /// Evict every value: the list and the free stack are reset and the
    /// backing array is emptied, while the capacity is retained.
    pub(crate) fn clear(&mut self)
        requires
            old(self).wf(),
        ensures
            final(self).wf(),
            final(self).vals() == Seq::<T>::empty(),
            final(self).order@ == Seq::<u16>::empty(),
    {
        self.entries.clear();
        self.free.clear();
        self.head = NIL;
        self.tail = NIL;
        proof {
            self.order@ = Seq::empty();
            assert(self.vals() =~= Seq::<T>::empty());
        }
    }
}

/// A cursor over the values of a [`Cache`], from most-recently-used to
/// least-recently-used, following the `next` links. It borrows the list and
/// never promotes what it visits.
pub struct Iter<'a, T, const N: usize> {
    pub(crate) cache: &'a Cache<T, N>,
    pub(crate) pos: u16,
    pub(crate) seen: Ghost<int>,
}

impl<'a, T, const N: usize> Iter<'a, T, N> {
    /// The cursor stands on the `seen`-th slot of the list (or on the
    /// sentinel once every slot was visited).
    pub open(crate) spec fn valid(self) -> bool {
        &&& self.cache.wf()
        &&& 0 <= self.seen@ <= self.cache.order@.len()
        &&& if self.seen@ == self.cache.order@.len() {
            self.pos == NIL
        } else {
            self.pos == self.cache.order@[self.seen@]
        }
    }

    /// The values not yet yielded, in the order they will come.
    pub open(crate) spec fn remaining(self) -> Seq<T> {
        self.cache.vals().skip(self.seen@)
    }

    /// Yield the next value in recency order, most recently used first, or
    /// `None` once every value was yielded.
    pub fn next(&mut self) -> (r: Option<&'a T>)
        requires
            old(self).valid(),
        ensures
            final(self).valid(),
            old(self).remaining().len() == 0 ==> r is None && final(self).remaining() == old(
                self,
            ).remaining(),
            old(self).remaining().len() > 0 ==> (r matches Some(v) && *v == old(
                self,
            ).remaining()[0] && final(self).remaining() == old(self).remaining().drop_first()),
    {
        let c = self.cache;
        let ghost o = c.order@;
        let ghost k = self.seen@;
        if self.pos == NIL {
            proof {
                if k < o.len() {
                    assert((o[k] as int) < c.entries@.len());
                }
                assert(k == o.len());
            }
            None
        } else {
            proof {
                assert(k < o.len() && self.pos == o[k]);
                assert((o[k] as int) < c.entries@.len());
            }
            let idx = self.pos;
            self.pos = c.entries[idx as usize].next;
            proof {
                self.seen@ = k + 1;
                assert(c.vals()[k] == c.entries@[o[k] as int].val);
                assert(old(self).remaining()[0] == c.vals()[k]);
                assert(final(self).remaining() =~= old(self).remaining().drop_first());
            }
            Some(&c.entries[idx as usize].val)
        }
    }
}

} // verus!
