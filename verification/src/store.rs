//! Keyed storage: an association list with pairwise distinct keys.
//!
//! Every persisted table of the pools (stake, accumulator, tally, escrow,
//! nonce) is a [`Store`]. Entries stay enumerable by index, so callers can
//! iterate deterministically, and the tail can be cleared in bounded chunks,
//! which is what the migration's resumable cleanup relies on.

use vstd::prelude::*;

verus! {

/// A two-coordinate storage key. Tables keyed by a single id leave the
/// second coordinate zero.
#[derive(Clone, Copy, PartialEq, Eq, Structural, Debug)]
pub struct Key {
    pub a: u64,
    pub b: u64,
}

/// An enumerable map from [`Key`] to `V` with pairwise distinct keys.
pub struct Store<V> {
    pub pairs: Vec<(Key, V)>,
}

impl<V> Store<V> {
    /// The entries in storage order.
    pub open spec fn entries(self) -> Seq<(Key, V)> {
        self.pairs@
    }

    /// Well-formed: no key occurs twice.
    pub open spec fn wf(self) -> bool {
        forall|i: int, j: int|
            0 <= i < j < self.pairs@.len() ==> (#[trigger] self.pairs@[i]).0 != (
            #[trigger] self.pairs@[j]).0
    }

    /// Whether `k` is present.
    pub open spec fn has(self, k: Key) -> bool {
        exists|i: int| 0 <= i < self.pairs@.len() && (#[trigger] self.pairs@[i]).0 == k
    }

    /// The index of `k`; meaningful only when `k` is present and keys are
    /// distinct.
    pub open spec fn idx(self, k: Key) -> int {
        choose|i: int| 0 <= i < self.pairs@.len() && (#[trigger] self.pairs@[i]).0 == k
    }

    /// The value stored under `k`.
    pub open spec fn val(self, k: Key) -> V
        recommends
            self.has(k),
    {
        self.pairs@[self.idx(k)].1
    }

    /// In a well-formed store an entry's position is the unique index of its
    /// key.
    pub proof fn lemma_idx_is(self, k: Key, i: int)
        requires
            self.wf(),
            0 <= i < self.entries().len(),
            self.entries()[i].0 == k,
        ensures
            self.has(k),
            self.idx(k) == i,
            self.val(k) == self.entries()[i].1,
    {
        assert(self.has(k));
        let j = self.idx(k);
        assert(0 <= j < self.pairs@.len() && self.pairs@[j].0 == k);
        if j < i {
            assert(self.pairs@[j].0 != self.pairs@[i].0);
        } else if i < j {
            assert(self.pairs@[i].0 != self.pairs@[j].0);
        }
    }

    /// The empty store.
    pub fn new() -> (s: Store<V>)
        ensures
            s.wf(),
            s.entries() == Seq::<(Key, V)>::empty(),
    {
        Store { pairs: Vec::new() }
    }

    /// Number of entries.
    pub fn len(&self) -> (n: usize)
        ensures
            n == self.entries().len(),
    {
        self.pairs.len()
    }

    /// The key of the entry at position `i`.
    pub fn key_at(&self, i: usize) -> (k: Key)
        requires
            i < self.entries().len(),
        ensures
            k == self.entries()[i as int].0,
    {
        self.pairs[i].0
    }

    /// The value of the entry at position `i`.
    pub fn value_at(&self, i: usize) -> (v: &V)
        requires
            i < self.entries().len(),
        ensures
            *v == self.entries()[i as int].1,
    {
        &self.pairs[i].1
    }

    /// Look `k` up.
    pub fn get(&self, k: Key) -> (r: Option<&V>)
        requires
            self.wf(),
        ensures
            match r {
                Some(v) => self.has(k) && *v == self.val(k),
                None => !self.has(k),
            },
    {
        let mut i: usize = 0;
        while i < self.pairs.len()
            invariant
                i <= self.pairs@.len(),
                forall|j: int| 0 <= j < i ==> (#[trigger] self.pairs@[j]).0 != k,
                self.wf(),
            decreases self.pairs@.len() - i,
        {
            if self.pairs[i].0 == k {
                proof {
                    self.lemma_idx_is(k, i as int);
                }
                return Some(&self.pairs[i].1);
            }
            i += 1;
        }
        None
    }

    /// Bind `v` to `k`, replacing any previous value.
    pub fn insert(&mut self, k: Key, v: V)
        requires
            old(self).wf(),
        ensures
            final(self).wf(),
            final(self).has(k),
            final(self).val(k) == v,
            forall|k2: Key| k2 != k ==> final(self).has(k2) == old(self).has(k2),
            forall|k2: Key|
                k2 != k && old(self).has(k2) ==> final(self).val(k2) == old(self).val(k2),
            old(self).has(k) ==> final(self).entries() == old(self).entries().update(
                old(self).idx(k),
                (k, v),
            ),
            !old(self).has(k) ==> final(self).entries() == old(self).entries().push((k, v)),
    {
        let ghost pre = *self;
        let mut i: usize = 0;
        while i < self.pairs.len()
            invariant
                *self == pre,
                pre == *old(self),
                pre.wf(),
                i <= self.pairs@.len(),
                forall|j: int| 0 <= j < i ==> (#[trigger] self.pairs@[j]).0 != k,
            decreases self.pairs@.len() - i,
        {
            if self.pairs[i].0 == k {
                proof {
                    pre.lemma_idx_is(k, i as int);
                }
                let slot = &mut self.pairs[i];
                *slot = (k, v);
                proof {
                    self.lemma_insert_update_post(pre, k, v, i as int);
                }
                return ;
            }
            i += 1;
        }
        self.pairs.push((k, v));
        proof {
            assert(!pre.has(k));
            self.lemma_insert_push_post(pre, k, v);
        }
    }

    /// After an in-place update at the key's index the store keeps every
    /// other binding.
    proof fn lemma_insert_update_post(self, pre: Store<V>, k: Key, v: V, i: int)
        requires
            pre.wf(),
            0 <= i < pre.entries().len(),
            pre.entries()[i].0 == k,
            self.entries() == pre.entries().update(i, (k, v)),
        ensures
            self.wf(),
            self.has(k),
            self.val(k) == v,
            forall|k2: Key| k2 != k ==> self.has(k2) == pre.has(k2),
            forall|k2: Key| k2 != k && pre.has(k2) ==> self.val(k2) == pre.val(k2),
            self.entries() == pre.entries().update(pre.idx(k), (k, v)),
    {
        assert(forall|j: int|
            0 <= j < self.entries().len() ==> (#[trigger] self.entries()[j]).0 == pre.entries()[j].0);
        assert(self.wf());
        self.lemma_idx_is(k, i);
        pre.lemma_idx_is(k, i);
        assert forall|k2: Key| k2 != k implies self.has(k2) == pre.has(k2) by {
            if self.has(k2) {
                let j = self.idx(k2);
                assert(pre.entries()[j].0 == k2);
                assert(pre.has(k2));
            }
            if pre.has(k2) {
                let j = pre.idx(k2);
                assert(self.entries()[j].0 == k2);
                assert(self.has(k2));
            }
        }
        assert forall|k2: Key| k2 != k && pre.has(k2) implies self.val(k2) == pre.val(k2) by {
            let j = pre.idx(k2);
            assert(pre.entries()[j].0 == k2);
            assert(j != i);
            self.lemma_idx_is(k2, j);
        }
    }

    /// After pushing a fresh key the store keeps every other binding.
    proof fn lemma_insert_push_post(self, pre: Store<V>, k: Key, v: V)
        requires
            pre.wf(),
            !pre.has(k),
            self.entries() == pre.entries().push((k, v)),
        ensures
            self.wf(),
            self.has(k),
            self.val(k) == v,
            forall|k2: Key| k2 != k ==> self.has(k2) == pre.has(k2),
            forall|k2: Key| k2 != k && pre.has(k2) ==> self.val(k2) == pre.val(k2),
    {
        let n = pre.entries().len() as int;
        assert(forall|j: int|
            0 <= j < n ==> (#[trigger] self.entries()[j]) == pre.entries()[j]);
        assert(self.entries()[n].0 == k);
        assert forall|i: int, j: int|
            0 <= i < j < self.entries().len() implies (#[trigger] self.entries()[i]).0 != (
        #[trigger] self.entries()[j]).0 by {
            if j < n {
            } else {
                assert(self.entries()[j].0 == k);
                if self.entries()[i].0 == k {
                    assert(pre.has(k));
                }
            }
        }
        self.lemma_idx_is(k, n);
        assert forall|k2: Key| k2 != k implies self.has(k2) == pre.has(k2) by {
            if self.has(k2) {
                let j = self.idx(k2);
                assert(self.entries()[j].0 == k2);
                assert(j < n);
                assert(pre.has(k2));
            }
            if pre.has(k2) {
                let j = pre.idx(k2);
                assert(self.entries()[j].0 == k2);
                assert(self.has(k2));
            }
        }
        assert forall|k2: Key| k2 != k && pre.has(k2) implies self.val(k2) == pre.val(k2) by {
            let j = pre.idx(k2);
            assert(pre.entries()[j].0 == k2);
            assert(self.entries()[j].0 == k2);
            self.lemma_idx_is(k2, j);
            pre.lemma_idx_is(k2, j);
        }
    }

    /// Take the binding of `k` out of the store.
    pub fn remove(&mut self, k: Key) -> (r: Option<V>)
        requires
            old(self).wf(),
        ensures
            final(self).wf(),
            !final(self).has(k),
            forall|k2: Key| k2 != k ==> final(self).has(k2) == old(self).has(k2),
            forall|k2: Key|
                k2 != k && old(self).has(k2) ==> final(self).val(k2) == old(self).val(k2),
            match r {
                Some(v) => old(self).has(k) && v == old(self).val(k)
                    && final(self).entries().len() == old(self).entries().len() - 1,
                None => !old(self).has(k) && *final(self) == *old(self),
            },
    {
        let ghost pre = *self;
        let mut i: usize = 0;
        while i < self.pairs.len()
            invariant
                *self == pre,
                pre == *old(self),
                pre.wf(),
                i <= self.pairs@.len(),
                forall|j: int| 0 <= j < i ==> (#[trigger] self.pairs@[j]).0 != k,
            decreases self.pairs@.len() - i,
        {
            if self.pairs[i].0 == k {
                proof {
                    pre.lemma_idx_is(k, i as int);
                }
                let (_, v) = self.pairs.remove(i);
                proof {
                    self.lemma_remove_post(pre, k, i as int);
                }
                return Some(v);
            }
            i += 1;
        }
        None
    }

    /// Dropping the entry at the key's index keeps every other binding.
    proof fn lemma_remove_post(self, pre: Store<V>, k: Key, i: int)
        requires
            pre.wf(),
            0 <= i < pre.entries().len(),
            pre.entries()[i].0 == k,
            self.entries() == pre.entries().remove(i),
        ensures
            self.wf(),
            !self.has(k),
            forall|k2: Key| k2 != k ==> self.has(k2) == pre.has(k2),
            forall|k2: Key| k2 != k && pre.has(k2) ==> self.val(k2) == pre.val(k2),
    {
        let n = pre.entries().len() as int;
        assert(forall|j: int|
            0 <= j < i ==> (#[trigger] self.entries()[j]) == pre.entries()[j]);
        assert(forall|j: int|
            i <= j < n - 1 ==> (#[trigger] self.entries()[j]) == pre.entries()[j + 1]);
        assert forall|p: int, q: int|
            0 <= p < q < self.entries().len() implies (#[trigger] self.entries()[p]).0 != (
        #[trigger] self.entries()[q]).0 by {
            let p0 = if p < i {
                p
            } else {
                p + 1
            };
            let q0 = if q < i {
                q
            } else {
                q + 1
            };
            assert(self.entries()[p] == pre.entries()[p0]);
            assert(self.entries()[q] == pre.entries()[q0]);
        }
        assert forall|k2: Key| self.has(k2) && k2 != k implies pre.has(k2) by {
            let j = self.idx(k2);
            let j0 = if j < i {
                j
            } else {
                j + 1
            };
            assert(pre.entries()[j0].0 == k2);
            assert(pre.has(k2));
        }
        if self.has(k) {
            let j = self.idx(k);
            let j0 = if j < i {
                j
            } else {
                j + 1
            };
            assert(pre.entries()[j0].0 == k);
            pre.lemma_idx_is(k, i);
            pre.lemma_idx_is(k, j0);
        }
        assert forall|k2: Key| k2 != k && pre.has(k2) implies self.has(k2) && self.val(k2)
            == pre.val(k2) by {
            let j0 = pre.idx(k2);
            assert(pre.entries()[j0].0 == k2);
            assert(j0 != i);
            let j = if j0 < i {
                j0
            } else {
                j0 - 1
            };
            assert(self.entries()[j] == pre.entries()[j0]);
            self.lemma_idx_is(k2, j);
        }
    }

    /// Dropping the last entry keeps every remaining binding as it was.
    pub proof fn lemma_pop_pointwise(self, pre: Store<V>)
        requires
            pre.wf(),
            pre.entries().len() > 0,
            self.entries() == pre.entries().drop_last(),
        ensures
            forall|k: Key| #[trigger] self.has(k) ==> pre.has(k) && self.val(k) == pre.val(k),
            !self.has(pre.entries().last().0),
    {
        let n = pre.entries().len() as int;
        assert(forall|j: int|
            0 <= j < n - 1 ==> (#[trigger] self.entries()[j]) == pre.entries()[j]);
        assert forall|i1: int, j1: int|
            0 <= i1 < j1 < self.entries().len() implies (#[trigger] self.entries()[i1]).0 != (
        #[trigger] self.entries()[j1]).0 by {
            assert(self.entries()[i1] == pre.entries()[i1]);
            assert(self.entries()[j1] == pre.entries()[j1]);
        }
        assert forall|k: Key| #[trigger] self.has(k) implies pre.has(k) && self.val(k)
            == pre.val(k) by {
            let j = self.idx(k);
            assert(0 <= j < n - 1 && self.entries()[j].0 == k);
            assert(pre.entries()[j].0 == k);
            pre.lemma_idx_is(k, j);
            self.lemma_idx_is(k, j);
        }
        if self.has(pre.entries().last().0) {
            let j = self.idx(pre.entries().last().0);
            assert(0 <= j < n - 1 && self.entries()[j].0 == pre.entries().last().0);
            assert(pre.entries()[j].0 == pre.entries()[n - 1].0);
        }
    }

    /// Drop the entry stored last, if any: the primitive of chunked clearing.
    pub fn pop(&mut self) -> (r: Option<(Key, V)>)
        requires
            old(self).wf(),
        ensures
            final(self).wf(),
            old(self).entries().len() == 0 ==> r is None
                && final(self).entries() == old(self).entries(),
            old(self).entries().len() > 0 ==> match r {
                Some(e) => e == old(self).entries().last()
                    && final(self).entries() == old(self).entries().drop_last(),
                None => false,
            },
    {
        let r = self.pairs.pop();
        proof {
            if old(self).entries().len() > 0 {
                assert(self.pairs@ == old(self).pairs@.drop_last());
                assert(forall|j: int|
                    0 <= j < self.pairs@.len() ==> self.pairs@[j] == old(self).pairs@[j]);
            }
        }
        r
    }
}

} // verus!
