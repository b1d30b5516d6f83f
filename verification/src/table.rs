//! An address-keyed table with unique keys, used for all of the collector's
//! bookkeeping maps: the object model of the host heap, the forwarding table,
//! and the code-cache root tables.  A table is viewed in specifications as a
//! `Map<u64, V>`.

use vstd::prelude::*;

verus! {

/// One key/value pair of a `Table`.
pub struct TableEntry<V> {
    /// The key: an address, never zero.
    pub key: u64,
    /// The value stored for `key`.
    pub val: V,
}

/// A table keyed by nonzero addresses, with unique keys.
pub struct Table<V> {
    /// The entries, in insertion order; keys are pairwise distinct.
    pub entries: Vec<TableEntry<V>>,
}

impl<V> View for Table<V> {
    type V = Map<u64, V>;

    open spec fn view(&self) -> Map<u64, V> {
        Map::new(
            |k: u64| self.contains_key(k),
            |k: u64| self.entries@[self.idx_of(k)].val,
        )
    }
}

impl<V> Table<V> {
    /// Keys are pairwise distinct and never zero.
    pub open spec fn wf(self) -> bool {
        &&& forall|i: int, j: int|
            0 <= i < j < self.entries@.len() ==> (#[trigger] self.entries@[i].key)
                != (#[trigger] self.entries@[j].key)
        &&& forall|i: int| 0 <= i < self.entries@.len() ==> (#[trigger] self.entries@[i].key) != 0
    }

    /// Whether some entry carries the key `k`.
    pub open spec fn contains_key(self, k: u64) -> bool {
        exists|i: int| 0 <= i < self.entries@.len() && (#[trigger] self.entries@[i].key) == k
    }

    /// The index of the entry carrying `k`, when one exists.
    pub open spec fn idx_of(self, k: u64) -> int {
        choose|i: int| 0 <= i < self.entries@.len() && (#[trigger] self.entries@[i].key) == k
    }

    /// The entry at index `i` is the one the view reports for its key.
    pub proof fn lemma_entry_at(self, i: int)
        requires
            self.wf(),
            0 <= i < self.entries@.len(),
        ensures
            self.contains_key(self.entries@[i].key),
            self@.dom().contains(self.entries@[i].key),
            self.idx_of(self.entries@[i].key) == i,
            self@[self.entries@[i].key] == self.entries@[i].val,
    {
        let k = self.entries@[i].key;
        assert(self.contains_key(k));
        let j = self.idx_of(k);
        if j != i {
            if j < i {
                assert(self.entries@[j].key != self.entries@[i].key);
            } else {
                assert(self.entries@[i].key != self.entries@[j].key);
            }
        }
    }

    /// A key in the view's domain names some entry.
    pub proof fn lemma_contained_key(self, k: u64)
        requires
            self.wf(),
            self@.dom().contains(k),
        ensures
            0 <= self.idx_of(k) < self.entries@.len(),
            self.entries@[self.idx_of(k)].key == k,
            self@[k] == self.entries@[self.idx_of(k)].val,
            k != 0,
    {
        let i = self.idx_of(k);
        self.lemma_entry_at(i);
    }

    /// Zero is never a key.
    pub proof fn lemma_zero_absent(self)
        requires
            self.wf(),
        ensures
            !self@.dom().contains(0),
    {
        if self.contains_key(0) {
            let i = self.idx_of(0u64);
        }
    }

    /// An empty table.
    pub fn new() -> (r: Self)
        ensures
            r.wf(),
            r@ == Map::<u64, V>::empty(),
            r.entries@.len() == 0,
    {
        let r = Table { entries: Vec::new() };
        proof {
            assert(r@ =~= Map::<u64, V>::empty());
        }
        r
    }

    /// Look the key `k` up.
    pub fn get(&self, k: u64) -> (r: Option<&V>)
        requires
            self.wf(),
        ensures
            match r {
                Some(v) => self@.dom().contains(k) && *v == self@[k],
                None => !self@.dom().contains(k),
            },
    {
        let n = self.entries.len();
        let mut i: usize = 0;
        while i < n
            invariant
                n == self.entries@.len(),
                0 <= i <= n,
                self.wf(),
                forall|j: int| 0 <= j < i ==> (#[trigger] self.entries@[j].key) != k,
            decreases n - i,
        {
            if self.entries[i].key == k {
                proof {
                    self.lemma_entry_at(i as int);
                }
                return Some(&self.entries[i].val);
            }
            i = i + 1;
        }
        proof {
            if self.contains_key(k) {
                let j = self.idx_of(k);
            }
        }
        None
    }

    /// Store `v` under `k`, replacing any earlier value.
    pub fn set(&mut self, k: u64, v: V)
        requires
            old(self).wf(),
            k != 0,
        ensures
            final(self).wf(),
            final(self)@ == old(self)@.insert(k, v),
    {
        let ghost pre = *old(self);
        let n = self.entries.len();
        let mut i: usize = 0;
        while i < n
            invariant
                *self == *old(self),
                pre == *old(self),
                n == self.entries@.len(),
                0 <= i <= n,
                self.wf(),
                k != 0,
                forall|j: int| 0 <= j < i ==> (#[trigger] self.entries@[j].key) != k,
            decreases n - i,
        {
            if self.entries[i].key == k {
                self.entries[i] = TableEntry { key: k, val: v };
                proof {
                    assert forall|a: int, b: int|
                        0 <= a < b < self.entries@.len() implies (#[trigger] self.entries@[a].key)
                        != (#[trigger] self.entries@[b].key) by {
                        assert(pre.entries@[a].key != pre.entries@[b].key);
                    }
                    assert(self.wf());
                    assert forall|k2: u64| true implies self.contains_key(k2) == pre.contains_key(
                        k2,
                    ) by {
                        if self.contains_key(k2) {
                            let j = self.idx_of(k2);
                            if j == i {
                                assert(pre.entries@[i as int].key == k2);
                            }
                            assert(pre.contains_key(k2));
                        }
                        if pre.contains_key(k2) {
                            let j = pre.idx_of(k2);
                            assert(self.entries@[j].key == k2);
                        }
                    }
                    assert(pre.entries@[i as int].key == k);
                    assert(pre.contains_key(k));
                    assert forall|k2: u64| self@.dom().contains(k2) implies pre@.insert(
                        k,
                        v,
                    ).dom().contains(k2) && self@[k2] == pre@.insert(k, v)[k2] by {
                        assert(self.contains_key(k2));
                        let j = choose|j: int|
                            0 <= j < self.entries@.len() && (#[trigger] self.entries@[j].key) == k2;
                        self.lemma_entry_at(j);
                        assert(self.idx_of(k2) == j);
                        if k2 == k {
                            pre.lemma_entry_at(i as int);
                            if j != i {
                                assert(pre.entries@[j].key == k2);
                                pre.lemma_entry_at(j);
                            }
                            assert(j == i);
                            assert(self@[k2] == v);
                        } else {
                            assert(j != i);
                            assert(pre.entries@[j].key == k2);
                            pre.lemma_entry_at(j);
                            assert(self@[k2] == pre@[k2]);
                        }
                    }
                    assert forall|k2: u64| pre@.insert(k, v).dom().contains(k2) implies
                        self@.dom().contains(k2) by {
                        if k2 == k {
                            assert(self.entries@[i as int].key == k);
                            assert(self.contains_key(k2));
                        } else {
                            pre.lemma_contained_key(k2);
                            let j = pre.idx_of(k2);
                            assert(self.entries@[j].key == k2);
                            assert(self.contains_key(k2));
                        }
                    }
                    assert(self@ =~= pre@.insert(k, v));
                }
                return ;
            }
            i = i + 1;
        }
        self.entries.push(TableEntry { key: k, val: v });
        proof {
            let m = self.entries@.len() - 1;
            assert(self.entries@[m].key == k);
            assert forall|a: int, b: int|
                0 <= a < b < self.entries@.len() implies (#[trigger] self.entries@[a].key)
                != (#[trigger] self.entries@[b].key) by {
                if b < m {
                    assert(pre.entries@[a].key != pre.entries@[b].key);
                } else {
                    assert(self.entries@[a].key == pre.entries@[a].key);
                }
            }
            assert(self.wf());
            assert forall|k2: u64| self@.dom().contains(k2) implies pre@.insert(k, v).dom().contains(
                k2,
            ) && self@[k2] == pre@.insert(k, v)[k2] by {
                let j = self.idx_of(k2);
                self.lemma_entry_at(j);
                if j == m {
                    assert(k2 == k);
                } else {
                    assert(pre.entries@[j].key == k2);
                    pre.lemma_entry_at(j);
                    assert(k2 != k);
                }
            }
            assert forall|k2: u64| pre@.insert(k, v).dom().contains(k2) implies self@.dom().contains(
                k2,
            ) by {
                if k2 == k {
                    assert(self.entries@[m].key == k);
                } else {
                    let j = pre.idx_of(k2);
                    pre.lemma_contained_key(k2);
                    assert(self.entries@[j].key == k2);
                }
            }
            assert(self@ =~= pre@.insert(k, v));
        }
    }

    /// The number of entries; equal to the size of the view's domain.
    pub fn len(&self) -> (n: usize)
        requires
            self.wf(),
        ensures
            n == self.entries@.len(),
    {
        self.entries.len()
    }
}

} // verus!
