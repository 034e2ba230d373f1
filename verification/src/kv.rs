//! Byte-keyed key/value store.
//!
//! Backs both a plugin's variable store and its merged configuration. Keys
//! and values are byte strings, because both cross the guest boundary as raw
//! block contents. The store is an association list with unique keys; its
//! model is a `Map` from key bytes to value bytes.

use vstd::prelude::*;

use vstd::slice::slice_to_vec;

verus! {

/// Byte-for-byte equality of two byte strings.
pub fn bytes_eq(a: &[u8], b: &[u8]) -> (r: bool)
    ensures
        r <==> a@ == b@,
{
    if a.len() != b.len() {
        return false;
    }
    let n = a.len();
    let mut i: usize = 0;
    while i < n
        invariant
            n == a@.len(),
            n == b@.len(),
            i <= n,
            forall|k: int| 0 <= k < i ==> a@[k] == b@[k],
        decreases n - i,
    {
        if a[i] != b[i] {
            return false;
        }
        i += 1;
    }
    proof {
        assert(a@ =~= b@);
    }
    true
}

/// Total length of the values in an entry list.
pub open spec fn value_bytes_total(s: Seq<(Vec<u8>, Vec<u8>)>) -> int
    decreases s.len(),
{
    if s.len() == 0 {
        0
    } else {
        value_bytes_total(s.drop_last()) + s.last().1@.len()
    }
}

proof fn lemma_total_nonneg(s: Seq<(Vec<u8>, Vec<u8>)>)
    ensures
        0 <= value_bytes_total(s),
    decreases s.len(),
{
    if s.len() > 0 {
        lemma_total_nonneg(s.drop_last());
    }
}

proof fn lemma_total_take_step(s: Seq<(Vec<u8>, Vec<u8>)>, i: int)
    requires
        0 <= i < s.len(),
    ensures
        value_bytes_total(s.take(i + 1)) == value_bytes_total(s.take(i)) + s[i].1@.len(),
{
    assert(s.take(i + 1).drop_last() =~= s.take(i));
    assert(s.take(i + 1).last() == s[i]);
}

proof fn lemma_total_update(s: Seq<(Vec<u8>, Vec<u8>)>, i: int, x: (Vec<u8>, Vec<u8>))
    requires
        0 <= i < s.len(),
    ensures
        value_bytes_total(s.update(i, x)) == value_bytes_total(s) - s[i].1@.len() + x.1@.len(),
    decreases s.len(),
{
    if i == s.len() - 1 {
        assert(s.update(i, x).drop_last() =~= s.drop_last());
        assert(s.update(i, x).last() == x);
    } else {
        assert(s.update(i, x).drop_last() =~= s.drop_last().update(i, x));
        assert(s.update(i, x).last() == s.last());
        lemma_total_update(s.drop_last(), i, x);
    }
}

proof fn lemma_total_push(s: Seq<(Vec<u8>, Vec<u8>)>, x: (Vec<u8>, Vec<u8>))
    ensures
        value_bytes_total(s.push(x)) == value_bytes_total(s) + x.1@.len(),
{
    assert(s.push(x).drop_last() =~= s);
    assert(s.push(x).last() == x);
}

spec fn seq_has_key(s: Seq<(Vec<u8>, Vec<u8>)>, k: Seq<u8>) -> bool {
    exists|i: int| 0 <= i < s.len() && (#[trigger] s[i]).0@ == k
}

spec fn seq_key_idx(s: Seq<(Vec<u8>, Vec<u8>)>, k: Seq<u8>) -> int {
    choose|i: int| 0 <= i < s.len() && (#[trigger] s[i]).0@ == k
}

/// The key/value store.
pub struct KvStore {
    entries: Vec<(Vec<u8>, Vec<u8>)>,
}

impl KvStore {
    pub closed spec fn contains_key(self, k: Seq<u8>) -> bool {
        seq_has_key(self.entries@, k)
    }

    pub closed spec fn value_of(self, k: Seq<u8>) -> Seq<u8> {
        self.entries@[seq_key_idx(self.entries@, k)].1@
    }

    /// The store's contents: key bytes mapped to value bytes.
    pub open spec fn as_map(self) -> Map<Seq<u8>, Seq<u8>> {
        Map::new(|k: Seq<u8>| self.contains_key(k), |k: Seq<u8>| self.value_of(k))
    }

    /// Total serialized size of the store, counted over its value bytes.
    pub closed spec fn total_size(self) -> int {
        value_bytes_total(self.entries@)
    }

    /// Keys are unique, so the entry list really is a map.
    pub closed spec fn wf(self) -> bool {
        forall|i: int, j: int|
            #![trigger self.entries@[i], self.entries@[j]]
            0 <= i < j < self.entries@.len() ==> self.entries@[i].0@ != self.entries@[j].0@
    }

    proof fn lemma_key_unique(self, i: int, j: int)
        requires
            self.wf(),
            0 <= i < self.entries@.len(),
            0 <= j < self.entries@.len(),
            self.entries@[i].0@ == self.entries@[j].0@,
        ensures
            i == j,
    {
        if i < j {
            assert(self.entries@[i].0@ != self.entries@[j].0@);
        }
        if j < i {
            assert(self.entries@[j].0@ != self.entries@[i].0@);
        }
    }

    /// Entry `i` is what the map reports for its key.
    proof fn lemma_entry_at(self, i: int)
        requires
            self.wf(),
            0 <= i < self.entries@.len(),
        ensures
            self.as_map().dom().contains(self.entries@[i].0@),
            self.as_map()[self.entries@[i].0@] == self.entries@[i].1@,
    {
        let k = self.entries@[i].0@;
        assert(seq_has_key(self.entries@, k));
        let j = seq_key_idx(self.entries@, k);
        assert(0 <= j < self.entries@.len() && self.entries@[j].0@ == k);
        self.lemma_key_unique(i, j);
    }

    /// The map's entry at `k` comes from one row of the entry list.
    proof fn lemma_key_entry(self, k: Seq<u8>) -> (i: int)
        requires
            self.wf(),
            self.as_map().dom().contains(k),
        ensures
            0 <= i < self.entries@.len(),
            self.entries@[i].0@ == k,
            self.as_map()[k] == self.entries@[i].1@,
    {
        let i = seq_key_idx(self.entries@, k);
        assert(0 <= i < self.entries@.len() && self.entries@[i].0@ == k);
        i
    }

    /// An empty store.
    pub fn new() -> (r: Self)
        ensures
            r.wf(),
            r.as_map() == Map::<Seq<u8>, Seq<u8>>::empty(),
            r.total_size() == 0,
    {
        let r = KvStore { entries: Vec::new() };
        proof {
            assert(r.as_map() =~= Map::<Seq<u8>, Seq<u8>>::empty());
        }
        r
    }

    /// A copy of the value stored under `key`, or `None` if the key is absent.
    pub fn get(&self, key: &[u8]) -> (r: Option<Vec<u8>>)
        requires
            self.wf(),
        ensures
            match r {
                Some(v) => self.as_map().dom().contains(key@) && v@ == self.as_map()[key@],
                None => !self.as_map().dom().contains(key@),
            },
    {
        let n = self.entries.len();
        let mut i: usize = 0;
        while i < n
            invariant
                self.wf(),
                n == self.entries@.len(),
                i <= n,
                forall|k: int| 0 <= k < i ==> (#[trigger] self.entries@[k]).0@ != key@,
            decreases n - i,
        {
            let e = &self.entries[i];
            if bytes_eq(e.0.as_slice(), key) {
                proof {
                    self.lemma_entry_at(i as int);
                }
                return Some(slice_to_vec(e.1.as_slice()));
            }
            i += 1;
        }
        proof {
            if self.as_map().dom().contains(key@) {
                let j = self.lemma_key_entry(key@);
            }
        }
        None
    }

    /// Insert `value` under `key`, overwriting any previous value.
    pub fn set(&mut self, key: Vec<u8>, value: Vec<u8>)
        requires
            old(self).wf(),
        ensures
            final(self).wf(),
            final(self).as_map() == old(self).as_map().insert(key@, value@),
            final(self).total_size() == old(self).total_size() + value@.len() - (if old(
                self,
            ).as_map().dom().contains(key@) {
                old(self).as_map()[key@].len() as int
            } else {
                0
            }),
    {
        let n = self.entries.len();
        let mut i: usize = 0;
        while i < n
            invariant
                *self == *old(self),
                old(self).wf(),
                n == self.entries@.len(),
                i <= n,
                forall|k: int| 0 <= k < i ==> (#[trigger] self.entries@[k]).0@ != key@,
            decreases n - i,
        {
            let hit = {
                let e = &self.entries[i];
                bytes_eq(e.0.as_slice(), key.as_slice())
            };
            if hit {
                proof {
                    old(self).lemma_entry_at(i as int);
                }
                self.entries[i] = (key, value);
                proof {
                    self.lemma_after_set_at(*old(self), i as int);
                }
                return ;
            }
            i += 1;
        }
        proof {
            if old(self).as_map().dom().contains(key@) {
                let j = old(self).lemma_key_entry(key@);
            }
        }
        self.entries.push((key, value));
        proof {
            self.lemma_after_set_push(*old(self));
        }
    }

    /// Overwriting row `i` in place, key bytes unchanged, updates the map at
    /// that key alone.
    proof fn lemma_after_set_at(self, pre: Self, i: int)
        requires
            pre.wf(),
            0 <= i < pre.entries@.len(),
            self.entries@ == pre.entries@.update(i, self.entries@[i]),
            self.entries@[i].0@ == pre.entries@[i].0@,
        ensures
            self.wf(),
            self.as_map() == pre.as_map().insert(self.entries@[i].0@, self.entries@[i].1@),
            self.total_size() == pre.total_size() + self.entries@[i].1@.len()
                - pre.entries@[i].1@.len(),
    {
        let k0 = self.entries@[i].0@;
        assert forall|p: int, q: int|
            #![trigger self.entries@[p], self.entries@[q]]
            0 <= p < q < self.entries@.len() implies self.entries@[p].0@
            != self.entries@[q].0@ by {
            assert(self.entries@[p].0@ == pre.entries@[p].0@);
            assert(self.entries@[q].0@ == pre.entries@[q].0@);
        }
        let m1 = self.as_map();
        let m2 = pre.as_map().insert(k0, self.entries@[i].1@);
        self.lemma_entry_at(i);
        assert forall|k: Seq<u8>| #[trigger] m1.dom().contains(k) implies m2.dom().contains(k)
            && m1[k] == m2[k] by {
            if k != k0 {
                let p = self.lemma_key_entry(k);
                assert(pre.entries@[p].0@ == k);
                pre.lemma_entry_at(p);
            }
        }
        assert forall|k: Seq<u8>| #[trigger] m2.dom().contains(k) implies m1.dom().contains(
            k,
        ) by {
            if k != k0 {
                let p = pre.lemma_key_entry(k);
                assert(self.entries@[p].0@ == k);
                self.lemma_entry_at(p);
            }
        }
        assert(m1 =~= m2);
        lemma_total_update(pre.entries@, i, self.entries@[i]);
    }

    /// Appending a row with a fresh key adds exactly that binding.
    proof fn lemma_after_set_push(self, pre: Self)
        requires
            pre.wf(),
            self.entries@.len() == pre.entries@.len() + 1,
            self.entries@ == pre.entries@.push(self.entries@.last()),
            !pre.contains_key(self.entries@.last().0@),
        ensures
            self.wf(),
            self.as_map() == pre.as_map().insert(
                self.entries@.last().0@,
                self.entries@.last().1@,
            ),
            self.total_size() == pre.total_size() + self.entries@.last().1@.len(),
    {
        let n = pre.entries@.len() as int;
        let k0 = self.entries@.last().0@;
        assert forall|p: int, q: int|
            #![trigger self.entries@[p], self.entries@[q]]
            0 <= p < q < self.entries@.len() implies self.entries@[p].0@
            != self.entries@[q].0@ by {
            if q < n {
                assert(self.entries@[p].0@ == pre.entries@[p].0@);
                assert(self.entries@[q].0@ == pre.entries@[q].0@);
            } else {
                assert(self.entries@[p].0@ == pre.entries@[p].0@);
                if self.entries@[p].0@ == k0 {
                    assert(seq_has_key(pre.entries@, k0));
                    assert(false);
                }
            }
        }
        let m1 = self.as_map();
        let m2 = pre.as_map().insert(k0, self.entries@.last().1@);
        self.lemma_entry_at(n);
        assert forall|k: Seq<u8>| #[trigger] m1.dom().contains(k) implies m2.dom().contains(k)
            && m1[k] == m2[k] by {
            if k != k0 {
                let p = self.lemma_key_entry(k);
                assert(p < n);
                assert(pre.entries@[p].0@ == k);
                pre.lemma_entry_at(p);
            }
        }
        assert forall|k: Seq<u8>| #[trigger] m2.dom().contains(k) implies m1.dom().contains(
            k,
        ) by {
            if k != k0 {
                let p = pre.lemma_key_entry(k);
                assert(self.entries@[p].0@ == k);
                self.lemma_entry_at(p);
            }
        }
        assert(m1 =~= m2);
        lemma_total_push(pre.entries@, self.entries@.last());
    }

    /// Remove the binding under `key`; absent keys are a no-op.
    pub fn remove(&mut self, key: &[u8])
        requires
            old(self).wf(),
        ensures
            final(self).wf(),
            final(self).as_map() == old(self).as_map().remove(key@),
            final(self).total_size() == old(self).total_size() - (if old(
                self,
            ).as_map().dom().contains(key@) {
                old(self).as_map()[key@].len() as int
            } else {
                0
            }),
    {
        let n = self.entries.len();
        let mut i: usize = 0;
        while i < n
            invariant
                *self == *old(self),
                old(self).wf(),
                n == self.entries@.len(),
                i <= n,
                forall|k: int| 0 <= k < i ==> (#[trigger] self.entries@[k]).0@ != key@,
            decreases n - i,
        {
            let hit = {
                let e = &self.entries[i];
                bytes_eq(e.0.as_slice(), key)
            };
            if hit {
                proof {
                    old(self).lemma_entry_at(i as int);
                }
                self.entries.swap_remove(i);
                proof {
                    self.lemma_after_remove(*old(self), i as int, key@);
                }
                return ;
            }
            i += 1;
        }
        proof {
            if old(self).as_map().dom().contains(key@) {
                let j = old(self).lemma_key_entry(key@);
            }
            assert(self.as_map() =~= old(self).as_map().remove(key@));
        }
    }

    /// Swap-removing row `i` deletes exactly its key's binding.
    proof fn lemma_after_remove(self, pre: Self, i: int, k0: Seq<u8>)
        requires
            pre.wf(),
            0 <= i < pre.entries@.len(),
            pre.entries@[i].0@ == k0,
            self.entries@ == pre.entries@.update(i, pre.entries@.last()).drop_last(),
        ensures
            self.wf(),
            self.as_map() == pre.as_map().remove(k0),
            self.total_size() == pre.total_size() - pre.entries@[i].1@.len(),
    {
        let n = pre.entries@.len() as int;
        assert(self.entries@.len() == n - 1);
        assert forall|p: int| 0 <= p < n - 1 implies #[trigger] self.entries@[p] == (if p == i {
            pre.entries@[n - 1]
        } else {
            pre.entries@[p]
        }) by {}
        assert forall|p: int, q: int|
            #![trigger self.entries@[p], self.entries@[q]]
            0 <= p < q < self.entries@.len() implies self.entries@[p].0@
            != self.entries@[q].0@ by {
            let p2: int = if p == i {
                n - 1
            } else {
                p
            };
            let q2: int = if q == i {
                n - 1
            } else {
                q
            };
            assert(self.entries@[p] == pre.entries@[p2]);
            assert(self.entries@[q] == pre.entries@[q2]);
            if pre.entries@[p2].0@ == pre.entries@[q2].0@ {
                pre.lemma_key_unique(p2, q2);
                assert(false);
            }
        }
        let m1 = self.as_map();
        let m2 = pre.as_map().remove(k0);
        assert forall|k: Seq<u8>| #[trigger] m1.dom().contains(k) implies m2.dom().contains(k)
            && m1[k] == m2[k] by {
            let p = self.lemma_key_entry(k);
            let p2: int = if p == i {
                n - 1
            } else {
                p
            };
            assert(self.entries@[p] == pre.entries@[p2]);
            pre.lemma_entry_at(p2);
            if k == k0 {
                pre.lemma_key_unique(p2, i);
                assert(false);
            }
        }
        assert forall|k: Seq<u8>| #[trigger] m2.dom().contains(k) implies m1.dom().contains(
            k,
        ) by {
            let q = pre.lemma_key_entry(k);
            if q == i {
                assert(false);
            }
            if q == n - 1 {
                if i < n - 1 {
                    assert(self.entries@[i] == pre.entries@[n - 1]);
                    self.lemma_entry_at(i);
                } else {
                    assert(false);
                }
            } else {
                assert(self.entries@[q] == pre.entries@[q]);
                self.lemma_entry_at(q);
            }
        }
        assert(m1 =~= m2);
        lemma_total_update(pre.entries@, i, pre.entries@.last());
        assert(value_bytes_total(pre.entries@.update(i, pre.entries@.last())) == value_bytes_total(
            pre.entries@,
        ) - pre.entries@[i].1@.len() + pre.entries@.last().1@.len());
        assert(self.entries@ == pre.entries@.update(i, pre.entries@.last()).drop_last());
        assert(value_bytes_total(pre.entries@.update(i, pre.entries@.last()).drop_last())
            == value_bytes_total(pre.entries@.update(i, pre.entries@.last()))
            - pre.entries@.update(i, pre.entries@.last()).last().1@.len());
    }

    /// Whether the store's total value size exceeds `ceiling`.
    pub fn exceeds(&self, ceiling: u64) -> (r: bool)
        requires
            self.wf(),
            ceiling < u64::MAX,
        ensures
            r <==> self.total_size() > ceiling as int,
    {
        let n = self.entries.len();
        let mut acc: u64 = 0;
        let mut i: usize = 0;
        proof {
            assert(self.entries@.take(0) =~= Seq::<(Vec<u8>, Vec<u8>)>::empty());
        }
        while i < n
            invariant
                self.wf(),
                ceiling < u64::MAX,
                n == self.entries@.len(),
                i <= n,
                acc <= ceiling + 1,
                value_bytes_total(self.entries@.take(i as int)) <= ceiling as int ==> acc as int
                    == value_bytes_total(self.entries@.take(i as int)),
                value_bytes_total(self.entries@.take(i as int)) > ceiling as int ==> acc as int
                    == ceiling as int + 1,
            decreases n - i,
        {
            let l = self.entries[i].1.len() as u64;
            proof {
                lemma_total_take_step(self.entries@, i as int);
                lemma_total_nonneg(self.entries@.take(i as int));
            }
            if l >= ceiling + 1 - acc {
                acc = ceiling + 1;
            } else {
                acc = acc + l;
            }
            i += 1;
        }
        proof {
            assert(self.entries@.take(n as int) =~= self.entries@);
        }
        acc > ceiling
    }
}

} // verus!
