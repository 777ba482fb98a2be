//! A small map for keys that only know equality, kept as a list of entries.

use vstd::prelude::*;

verus! {

/// Keys that can be compared for equality.
pub trait TableKey: Sized + Copy {
    fn same(&self, other: &Self) -> (r: bool)
        ensures
            r == (*self == *other),
    ;
}

impl TableKey for u64 {
    fn same(&self, other: &Self) -> (r: bool) {
        *self == *other
    }
}

/// A finite map. No key occurs twice in its entries.
pub struct Table<K, V> {
    entries: Vec<(K, V)>,
}

/// Index of the entry for `k`, where there is one.
spec fn position<K, V>(entries: Seq<(K, V)>, k: K) -> int {
    choose|i: int| 0 <= i < entries.len() && (#[trigger] entries[i]).0 == k
}

spec fn has_key<K, V>(entries: Seq<(K, V)>, k: K) -> bool {
    exists|i: int| 0 <= i < entries.len() && (#[trigger] entries[i]).0 == k
}

/// The map that a list of entries stands for.
spec fn map_of<K, V>(entries: Seq<(K, V)>) -> Map<K, V> {
    Map::new(|k: K| has_key(entries, k), |k: K| entries[position(entries, k)].1)
}

spec fn distinct_keys<K, V>(entries: Seq<(K, V)>) -> bool {
    forall|i: int, j: int|
        0 <= i < entries.len() && 0 <= j < entries.len() && i != j ==> (#[trigger] entries[i]).0
            != (#[trigger] entries[j]).0
}

impl<K, V> View for Table<K, V> {
    type V = Map<K, V>;

    closed spec fn view(&self) -> Map<K, V> {
        map_of(self.entries@)
    }
}

impl<K: TableKey, V> Table<K, V> {
    /// No key occurs twice.
    pub closed spec fn wf(&self) -> bool {
        distinct_keys(self.entries@)
    }

    proof fn lemma_entry(&self, i: int)
        requires
            self.wf(),
            0 <= i < self.entries@.len(),
        ensures
            self@.contains_key(self.entries@[i].0),
            self@[self.entries@[i].0] == self.entries@[i].1,
    {
        let k = self.entries@[i].0;
        let p = position(self.entries@, k);
        assert(0 <= p < self.entries@.len() && self.entries@[p].0 == k);
    }

    /// The key set is finite and has one element per entry.
    proof fn lemma_len(&self)
        requires
            self.wf(),
        ensures
            self@.dom().finite(),
            self@.dom().len() == self.entries@.len(),
    {
        let keys = self.entries@.map_values(|e: (K, V)| e.0);
        assert(keys.no_duplicates()) by {
            assert forall|i: int, j: int|
                0 <= i < keys.len() && 0 <= j < keys.len() && i != j implies keys[i] != keys[j] by {
                assert(keys[i] == self.entries@[i].0 && keys[j] == self.entries@[j].0);
            }
        }
        keys.unique_seq_to_set();
        assert forall|k: K| self@.dom().contains(k) <==> keys.to_set().contains(k) by {
            if self@.dom().contains(k) {
                let p = position(self.entries@, k);
                assert(keys[p] == k);
            }
            if keys.to_set().contains(k) {
                let p = choose|p: int| 0 <= p < keys.len() && keys[p] == k;
                assert(self.entries@[p].0 == k);
            }
        }
        assert(self@.dom() =~= keys.to_set());
    }

    pub fn new() -> (r: Self)
        ensures
            r.wf(),
            r@ == Map::<K, V>::empty(),
    {
        let r = Table { entries: Vec::new() };
        assert(r@ =~= Map::<K, V>::empty());
        r
    }

    pub fn len(&self) -> (r: usize)
        requires
            self.wf(),
        ensures
            self@.dom().finite(),
            r == self@.len(),
    {
        proof {
            self.lemma_len();
        }
        self.entries.len()
    }

    pub fn is_empty(&self) -> (r: bool)
        requires
            self.wf(),
        ensures
            r == (self@ == Map::<K, V>::empty()),
    {
        let r = self.entries.len() == 0;
        proof {
            if r {
                assert(self@ =~= Map::<K, V>::empty());
            } else {
                self.lemma_entry(0);
            }
        }
        r
    }

    fn find(&self, k: &K) -> (r: Option<usize>)
        ensures
            match r {
                Some(i) => i < self.entries@.len() && self.entries@[i as int].0 == *k,
                None => !has_key(self.entries@, *k),
            },
    {
        let mut i: usize = 0;
        while i < self.entries.len()
            invariant
                i <= self.entries@.len(),
                forall|j: int| 0 <= j < i ==> (#[trigger] self.entries@[j]).0 != *k,
            decreases self.entries@.len() - i,
        {
            if self.entries[i].0.same(k) {
                return Some(i);
            }
            i += 1;
        }
        None
    }

    pub fn contains(&self, k: &K) -> (r: bool)
        ensures
            r == self@.contains_key(*k),
    {
        match self.find(k) {
            Some(i) => {
                assert(has_key(self.entries@, *k)) by {
                    assert(self.entries@[i as int].0 == *k);
                }
                true
            },
            None => false,
        }
    }

    pub fn get(&self, k: &K) -> (r: Option<&V>)
        requires
            self.wf(),
        ensures
            match r {
                Some(v) => self@.contains_key(*k) && *v == self@[*k],
                None => !self@.contains_key(*k),
            },
    {
        match self.find(k) {
            Some(i) => {
                proof {
                    self.lemma_entry(i as int);
                }
                Some(&self.entries[i].1)
            },
            None => None,
        }
    }

    /// Access to the value under `k`; the map changes at `k` alone.
    pub fn get_mut(&mut self, k: &K) -> (r: &mut V)
        requires
            old(self).wf(),
            old(self)@.contains_key(*k),
        ensures
            *r == old(self)@[*k],
            final(self).wf(),
            final(self)@ == old(self)@.insert(*k, *final(r)),
    {
        match self.find(k) {
            Some(i) => {
                proof {
                    self.lemma_entry(i as int);
                    lemma_update(self.entries@, i as int);
                }
                &mut self.entries[i].1
            },
            None => {
                assert(false);
                &mut self.entries[0].1
            },
        }
    }

    /// Adds an entry for a key that has none.
    pub fn insert(&mut self, k: K, v: V)
        requires
            old(self).wf(),
            !old(self)@.contains_key(k),
        ensures
            final(self).wf(),
            final(self)@ == old(self)@.insert(k, v),
    {
        self.entries.push((k, v));
        proof {
            let before = old(self).entries@;
            let after = self.entries@;
            assert forall|i: int| 0 <= i < before.len() implies (#[trigger] before[i]).0 != k by {}
            assert(self.wf());
            assert forall|x: K| self@.contains_key(x) <==> old(self)@.insert(k, v).contains_key(
                x,
            ) by {
                if has_key(before, x) {
                    let p = position(before, x);
                    assert(after[p].0 == x);
                }
                assert(after[before.len() as int].0 == k);
            }
            assert forall|x: K| self@.contains_key(x) implies self@[x] == old(self)@.insert(
                k,
                v,
            )[x] by {
                let p = position(after, x);
                assert(0 <= p < after.len() && after[p].0 == x);
                if p < before.len() {
                    assert(before[p].0 == x);
                    old(self).lemma_entry(p);
                }
            }
            assert(self@ =~= old(self)@.insert(k, v));
        }
    }

    /// Takes the entry for `k` out.
    pub fn remove(&mut self, k: &K) -> (r: V)
        requires
            old(self).wf(),
            old(self)@.contains_key(*k),
        ensures
            r == old(self)@[*k],
            final(self).wf(),
            final(self)@ == old(self)@.remove(*k),
    {
        let at: usize = match self.find(k) {
            Some(i) => i,
            None => {
                assert(false);
                0
            },
        };
        proof {
            self.lemma_entry(at as int);
        }
        let e = self.entries.remove(at);
        proof {
            let before = old(self).entries@;
            let after = self.entries@;
            assert forall|i: int| 0 <= i < after.len() implies #[trigger] after[i] == before[if i
                < at {
                i
            } else {
                i + 1
            }] by {}
            assert(self.wf());
            assert forall|x: K| self@.contains_key(x) <==> old(self)@.remove(*k).contains_key(
                x,
            ) by {
                if has_key(before, x) && x != *k {
                    let p = position(before, x);
                    assert(before[p].0 == x);
                    assert(after[if p < at {
                        p
                    } else {
                        p - 1
                    }].0 == x);
                }
                if has_key(after, x) {
                    let p = position(after, x);
                    assert(after[p].0 == x);
                    assert(before[if p < at {
                        p
                    } else {
                        p + 1
                    }].0 == x);
                }
            }
            assert forall|x: K| self@.contains_key(x) implies self@[x] == old(self)@.remove(
                *k,
            )[x] by {
                let p = position(after, x);
                assert(0 <= p < after.len() && after[p].0 == x);
                old(self).lemma_entry(if p < at {
                    p
                } else {
                    p + 1
                });
            }
            assert(self@ =~= old(self)@.remove(*k));
        }
        e.1
    }
}

/// Replacing the value of the entry at `i` changes the map at its key alone.
proof fn lemma_update<K, V>(entries: Seq<(K, V)>, i: int)
    requires
        0 <= i < entries.len(),
        distinct_keys(entries),
    ensures
        forall|e: (K, V)|
            e.0 == entries[i].0 ==> #[trigger] distinct_keys(entries.update(i, e)),
        forall|e: (K, V)|
            e.0 == entries[i].0 ==> #[trigger] map_of(entries.update(i, e)) == map_of(
                entries,
            ).insert(e.0, e.1),
{
    assert forall|e: (K, V)| e.0 == entries[i].0 implies #[trigger] map_of(entries.update(i, e))
        == map_of(entries).insert(e.0, e.1) && distinct_keys(entries.update(i, e)) by {
        let after = entries.update(i, e);
        assert forall|k: K| has_key(after, k) <==> has_key(entries, k) by {
            if has_key(after, k) {
                assert(entries[position(after, k)].0 == k);
            }
            if has_key(entries, k) {
                assert(after[position(entries, k)].0 == k);
            }
        }
        assert(after[i].0 == e.0);
        assert forall|k: K| has_key(after, k) implies map_of(after)[k] == map_of(entries).insert(
            e.0,
            e.1,
        )[k] by {
            let p = position(after, k);
            let q = position(entries, k);
            assert(after[p].0 == k && entries[q].0 == k);
            assert(entries[p].0 == k);
            assert(p == q);
        }
        assert(map_of(after) =~= map_of(entries).insert(e.0, e.1));
    }
}

} // verus!
