//! A map kept as a vector of entries in strictly increasing key order.

use vstd::prelude::*;
use crate::ordered::Ordered;

verus! {

pub struct Entry<K, V> {
    pub key: K,
    pub value: V,
}

/// A finite map whose entries are stored, and enumerated, in key order.
pub struct SortedMap<K, V> {
    entries: Vec<Entry<K, V>>,
}

/// Whether the keys of `entries` strictly increase.
pub open spec fn strictly_sorted<K: Ordered, V>(entries: Seq<Entry<K, V>>) -> bool {
    forall|i: int, j: int|
        0 <= i < j < entries.len() ==> K::before(
            #[trigger] entries[i].key.key(),
            #[trigger] entries[j].key.key(),
        )
}

/// The position in `entries` of the entry whose key is `k`, if there is one.
pub open spec fn position<K: Ordered, V>(entries: Seq<Entry<K, V>>, k: K::Key) -> Option<int> {
    if exists|i: int| 0 <= i < entries.len() && #[trigger] entries[i].key.key() == k {
        Some(choose|i: int| 0 <= i < entries.len() && #[trigger] entries[i].key.key() == k)
    } else {
        None
    }
}

/// In a strictly sorted sequence a key stands at one position at most.
pub proof fn lemma_position_unique<K: Ordered, V>(entries: Seq<Entry<K, V>>, i: int)
    requires
        strictly_sorted(entries),
        0 <= i < entries.len(),
    ensures
        position(entries, entries[i].key.key()) == Some(i),
{
    let k = entries[i].key.key();
    let j = position(entries, k).unwrap();
    K::lemma_irreflexive(k);
    if j < i {
        assert(K::before(entries[j].key.key(), entries[i].key.key()));
    } else if i < j {
        assert(K::before(entries[i].key.key(), entries[j].key.key()));
    }
}

impl<K: Ordered, V> SortedMap<K, V> {
    /// The entries, in key order.
    pub closed spec fn entries(&self) -> Seq<Entry<K, V>> {
        self.entries@
    }

    /// Keys strictly increase, so none occurs twice.
    pub open spec fn wf(&self) -> bool {
        strictly_sorted(self.entries())
    }

    pub open spec fn spec_len(&self) -> nat {
        self.entries().len()
    }

    pub open spec fn contains_key(&self, k: K::Key) -> bool {
        position(self.entries(), k) is Some
    }

    /// The value stored under `k`, if any.
    pub open spec fn lookup(&self, k: K::Key) -> Option<V> {
        match position(self.entries(), k) {
            Some(i) => Some(self.entries()[i].value),
            None => None,
        }
    }

    /// The map as a mathematical map from keys to values.
    pub open spec fn view(&self) -> Map<K::Key, V> {
        Map::new(|k: K::Key| self.contains_key(k), |k: K::Key| self.lookup(k).unwrap())
    }

    pub fn new() -> (m: Self)
        ensures
            m.wf(),
            m.entries() == Seq::<Entry<K, V>>::empty(),
            m@ == Map::<K::Key, V>::empty(),
    {
        let m = SortedMap { entries: Vec::new() };
        assert(m@ =~= Map::<K::Key, V>::empty());
        m
    }

    pub fn len(&self) -> (n: usize)
        ensures
            n == self.spec_len(),
    {
        self.entries.len()
    }

    /// The entry at position `i` of the key order.
    pub fn entry(&self, i: usize) -> (e: &Entry<K, V>)
        requires
            i < self.spec_len(),
        ensures
            *e == self.entries()[i as int],
    {
        &self.entries[i]
    }

    /// The first position whose key does not come before `key`.
    pub fn lower_bound(&self, key: &K) -> (i: usize)
        requires
            self.wf(),
        ensures
            i <= self.spec_len(),
            forall|j: int| 0 <= j < i ==> K::before(#[trigger] self.entries()[j].key.key(), key.key()),
            forall|j: int|
                i <= j < self.spec_len() ==> !K::before(
                    #[trigger] self.entries()[j].key.key(),
                    key.key(),
                ),
    {
        let mut lo: usize = 0;
        let mut hi: usize = self.entries.len();
        while lo < hi
            invariant
                self.wf(),
                lo <= hi <= self.entries.len(),
                forall|j: int|
                    0 <= j < lo ==> K::before(#[trigger] self.entries()[j].key.key(), key.key()),
                forall|j: int|
                    hi <= j < self.spec_len() ==> !K::before(
                        #[trigger] self.entries()[j].key.key(),
                        key.key(),
                    ),
            decreases hi - lo,
        {
            let mid = lo + (hi - lo) / 2;
            if self.entries[mid].key.precedes(key) {
                proof {
                    assert forall|j: int| 0 <= j < mid + 1 implies K::before(
                        #[trigger] self.entries()[j].key.key(),
                        key.key(),
                    ) by {
                        if j < mid {
                            assert(K::before(
                                self.entries()[j].key.key(),
                                self.entries()[mid as int].key.key(),
                            ));
                            K::lemma_transitive(
                                self.entries()[j].key.key(),
                                self.entries()[mid as int].key.key(),
                                key.key(),
                            );
                        }
                    }
                }
                lo = mid + 1;
            } else {
                proof {
                    assert forall|j: int| mid <= j < self.spec_len() implies !K::before(
                        #[trigger] self.entries()[j].key.key(),
                        key.key(),
                    ) by {
                        if mid < j && K::before(self.entries()[j].key.key(), key.key()) {
                            assert(K::before(
                                self.entries()[mid as int].key.key(),
                                self.entries()[j].key.key(),
                            ));
                            K::lemma_transitive(
                                self.entries()[mid as int].key.key(),
                                self.entries()[j].key.key(),
                                key.key(),
                            );
                        }
                    }
                }
                hi = mid;
            }
        }
        lo
    }

    /// The position of `key`, if the map holds it.
    pub fn find(&self, key: &K) -> (r: Option<usize>)
        requires
            self.wf(),
        ensures
            match r {
                Some(i) => position(self.entries(), key.key()) == Some(i as int),
                None => !self.contains_key(key.key()),
            },
    {
        let i = self.lower_bound(key);
        if i < self.entries.len() && !key.precedes(&self.entries[i].key) {
            proof {
                K::lemma_connected(self.entries()[i as int].key.key(), key.key());
                lemma_position_unique(self.entries(), i as int);
            }
            Some(i)
        } else {
            proof {
                if self.contains_key(key.key()) {
                    let j = position(self.entries(), key.key()).unwrap();
                    K::lemma_irreflexive(key.key());
                    if j > i {
                        K::lemma_transitive(
                            key.key(),
                            self.entries()[i as int].key.key(),
                            self.entries()[j].key.key(),
                        );
                    }
                }
            }
            None
        }
    }

    /// The value stored under `key`, if any.
    pub fn get(&self, key: &K) -> (r: Option<&V>)
        requires
            self.wf(),
        ensures
            match r {
                Some(v) => self.lookup(key.key()) == Some(*v),
                None => self.lookup(key.key()) is None,
            },
    {
        match self.find(key) {
            Some(i) => Some(&self.entries[i].value),
            None => None,
        }
    }

    /// Stores `value` under `key`, and returns the value it replaces, if any.
    pub fn insert(&mut self, key: K, value: V) -> (replaced: Option<V>)
        requires
            old(self).wf(),
        ensures
            final(self).wf(),
            final(self)@ == old(self)@.insert(key.key(), value),
            replaced == old(self).lookup(key.key()),
            forall|k: K::Key|
                k != key.key() ==> position(final(self).entries(), k) is Some == position(
                    old(self).entries(),
                    k,
                ) is Some,
    {
        let ghost before = self.entries();
        let ghost kk = key.key();
        let i = self.lower_bound(&key);
        if i < self.entries.len() && !key.precedes(&self.entries[i].key) {
            proof {
                K::lemma_connected(before[i as int].key.key(), kk);
                lemma_position_unique(before, i as int);
            }
            let mut held = Entry { key, value };
            let slot = &mut self.entries[i];
            std::mem::swap(slot, &mut held);
            proof {
                let after = self.entries();
                assert(after =~= before.update(i as int, Entry { key, value }));
                assert(strictly_sorted(after)) by {
                    assert forall|a: int, b: int| 0 <= a < b < after.len() implies K::before(
                        #[trigger] after[a].key.key(),
                        #[trigger] after[b].key.key(),
                    ) by {
                        assert(K::before(before[a].key.key(), before[b].key.key()));
                    }
                }
                assert forall|k: K::Key|
                    position(after, k) is Some == position(before, k) is Some by {
                    if position(after, k) is Some {
                        let j = position(after, k).unwrap();
                        assert(before[j].key.key() == k);
                    }
                    if position(before, k) is Some {
                        let j = position(before, k).unwrap();
                        assert(after[j].key.key() == k);
                    }
                }
                assert forall|k: K::Key| position(before, k) is Some implies #[trigger] position(
                    after,
                    k,
                ) == position(before, k) by {
                    let j = position(before, k).unwrap();
                    lemma_position_unique(after, j);
                }
                assert(self@ =~= old(self)@.insert(kk, value));
            }
            Some(held.value)
        } else {
            proof {
                K::lemma_irreflexive(kk);
                if position(before, kk) is Some {
                    let j = position(before, kk).unwrap();
                    if j > i {
                        K::lemma_transitive(kk, before[i as int].key.key(), before[j].key.key());
                    }
                }
            }
            self.entries.insert(i, Entry { key, value });
            proof {
                let after = self.entries();
                assert(after =~= before.insert(i as int, Entry { key, value }));
                assert(strictly_sorted(after)) by {
                    assert forall|a: int, b: int| 0 <= a < b < after.len() implies K::before(
                        #[trigger] after[a].key.key(),
                        #[trigger] after[b].key.key(),
                    ) by {
                        let a0 = if a < i { a } else { a - 1 };
                        let b0 = if b < i { b } else { b - 1 };
                        if a == i {
                            K::lemma_connected(kk, before[b0].key.key());
                            if b0 > i {
                                assert(K::before(before[i as int].key.key(), before[b0].key.key()));
                                if before[i as int].key.key() != kk {
                                    K::lemma_transitive(
                                        kk,
                                        before[i as int].key.key(),
                                        before[b0].key.key(),
                                    );
                                }
                            }
                        } else if b == i {
                        } else {
                            assert(K::before(before[a0].key.key(), before[b0].key.key()));
                        }
                    }
                }
                assert forall|k: K::Key| k != kk implies position(after, k) is Some == position(
                    before,
                    k,
                ) is Some by {
                    if position(after, k) is Some {
                        let j = position(after, k).unwrap();
                        let j0 = if j < i { j } else { j - 1 };
                        assert(before[j0].key.key() == k);
                    }
                    if position(before, k) is Some {
                        let j = position(before, k).unwrap();
                        let j1 = if j < i { j } else { j + 1 };
                        assert(after[j1].key.key() == k);
                    }
                }
                assert forall|k: K::Key| k != kk && position(before, k) is Some implies (
                #[trigger] position(after, k)) is Some && after[position(after, k).unwrap()].value
                    == before[position(before, k).unwrap()].value by {
                    let j = position(before, k).unwrap();
                    let j1 = if j < i { j } else { j + 1 };
                    lemma_position_unique(after, j1);
                }
                lemma_position_unique(after, i as int);
                assert(self@ =~= old(self)@.insert(kk, value));
            }
            None
        }
    }

    /// Takes the entry of `key` out of the map, if there is one.
    pub fn remove(&mut self, key: &K) -> (removed: Option<V>)
        requires
            old(self).wf(),
        ensures
            final(self).wf(),
            final(self)@ == old(self)@.remove(key.key()),
            removed == old(self).lookup(key.key()),
    {
        let ghost before = self.entries();
        let ghost kk = key.key();
        match self.find(key) {
            None => {
                assert(self@ =~= old(self)@.remove(kk));
                None
            },
            Some(i) => {
                let e = self.entries.remove(i);
                proof {
                    let after = self.entries();
                    assert(after =~= before.remove(i as int));
                    assert(strictly_sorted(after)) by {
                        assert forall|a: int, b: int| 0 <= a < b < after.len() implies K::before(
                            #[trigger] after[a].key.key(),
                            #[trigger] after[b].key.key(),
                        ) by {
                            let a0 = if a < i { a } else { a + 1 };
                            let b0 = if b < i { b } else { b + 1 };
                            assert(K::before(before[a0].key.key(), before[b0].key.key()));
                        }
                    }
                    lemma_position_unique(before, i as int);
                    assert(position(after, kk) is None) by {
                        if position(after, kk) is Some {
                            let j = position(after, kk).unwrap();
                            let j0 = if j < i { j } else { j + 1 };
                            lemma_position_unique(before, j0);
                        }
                    }
                    assert forall|k: K::Key| k != kk && position(before, k) is Some implies (
                    #[trigger] position(after, k)) is Some && after[position(
                        after,
                        k,
                    ).unwrap()].value == before[position(before, k).unwrap()].value by {
                        let j = position(before, k).unwrap();
                        let j1 = if j < i { j } else { j - 1 };
                        assert(after[j1].key.key() == k);
                        lemma_position_unique(after, j1);
                    }
                    assert forall|k: K::Key| k != kk && position(after, k) is Some implies (
                    #[trigger] position(before, k)) is Some by {
                        let j = position(after, k).unwrap();
                        let j0 = if j < i { j } else { j + 1 };
                        assert(before[j0].key.key() == k);
                    }
                    assert(self@ =~= old(self)@.remove(kk));
                }
                Some(e.value)
            },
        }
    }

    /// Every entry is in the map under its key, and every key of the map is
    /// the key of an entry.
    pub proof fn lemma_view(&self)
        requires
            self.wf(),
        ensures
            forall|i: int|
                0 <= i < self.spec_len() ==> self@.contains_key(
                    #[trigger] self.entries()[i].key.key(),
                ) && self@[self.entries()[i].key.key()] == self.entries()[i].value,
            forall|k: K::Key|
                self@.contains_key(k) ==> 0 <= (#[trigger] position(self.entries(), k)).unwrap()
                    < self.spec_len() && self.entries()[position(
                    self.entries(),
                    k,
                ).unwrap()].key.key() == k,
    {
        assert forall|i: int| 0 <= i < self.spec_len() implies self@.contains_key(
            #[trigger] self.entries()[i].key.key(),
        ) && self@[self.entries()[i].key.key()] == self.entries()[i].value by {
            lemma_position_unique(self.entries(), i);
        }
    }
}

} // verus!
