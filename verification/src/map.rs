//! The ordered map itself.

use vstd::prelude::*;
use std::hash::{BuildHasher, Hash};
use hashbrown::DefaultHashBuilder;
use crate::arena::Core;
use crate::entry::{Entry, OccupiedEntry, VacantEntry};
use crate::hashing::{default_hash_builder, hash_key};
use crate::index::MAX_ENTRIES;
use crate::iter::{Drain, Iter, IterMut, Keys, Values, ValuesMut};
use crate::model::{
    absent_under, accepts, after_insert, after_inserts, after_remove, after_write, all_located,
    found, hashes_after_insert, hashes_after_inserts, held_under, lemma_held_is_found, located,
    spare_after_insert, spare_after_inserts, spare_after_remove, value_at,
};
use crate::raw_entry::{RawEntryBuilder, RawEntryBuilderMut, RawEntryMut};

verus! {

/// A hash map whose entries stand in an order of their own, from front
/// (oldest) to back (newest).
///
/// Its view is the sequence of its `(key, value)` pairs in that order.
pub struct LinkedHashMap<K, V, S = DefaultHashBuilder> {
    core: Core<K, V>,
    hash_builder: S,
}

impl<K, V, S> View for LinkedHashMap<K, V, S> {
    type V = Seq<(K, V)>;

    open spec fn view(&self) -> Seq<(K, V)> {
        self.arena()@
    }
}

impl<K, V> LinkedHashMap<K, V> {
    /// An empty map with hashbrown's default hash strategy.
    pub fn new() -> (r: Self)
        ensures
            r.wf(),
            r@ == Seq::<(K, V)>::empty(),
            r.hashes() == Seq::<u64>::empty(),
            !r.anchored(),
            r.spare_len() == 0,
    {
        Self { hash_builder: default_hash_builder(), core: Core::new() }
    }

    /// An empty map with hashbrown's default hash strategy, whose index has
    /// room for `capacity` entries.
    pub fn with_capacity(capacity: usize) -> (r: Self)
        requires
            capacity <= MAX_ENTRIES,
        ensures
            r.wf(),
            r@ == Seq::<(K, V)>::empty(),
            r.hashes() == Seq::<u64>::empty(),
            !r.anchored(),
            r.spare_len() == 0,
    {
        Self { hash_builder: default_hash_builder(), core: Core::with_capacity(capacity) }
    }
}

impl<K, V, S> LinkedHashMap<K, V, S> {
    /// The arena behind the map.
    pub closed spec fn arena(&self) -> Core<K, V> {
        self.core
    }

    /// The hash strategy of the map.
    pub closed spec fn hasher(&self) -> S {
        self.hash_builder
    }

    /// The invariant of the map: that of its arena.
    pub open spec fn wf(&self) -> bool {
        self.arena().wf()
    }

    /// The hash under which each entry is filed, from front to back.
    pub open spec fn hashes(&self) -> Seq<u64> {
        self.arena().hashes()
    }

    /// Whether the anchor of the order exists. The first insertion makes
    /// it; only `drain` gives it up again.
    pub open spec fn anchored(&self) -> bool {
        self.arena().anchored()
    }

    /// The number of vacated slots that the map keeps for the insertions to
    /// come.
    pub open spec fn spare_len(&self) -> nat {
        self.arena().spare_len()
    }

    /// An empty map with the hash strategy given.
    pub fn with_hasher(hash_builder: S) -> (r: Self)
        ensures
            r.wf(),
            r@ == Seq::<(K, V)>::empty(),
            r.hashes() == Seq::<u64>::empty(),
            r.hasher() == hash_builder,
            !r.anchored(),
            r.spare_len() == 0,
    {
        Self { hash_builder, core: Core::new() }
    }

    /// An empty map with the hash strategy given, whose index has room for
    /// `capacity` entries.
    pub fn with_capacity_and_hasher(capacity: usize, hash_builder: S) -> (r: Self)
        requires
            capacity <= MAX_ENTRIES,
        ensures
            r.wf(),
            r@ == Seq::<(K, V)>::empty(),
            r.hashes() == Seq::<u64>::empty(),
            r.hasher() == hash_builder,
            !r.anchored(),
            r.spare_len() == 0,
    {
        Self { hash_builder, core: Core::with_capacity(capacity) }
    }

    /// Makes room in the index for `additional` more entries.
    pub fn reserve(&mut self, additional: usize)
        requires
            old(self).wf(),
            old(self)@.len() + additional <= MAX_ENTRIES,
        ensures
            final(self).wf(),
            final(self)@ == old(self)@,
            final(self).hashes() == old(self).hashes(),
            final(self).hasher() == old(self).hasher(),
            final(self).anchored() == old(self).anchored(),
            final(self).spare_len() == old(self).spare_len(),
    {
        self.core.reserve(additional);
    }

    /// Gives up the storage that the entries held do not need: what the
    /// index can spare, and every vacated slot.
    pub fn shrink_to_fit(&mut self)
        requires
            old(self).wf(),
        ensures
            final(self).wf(),
            final(self)@ == old(self)@,
            final(self).hashes() == old(self).hashes(),
            final(self).hasher() == old(self).hasher(),
            final(self).anchored() == old(self).anchored(),
            final(self).spare_len() == 0,
    {
        self.core.shrink_to_fit();
    }

    /// The number of entries.
    pub fn len(&self) -> (r: usize)
        requires
            self.wf(),
        ensures
            r == self@.len(),
    {
        self.core.len()
    }

    /// Whether the map holds no entry.
    pub fn is_empty(&self) -> (r: bool)
        requires
            self.wf(),
        ensures
            r == (self@.len() == 0),
    {
        self.len() == 0
    }

    /// Drops every entry. The anchor stays where there is one, and the
    /// index keeps its storage. The slots of the entries join the vacated
    /// ones and are used again by the insertions to come; storage is given
    /// up by `shrink_to_fit` only.
    pub fn clear(&mut self)
        requires
            old(self).wf(),
        ensures
            final(self).wf(),
            final(self)@ == Seq::<(K, V)>::empty(),
            final(self).hashes() == Seq::<u64>::empty(),
            final(self).hasher() == old(self).hasher(),
            final(self).anchored() == old(self).anchored(),
            final(self).spare_len() == old(self).spare_len() + old(self)@.len(),
    {
        self.core.clear();
    }

    /// The entries from front to back, for reading.
    pub fn iter(&self) -> (r: Iter<'_, K, V>)
        requires
            self.wf(),
        ensures
            r.wf(),
            r@ == self@,
    {
        Iter::new(&self.core)
    }

    /// The entries from front to back, with their values for writing. What
    /// is written through the iterator is written to the map; order, keys
    /// and hashes stay.
    pub fn iter_mut(&mut self) -> (r: IterMut<'_, K, V>)
        requires
            old(self).wf(),
        ensures
            r.wf(),
            r.arena() == old(self).arena(),
            r.start() == 0,
            r@ == old(self)@,
            final(self).arena() == *final(r.core),
            final(self).hasher() == old(self).hasher(),
    {
        IterMut::new(&mut self.core)
    }

    /// Hands out every entry, from front to back, and leaves the map as a
    /// new one is: empty, without anchor, its index without storage.
    pub fn drain(&mut self) -> (r: Drain<K, V>)
        requires
            old(self).wf(),
        ensures
            r.wf(),
            r@ == old(self)@,
            r.spare_len() == old(self).spare_len(),
            final(self).wf(),
            final(self)@ == Seq::<(K, V)>::empty(),
            final(self).hashes() == Seq::<u64>::empty(),
            final(self).hasher() == old(self).hasher(),
            !final(self).anchored(),
            final(self).spare_len() == 0,
    {
        let mut taken = Core::new();
        std::mem::swap(&mut self.core, &mut taken);
        Drain::new(taken)
    }

    /// The keys from front to back.
    pub fn keys(&self) -> (r: Keys<'_, K, V>)
        requires
            self.wf(),
        ensures
            r.wf(),
            r@ == self@.map_values(|kv: (K, V)| kv.0),
    {
        Keys::new(self.iter())
    }

    /// The values from front to back.
    pub fn values(&self) -> (r: Values<'_, K, V>)
        requires
            self.wf(),
        ensures
            r.wf(),
            r@ == self@.map_values(|kv: (K, V)| kv.1),
    {
        Values::new(self.iter())
    }

    /// The values from front to back, for writing. What is written through
    /// the iterator is written to the map; order, keys and hashes stay.
    pub fn values_mut(&mut self) -> (r: ValuesMut<'_, K, V>)
        requires
            old(self).wf(),
        ensures
            r.wf(),
            r.arena() == old(self).arena(),
            r.start() == 0,
            r@ == old(self)@.map_values(|kv: (K, V)| kv.1),
            final(self).arena() == *final(r.inner.core),
            final(self).hasher() == old(self).hasher(),
    {
        ValuesMut { inner: self.iter_mut() }
    }

    /// The oldest entry.
    pub fn front(&self) -> (r: Option<(&K, &V)>)
        requires
            self.wf(),
        ensures
            match r {
                Some(kv) => self@.len() > 0 && (*kv.0, *kv.1) == self@[0],
                None => self@.len() == 0,
            },
    {
        if self.is_empty() {
            return None;
        }
        proof {
            self.core.lemma_order();
            self.core.lemma_slot_at(0);
        }
        let front = self.core.front_slot();
        Some(self.core.key_value(front))
    }

    /// The newest entry.
    pub fn back(&mut self) -> (r: Option<(&K, &V)>)
        requires
            old(self).wf(),
        ensures
            *final(self) == *old(self),
            match r {
                Some(kv) => old(self)@.len() > 0 && (*kv.0, *kv.1) == old(self)@.last(),
                None => old(self)@.len() == 0,
            },
    {
        if self.is_empty() {
            return None;
        }
        proof {
            self.core.lemma_order();
            self.core.lemma_slot_at(self.core.order().len() - 1);
        }
        let back = self.core.back_slot();
        Some(self.core.key_value(back))
    }

    /// Takes the oldest entry out and returns it.
    pub fn pop_front(&mut self) -> (r: Option<(K, V)>)
        requires
            old(self).wf(),
        ensures
            final(self).wf(),
            final(self).hasher() == old(self).hasher(),
            final(self).anchored() == old(self).anchored(),
            final(self).spare_len() == if r is Some {
                old(self).spare_len() + 1
            } else {
                old(self).spare_len()
            },
            match r {
                Some(kv) => {
                    &&& old(self)@.len() > 0
                    &&& kv == old(self)@[0]
                    &&& final(self)@ == old(self)@.drop_first()
                    &&& final(self).hashes() == old(self).hashes().drop_first()
                },
                None => {
                    &&& old(self)@.len() == 0
                    &&& final(self)@ == old(self)@
                    &&& final(self).hashes() == old(self).hashes()
                },
            },
    {
        if self.is_empty() {
            return None;
        }
        proof {
            self.core.lemma_order();
            self.core.lemma_slot_at(0);
        }
        let front = self.core.front_slot();
        let r = self.core.remove(front);
        proof {
            assert(old(self)@.remove(0) =~= old(self)@.drop_first());
            assert(old(self).hashes().remove(0) =~= old(self).hashes().drop_first());
        }
        Some(r)
    }

    /// Takes the newest entry out and returns it.
    pub fn pop_back(&mut self) -> (r: Option<(K, V)>)
        requires
            old(self).wf(),
        ensures
            final(self).wf(),
            final(self).hasher() == old(self).hasher(),
            final(self).anchored() == old(self).anchored(),
            final(self).spare_len() == if r is Some {
                old(self).spare_len() + 1
            } else {
                old(self).spare_len()
            },
            match r {
                Some(kv) => {
                    &&& old(self)@.len() > 0
                    &&& kv == old(self)@.last()
                    &&& final(self)@ == old(self)@.drop_last()
                    &&& final(self).hashes() == old(self).hashes().drop_last()
                },
                None => {
                    &&& old(self)@.len() == 0
                    &&& final(self)@ == old(self)@
                    &&& final(self).hashes() == old(self).hashes()
                },
            },
    {
        if self.is_empty() {
            return None;
        }
        proof {
            self.core.lemma_order();
            self.core.lemma_slot_at(self.core.order().len() - 1);
        }
        let back = self.core.back_slot();
        let r = self.core.remove(back);
        proof {
            let n = old(self)@.len() - 1;
            assert(old(self)@.remove(n) =~= old(self)@.drop_last());
            assert(old(self).hashes().remove(n) =~= old(self).hashes().drop_last());
        }
        Some(r)
    }
}

impl<K, V, S> LinkedHashMap<K, V, S> where S: BuildHasher {
    /// Borrows the map for a search by hash and predicate.
    pub fn raw_entry(&self) -> (r: RawEntryBuilder<'_, K, V, S>)
        ensures
            *r.core == self.arena(),
            *r.hash_builder == self.hasher(),
    {
        RawEntryBuilder { hash_builder: &self.hash_builder, core: &self.core }
    }

    /// Borrows the map for a search by hash and predicate that may go on to
    /// change the map. What is done through the builder, and through the
    /// entry it leads to, is done to the map.
    pub fn raw_entry_mut(&mut self) -> (r: RawEntryBuilderMut<'_, K, V, S>)
        ensures
            r.arena() == old(self).arena(),
            *r.hash_builder == old(self).hasher(),
            final(self).arena() == *final(r.core),
            final(self).hasher() == old(self).hasher(),
    {
        RawEntryBuilderMut { hash_builder: &self.hash_builder, core: &mut self.core }
    }
}

impl<K, V, S> LinkedHashMap<K, V, S> where K: Eq + Hash, S: BuildHasher {
    /// Looks `key` up as `get` does, and borrows the map for what is to be
    /// done with the entry found, or with the key where none was found.
    pub fn entry(&mut self, key: K) -> (r: Entry<'_, K, V, S>)
        requires
            old(self).wf(),
        ensures
            final(self).hasher() == old(self).hasher(),
            match r {
                Entry::Occupied(e) => {
                    &&& e.key == key
                    &&& e.wf()
                    &&& e.arena() == old(self).arena()
                    &&& accepts(&key, &e@[e.position()].0)
                    &&& final(self).arena() == *final(e.raw_entry.core)
                },
                Entry::Vacant(v) => {
                    &&& v.key == key
                    &&& v.arena() == old(self).arena()
                    &&& *v.raw_entry.hash_builder == old(self).hasher()
                    &&& final(self).arena() == *final(v.raw_entry.core)
                    &&& exists|h: u64| absent_under(old(self)@, old(self).hashes(), h, &key)
                },
            },
    {
        match self.raw_entry_mut().from_key(&key) {
            RawEntryMut::Occupied(occupied) => Entry::Occupied(
                OccupiedEntry { key, raw_entry: occupied },
            ),
            RawEntryMut::Vacant(vacant) => {
                proof {
                    assert(vacant.arena()@ == old(self)@);
                    assert(vacant.arena().hashes() == old(self).hashes());
                }
                Entry::Vacant(VacantEntry { key, raw_entry: vacant })
            },
        }
    }

    /// The value of an entry whose key `k` compares equal to, found under
    /// the hash that the map's strategy gives `k`. See `get_hashed`.
    pub fn get(&self, k: &K) -> (r: Option<&V>)
        requires
            self.wf(),
        ensures
            exists|h: u64, at: Option<int>|
                located(self@, self.hashes(), h, k, at) && (r matches Some(v) ==> value_at(
                    self@,
                    at,
                ) == Some(*v)) && (r is None ==> at is None),
    {
        let hash = hash_key(&self.hash_builder, k);
        self.get_hashed(hash, k)
    }

    /// The value of an entry whose key `k` compares equal to, found under
    /// `hash`.
    ///
    /// A value that comes back is that of an entry whose key `k` compares
    /// equal to. Where none comes back, `k` compares unequal to the key of
    /// every entry filed under `hash`.
    pub fn get_hashed(&self, hash: u64, k: &K) -> (r: Option<&V>)
        requires
            self.wf(),
        ensures
            exists|at: Option<int>|
                located(self@, self.hashes(), hash, k, at) && (r matches Some(v) ==> value_at(
                    self@,
                    at,
                ) == Some(*v)) && (r is None ==> at is None),
    {
        let builder = self.raw_entry();
        proof {
            assert(builder.core@ == self@);
            assert(builder.core.hashes() == self.hashes());
        }
        match builder.from_key_hashed_nocheck(hash, k) {
            Some(kv) => {
                proof {
                    let i = choose|i: int|
                        0 <= i < self@.len() && #[trigger] self@[i] == (*kv.0, *kv.1) && accepts(
                            k,
                            &self@[i].0,
                        );
                    assert(located(self@, self.hashes(), hash, k, Some(i)));
                }
                Some(kv.1)
            },
            None => {
                proof {
                    assert(located(self@, self.hashes(), hash, k, None));
                }
                None
            },
        }
    }

    /// An entry whose key `k` compares equal to, found under the hash that
    /// the map's strategy gives `k`.
    pub fn get_key_value(&self, k: &K) -> (r: Option<(&K, &V)>)
        requires
            self.wf(),
        ensures
            match r {
                Some(kv) => found(self@, k, (*kv.0, *kv.1)),
                None => exists|h: u64| absent_under(self@, self.hashes(), h, k),
            },
    {
        let builder = self.raw_entry();
        proof {
            assert(builder.core@ == self@);
            assert(builder.core.hashes() == self.hashes());
        }
        builder.from_key(k)
    }

    /// Whether the search of `get` finds an entry for `k`.
    pub fn contains_key(&self, k: &K) -> (r: bool)
        requires
            self.wf(),
        ensures
            exists|h: u64, at: Option<int>|
                located(self@, self.hashes(), h, k, at) && r == (at is Some),
    {
        self.get(k).is_some()
    }

    /// The value of an entry whose key `k` compares equal to, for writing.
    /// The search is that of `get`; the order stays as it is.
    pub fn get_mut(&mut self, k: &K) -> (r: Option<&mut V>)
        requires
            old(self).wf(),
        ensures
            final(self).wf(),
            final(self).hasher() == old(self).hasher(),
            final(self).hashes() == old(self).hashes(),
            final(self).anchored() == old(self).anchored(),
            final(self).spare_len() == old(self).spare_len(),
            exists|h: u64, at: Option<int>|
                located(old(self)@, old(self).hashes(), h, k, at) && match r {
                    Some(v) => at is Some && value_at(old(self)@, at) == Some(*v) && final(self)@
                        == after_write(old(self)@, at, *final(v)),
                    None => at is None && final(self)@ == old(self)@,
                },
    {
        match self.raw_entry_mut().from_key(k) {
            RawEntryMut::Occupied(occupied) => {
                let ghost i = occupied.position();
                proof {
                    occupied.lemma_position();
                    occupied.arena().lemma_order();
                    assert(occupied@ == old(self)@);
                    assert(occupied.hashes() == old(self).hashes());
                    assert(located(old(self)@, old(self).hashes(), 0, k, Some(i)));
                }
                Some(occupied.into_mut())
            },
            RawEntryMut::Vacant(vacant) => {
                proof {
                    assert(vacant.arena()@ == old(self)@);
                    assert(vacant.arena().hashes() == old(self).hashes());
                    let h = choose|h: u64| absent_under(old(self)@, old(self).hashes(), h, k);
                    assert(located(old(self)@, old(self).hashes(), h, k, None));
                }
                None
            },
        }
    }

    /// Puts `v` under `k` and makes that entry the newest, with the hash
    /// that the map's strategy gives `k`. See `insert_hashed`.
    pub fn insert(&mut self, k: K, v: V) -> (r: Option<V>)
        requires
            old(self).wf(),
            old(self)@.len() < MAX_ENTRIES,
        ensures
            final(self).wf(),
            final(self).hasher() == old(self).hasher(),
            final(self).anchored(),
            exists|h: u64, at: Option<int>|
                {
                    &&& located(old(self)@, old(self).hashes(), h, &k, at)
                    &&& r == value_at(old(self)@, at)
                    &&& final(self)@ == after_insert(old(self)@, at, k, v)
                    &&& final(self).hashes() == hashes_after_insert(old(self).hashes(), at, h)
                    &&& final(self).spare_len() == spare_after_insert(old(self).spare_len(), at)
                },
    {
        let hash = hash_key(&self.hash_builder, &k);
        self.insert_hashed(hash, k, v)
    }

    /// Puts `v` under `k` and makes that entry the newest, with `hash` as
    /// the hash of `k`.
    ///
    /// Where the search under `hash` finds an entry whose key `k` compares
    /// equal to, that entry keeps its key, takes the value `v`, moves to the
    /// back, and its old value comes back. Where the search finds none, the
    /// new entry `(k, v)` goes to the back, filed under `hash`.
    pub fn insert_hashed(&mut self, hash: u64, k: K, v: V) -> (r: Option<V>)
        requires
            old(self).wf(),
            old(self)@.len() < MAX_ENTRIES,
        ensures
            final(self).wf(),
            final(self).hasher() == old(self).hasher(),
            final(self).anchored(),
            exists|at: Option<int>|
                {
                    &&& located(old(self)@, old(self).hashes(), hash, &k, at)
                    &&& r == value_at(old(self)@, at)
                    &&& final(self)@ == after_insert(old(self)@, at, k, v)
                    &&& final(self).hashes() == hashes_after_insert(old(self).hashes(), at, hash)
                    &&& final(self).spare_len() == spare_after_insert(old(self).spare_len(), at)
                },
    {
        match self.raw_entry_mut().from_key_hashed_nocheck(hash, &k) {
            RawEntryMut::Occupied(mut occupied) => {
                proof {
                    occupied.lemma_position();
                    assert(occupied@ == old(self)@);
                    assert(occupied.hashes() == old(self).hashes());
                }
                occupied.to_back();
                let prev = occupied.insert(v);
                let ghost i = old(self).arena().position(occupied.slot);
                proof {
                    let m = old(self)@;
                    let h = old(self).hashes();
                    assert(occupied@ =~= m.remove(i).push((m[i].0, v)));
                    assert(occupied.hashes() =~= h.remove(i).push(h[i]));
                    assert(self@ == after_insert(m, Some(i), k, v));
                    assert(self.hashes() == hashes_after_insert(h, Some(i), hash));
                    assert(self.spare_len() == spare_after_insert(old(self).spare_len(), Some(i)));
                    assert(located(m, h, hash, &k, Some(i)));
                }
                Some(prev)
            },
            RawEntryMut::Vacant(vacant) => {
                proof {
                    assert(vacant.arena()@ == old(self)@);
                    assert(vacant.arena().hashes() == old(self).hashes());
                    assert(located(old(self)@, old(self).hashes(), hash, &k, None));
                }
                vacant.insert_hashed_nocheck(hash, k, v);
                proof {
                    assert(self@ == after_insert(old(self)@, None, k, v));
                    assert(self.hashes() == hashes_after_insert(old(self).hashes(), None, hash));
                    assert(self.spare_len() == spare_after_insert(old(self).spare_len(), None));
                }
                None
            },
        }
    }

    /// Takes an entry whose key `k` compares equal to out of the map and
    /// returns its value, with the hash that the map's strategy gives `k`.
    /// See `remove_hashed`.
    pub fn remove(&mut self, k: &K) -> (r: Option<V>)
        requires
            old(self).wf(),
        ensures
            final(self).wf(),
            final(self).hasher() == old(self).hasher(),
            final(self).anchored() == old(self).anchored(),
            exists|h: u64, at: Option<int>|
                {
                    &&& located(old(self)@, old(self).hashes(), h, k, at)
                    &&& r == value_at(old(self)@, at)
                    &&& final(self)@ == after_remove(old(self)@, at)
                    &&& final(self).hashes() == after_remove(old(self).hashes(), at)
                    &&& final(self).spare_len() == spare_after_remove(old(self).spare_len(), at)
                },
    {
        let hash = hash_key(&self.hash_builder, k);
        self.remove_hashed(hash, k)
    }

    /// Takes an entry whose key `k` compares equal to out of the map and
    /// returns its value, with `hash` as the hash of `k`.
    ///
    /// Where the search under `hash` finds nothing, the map stays as it is
    /// and nothing comes back.
    pub fn remove_hashed(&mut self, hash: u64, k: &K) -> (r: Option<V>)
        requires
            old(self).wf(),
        ensures
            final(self).wf(),
            final(self).hasher() == old(self).hasher(),
            final(self).anchored() == old(self).anchored(),
            exists|at: Option<int>|
                {
                    &&& located(old(self)@, old(self).hashes(), hash, k, at)
                    &&& r == value_at(old(self)@, at)
                    &&& final(self)@ == after_remove(old(self)@, at)
                    &&& final(self).hashes() == after_remove(old(self).hashes(), at)
                    &&& final(self).spare_len() == spare_after_remove(old(self).spare_len(), at)
                },
    {
        match self.raw_entry_mut().from_key_hashed_nocheck(hash, k) {
            RawEntryMut::Occupied(occupied) => {
                let ghost i = occupied.position();
                proof {
                    occupied.lemma_position();
                    occupied.arena().lemma_order();
                    assert(occupied@ == old(self)@);
                    assert(occupied.hashes() == old(self).hashes());
                    assert(located(old(self)@, old(self).hashes(), hash, k, Some(i)));
                }
                let value = occupied.remove();
                proof {
                    assert(self@ == after_remove(old(self)@, Some(i)));
                    assert(self.hashes() == after_remove(old(self).hashes(), Some(i)));
                }
                Some(value)
            },
            RawEntryMut::Vacant(vacant) => {
                proof {
                    assert(vacant.arena()@ == old(self)@);
                    assert(vacant.arena().hashes() == old(self).hashes());
                    assert(located(old(self)@, old(self).hashes(), hash, k, None));
                }
                proof {
                    assert(self@ == after_remove(old(self)@, None));
                    assert(self.hashes() == after_remove(old(self).hashes(), None));
                }
                None
            },
        }
    }

    /// The value under a key that the map holds, found under `hash`.
    ///
    /// The map must hold an entry, filed under `hash`, whose key `k`
    /// compares equal to: a search under `hash` then finds an entry for
    /// `k`. A key that the map does not hold is not to be asked for.
    pub fn index_hashed(&self, hash: u64, k: &K) -> (r: &V)
        requires
            self.wf(),
            held_under(self@, self.hashes(), hash, k),
        ensures
            exists|i: int| 0 <= i < self@.len() && accepts(k, &self@[i].0) && *r == (#[trigger] self@[i]).1,
    {
        let builder = self.raw_entry();
        proof {
            assert(builder.core@ == self@);
            assert(builder.core.hashes() == self.hashes());
        }
        match builder.from_key_hashed_nocheck(hash, k) {
            Some(kv) => kv.1,
            None => {
                proof {
                    lemma_held_is_found(self@, self.hashes(), hash, k, None);
                }
                vstd::pervasive::unreached()
            },
        }
    }

    /// The value under a key that the map holds, found under `hash`, for
    /// writing. The map must hold the key as for `index_hashed`.
    pub fn index_mut_hashed(&mut self, hash: u64, k: &K) -> (r: &mut V)
        requires
            old(self).wf(),
            held_under(old(self)@, old(self).hashes(), hash, k),
        ensures
            final(self).wf(),
            final(self).hasher() == old(self).hasher(),
            final(self).hashes() == old(self).hashes(),
            final(self).spare_len() == old(self).spare_len(),
            exists|i: int|
                {
                    &&& 0 <= i < old(self)@.len()
                    &&& accepts(k, &old(self)@[i].0)
                    &&& *r == (#[trigger] old(self)@[i]).1
                    &&& final(self)@ == after_write(old(self)@, Some(i), *final(r))
                },
    {
        match self.raw_entry_mut().from_key_hashed_nocheck(hash, k) {
            RawEntryMut::Occupied(occupied) => {
                proof {
                    occupied.lemma_position();
                    assert(occupied@ == old(self)@);
                    assert(occupied.hashes() == old(self).hashes());
                }
                occupied.into_mut()
            },
            RawEntryMut::Vacant(vacant) => {
                proof {
                    assert(vacant.arena()@ == old(self)@);
                    assert(vacant.arena().hashes() == old(self).hashes());
                    lemma_held_is_found(old(self)@, old(self).hashes(), hash, k, None);
                }
                vstd::pervasive::unreached()
            },
        }
    }

    /// Inserts each pair in turn, as `insert` does.
    pub fn extend(&mut self, pairs: Vec<(K, V)>)
        requires
            old(self).wf(),
            old(self)@.len() + pairs.len() <= MAX_ENTRIES,
        ensures
            final(self).wf(),
            final(self).hasher() == old(self).hasher(),
            exists|used: Seq<u64>, ats: Seq<Option<int>>|
                {
                    &&& all_located(old(self)@, old(self).hashes(), pairs@, used, ats)
                    &&& ats.len() == pairs.len()
                    &&& used.len() == pairs.len()
                    &&& final(self)@ == after_inserts(old(self)@, pairs@, ats)
                    &&& final(self).hashes() == hashes_after_inserts(old(self).hashes(), used, ats)
                    &&& final(self).spare_len() == spare_after_inserts(old(self).spare_len(), ats)
                },
    {
        let ghost mut used: Seq<u64> = Seq::empty();
        let ghost mut ats: Seq<Option<int>> = Seq::empty();
        let ghost all = pairs@;
        for pair in it: pairs.into_iter()
            invariant
                it.seq() == all,
                self.wf(),
                self.hasher() == old(self).hasher(),
                old(self)@.len() + all.len() <= MAX_ENTRIES,
                self@.len() <= old(self)@.len() + it.index(),
                used.len() == it.index(),
                ats.len() == it.index(),
                all_located(old(self)@, old(self).hashes(), all.take(it.index() as int), used, ats),
                self@ == after_inserts(old(self)@, all.take(it.index() as int), ats),
                self.hashes() == hashes_after_inserts(old(self).hashes(), used, ats),
                self.spare_len() == spare_after_inserts(old(self).spare_len(), ats),
        {
            let ghost before = *self;
            let ghost done = all.take(it.index() as int);
            let ghost n = it.index() as int;
            let (k, v) = pair;
            let r = self.insert(k, v);
            proof {
                let (h, at) = choose|h: u64, at: Option<int>|
                    {
                        &&& located(before@, before.hashes(), h, &k, at)
                        &&& r == value_at(before@, at)
                        &&& self@ == after_insert(before@, at, k, v)
                        &&& self.hashes() == hashes_after_insert(before.hashes(), at, h)
                        &&& self.spare_len() == spare_after_insert(before.spare_len(), at)
                    };
                let next = all.take(n + 1);
                assert(next.drop_last() =~= done);
                assert(next.last() == (k, v));
                assert(used.push(h).drop_last() =~= used);
                assert(ats.push(at).drop_last() =~= ats);
                used = used.push(h);
                ats = ats.push(at);
            }
        }
        proof {
            assert(all.take(all.len() as int) =~= all);
        }
    }
}

impl<K, V, S> LinkedHashMap<K, V, S> where K: Eq + Hash + Clone, V: Clone, S: BuildHasher + Clone {
    /// A map with a clone of the hash strategy, into which a clone of each
    /// entry is inserted in order, as `insert` does.
    pub fn clone(&self) -> (r: Self)
        requires
            self.wf(),
        ensures
            r.wf(),
            cloned(self.hasher(), r.hasher()),
            r.spare_len() == 0,
            exists|copies: Seq<(K, V)>, used: Seq<u64>, ats: Seq<Option<int>>|
                {
                    &&& copies.len() == self@.len()
                    &&& forall|i: int|
                        0 <= i < copies.len() ==> cloned(self@[i].0, (#[trigger] copies[i]).0)
                            && cloned(self@[i].1, copies[i].1)
                    &&& all_located(Seq::empty(), Seq::empty(), copies, used, ats)
                    &&& r@ == after_inserts(Seq::empty(), copies, ats)
                    &&& r.hashes() == hashes_after_inserts(Seq::empty(), used, ats)
                },
    {
        let mut map = Self::with_hasher(self.hash_builder.clone());
        let mut entries = self.iter();
        proof {
            assert(self@.subrange(0, self@.len() as int) =~= self@);
        }
        let ghost mut copies: Seq<(K, V)> = Seq::empty();
        let ghost mut used: Seq<u64> = Seq::empty();
        let ghost mut ats: Seq<Option<int>> = Seq::empty();
        proof {
            self.core.lemma_order();
        }
        loop
            invariant
                self.wf(),
                self@.len() <= MAX_ENTRIES,
                entries.wf(),
                map.wf(),
                cloned(self.hasher(), map.hasher()),
                map.spare_len() == 0,
                copies.len() <= self@.len(),
                entries@ == self@.subrange(copies.len() as int, self@.len() as int),
                map@.len() <= copies.len(),
                used.len() == copies.len(),
                ats.len() == copies.len(),
                forall|i: int|
                    0 <= i < copies.len() ==> cloned(self@[i].0, (#[trigger] copies[i]).0)
                        && cloned(self@[i].1, copies[i].1),
                all_located(Seq::empty(), Seq::empty(), copies, used, ats),
                map@ == after_inserts(Seq::empty(), copies, ats),
                map.hashes() == hashes_after_inserts(Seq::empty(), used, ats),
            ensures
                copies.len() == self@.len(),
            decreases entries@.len(),
        {
            let ghost n = copies.len() as int;
            let ghost before = map;
            let ghost rest = entries@;
            match entries.next() {
                Some(kv) => {
                    proof {
                        assert(rest[0] == self@[n]);
                    }
                    let k = kv.0.clone();
                    let v = kv.1.clone();
                    let r = map.insert(k, v);
                    proof {
                        let (h, at) = choose|h: u64, at: Option<int>|
                            {
                                &&& located(before@, before.hashes(), h, &k, at)
                                &&& r == value_at(before@, at)
                                &&& map@ == after_insert(before@, at, k, v)
                                &&& map.hashes() == hashes_after_insert(before.hashes(), at, h)
                                &&& map.spare_len() == spare_after_insert(before.spare_len(), at)
                            };
                        assert(copies.push((k, v)).drop_last() =~= copies);
                        assert(used.push(h).drop_last() =~= used);
                        assert(ats.push(at).drop_last() =~= ats);
                        copies = copies.push((k, v));
                        used = used.push(h);
                        ats = ats.push(at);
                        assert(entries@ =~= self@.subrange(n + 1, self@.len() as int));
                    }
                },
                None => {
                    break ;
                },
            }
        }
        map
    }
}

} // verus!
