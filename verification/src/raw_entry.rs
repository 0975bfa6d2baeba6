//! Access by a caller-supplied hash and a predicate on keys.
//!
//! A search hands the index a hash and a predicate. It finds an entry that
//! the predicate accepts, among those filed under the hash at least; it
//! comes back empty only where the predicate has refused every entry filed
//! under the hash. An insertion files the entry under the hash it is given
//! and looks for nothing first, so this is also the place where a caller
//! can put two entries with equal keys into one map.

use vstd::prelude::*;
use vstd::std_specs::cmp::PartialEqSpec;
use std::hash::{BuildHasher, Hash};
use crate::arena::Core;
use crate::hashing::hash_key;
use crate::index::MAX_ENTRIES;
use crate::model::{absent_under, accepts, found, spare_after_insert};

verus! {

/// A map borrowed for reading, ready for a search.
pub struct RawEntryBuilder<'a, K, V, S> {
    pub hash_builder: &'a S,
    pub core: &'a Core<K, V>,
}

impl<'a, K, V, S> RawEntryBuilder<'a, K, V, S> where S: BuildHasher {
    /// Looks `k` up under the hash that the map's strategy gives it.
    pub fn from_key(self, k: &K) -> (r: Option<(&'a K, &'a V)>) where K: Hash + Eq
        requires
            self.core.wf(),
        ensures
            match r {
                Some(kv) => found(self.core@, k, (*kv.0, *kv.1)),
                None => exists|h: u64| absent_under(self.core@, self.core.hashes(), h, k),
            },
    {
        let hash = hash_key(self.hash_builder, k);
        self.from_key_hashed_nocheck(hash, k)
    }

    /// Looks `k` up under `hash`.
    pub fn from_key_hashed_nocheck(self, hash: u64, k: &K) -> (r: Option<(&'a K, &'a V)>) where
        K: Hash + Eq,

        requires
            self.core.wf(),
        ensures
            match r {
                Some(kv) => found(self.core@, k, (*kv.0, *kv.1)),
                None => absent_under(self.core@, self.core.hashes(), hash, k),
            },
    {
        let is_match = |o: &K| -> (b: bool)
            ensures
                K::obeys_eq_spec() ==> b == k.eq_spec(o),
            { k.eq(o) };
        self.from_hash(hash, is_match)
    }

    /// Looks under `hash` for an entry whose key `is_match` accepts.
    ///
    /// An entry that comes back is one of the map and `is_match` has
    /// accepted its key. Where none comes back, `is_match` has refused the
    /// key of every entry filed under `hash`.
    pub fn from_hash<F: FnMut(&K) -> bool>(self, hash: u64, is_match: F) -> (r: Option<
        (&'a K, &'a V),
    >)
        requires
            self.core.wf(),
            forall|i: int|
                0 <= i < self.core@.len() ==> call_requires(
                    is_match,
                    (&(#[trigger] self.core@[i]).0,),
                ),
        ensures
            match r {
                Some(kv) => exists|i: int|
                    0 <= i < self.core@.len() && #[trigger] self.core@[i] == (*kv.0, *kv.1)
                        && call_ensures(is_match, (&self.core@[i].0,), true),
                None => forall|i: int|
                    0 <= i < self.core@.len() && #[trigger] self.core.hashes()[i] == hash
                        ==> call_ensures(is_match, (&self.core@[i].0,), false),
            },
    {
        let core = self.core;
        proof {
            assert forall|s: usize| #[trigger] core.holds(s) implies call_requires(
                is_match,
                (&core.item(s).0,),
            ) by {
                core.lemma_holds(s);
                assert(core@[core.position(s)].0 == core.item(s).0);
            }
        }
        match core.find(hash, is_match) {
            Some(slot) => {
                proof {
                    core.lemma_holds(slot);
                }
                Some(core.key_value(slot))
            },
            None => {
                proof {
                    assert forall|i: int|
                        0 <= i < core@.len() && #[trigger] core.hashes()[i]
                            == hash implies call_ensures(is_match, (&core@[i].0,), false) by {
                        core.lemma_slot_at(i);
                    }
                }
                None
            },
        }
    }
}

/// A map borrowed for writing, ready for a search.
pub struct RawEntryBuilderMut<'a, K, V, S> {
    pub hash_builder: &'a S,
    pub core: &'a mut Core<K, V>,
}

/// What a search in a map borrowed for writing has come to.
pub enum RawEntryMut<'a, K, V, S> {
    Occupied(RawOccupiedEntryMut<'a, K, V>),
    Vacant(RawVacantEntryMut<'a, K, V, S>),
}

/// A search that has come back empty, with the map borrowed for writing.
pub struct RawVacantEntryMut<'a, K, V, S> {
    pub hash_builder: &'a S,
    pub core: &'a mut Core<K, V>,
}

impl<'a, K, V, S> RawEntryBuilderMut<'a, K, V, S> where S: BuildHasher {
    /// The arena as it stands.
    pub open spec fn arena(&self) -> Core<K, V> {
        *self.core
    }

    /// Looks under `hash` for an entry whose key `is_match` accepts.
    ///
    /// An occupied entry is one of the map and `is_match` has accepted its
    /// key. A vacant entry comes back where `is_match` has refused the key
    /// of every entry filed under `hash`. Either way the map is as before
    /// and stays borrowed through what is returned.
    pub fn from_hash<F: FnMut(&K) -> bool>(self, hash: u64, is_match: F) -> (r: RawEntryMut<
        'a,
        K,
        V,
        S,
    >)
        requires
            self.arena().wf(),
            forall|i: int|
                0 <= i < self.arena()@.len() ==> call_requires(
                    is_match,
                    (&(#[trigger] self.arena()@[i]).0,),
                ),
        ensures
            match r {
                RawEntryMut::Occupied(e) => {
                    &&& e.wf()
                    &&& e.arena() == self.arena()
                    &&& call_ensures(is_match, (&e@[e.position()].0,), true)
                    &&& *final(e.core) == *final(self.core)
                },
                RawEntryMut::Vacant(v) => {
                    &&& v.arena() == self.arena()
                    &&& v.hash_builder == self.hash_builder
                    &&& *final(v.core) == *final(self.core)
                    &&& forall|i: int|
                        0 <= i < self.arena()@.len() && #[trigger] self.arena().hashes()[i] == hash
                            ==> call_ensures(is_match, (&self.arena()@[i].0,), false)
                },
            },
    {
        let core = self.core;
        proof {
            assert forall|s: usize| #[trigger] core.holds(s) implies call_requires(
                is_match,
                (&core.item(s).0,),
            ) by {
                core.lemma_holds(s);
                assert(core@[core.position(s)].0 == core.item(s).0);
            }
        }
        match core.find(hash, is_match) {
            Some(slot) => {
                proof {
                    core.lemma_holds(slot);
                }
                RawEntryMut::Occupied(RawOccupiedEntryMut { core, slot })
            },
            None => {
                proof {
                    assert forall|i: int|
                        0 <= i < core@.len() && #[trigger] core.hashes()[i]
                            == hash implies call_ensures(is_match, (&core@[i].0,), false) by {
                        core.lemma_slot_at(i);
                    }
                }
                RawEntryMut::Vacant(RawVacantEntryMut { hash_builder: self.hash_builder, core })
            },
        }
    }

    /// Looks `k` up under the hash that the map's strategy gives it.
    pub fn from_key(self, k: &K) -> (r: RawEntryMut<'a, K, V, S>) where K: Hash + Eq
        requires
            self.arena().wf(),
        ensures
            match r {
                RawEntryMut::Occupied(e) => {
                    &&& e.wf()
                    &&& e.arena() == self.arena()
                    &&& accepts(k, &e@[e.position()].0)
                    &&& *final(e.core) == *final(self.core)
                },
                RawEntryMut::Vacant(v) => {
                    &&& v.arena() == self.arena()
                    &&& v.hash_builder == self.hash_builder
                    &&& *final(v.core) == *final(self.core)
                    &&& exists|h: u64| absent_under(self.arena()@, self.arena().hashes(), h, k)
                },
            },
    {
        let hash = hash_key(self.hash_builder, k);
        self.from_key_hashed_nocheck(hash, k)
    }

    /// Looks `k` up under `hash`.
    pub fn from_key_hashed_nocheck(self, hash: u64, k: &K) -> (r: RawEntryMut<'a, K, V, S>) where
        K: Hash + Eq,

        requires
            self.arena().wf(),
        ensures
            match r {
                RawEntryMut::Occupied(e) => {
                    &&& e.wf()
                    &&& e.arena() == self.arena()
                    &&& accepts(k, &e@[e.position()].0)
                    &&& *final(e.core) == *final(self.core)
                },
                RawEntryMut::Vacant(v) => {
                    &&& v.arena() == self.arena()
                    &&& v.hash_builder == self.hash_builder
                    &&& *final(v.core) == *final(self.core)
                    &&& absent_under(self.arena()@, self.arena().hashes(), hash, k)
                },
            },
    {
        let is_match = |o: &K| -> (b: bool)
            ensures
                K::obeys_eq_spec() ==> b == k.eq_spec(o),
            { k.eq(o) };
        self.from_hash(hash, is_match)
    }
}

impl<'a, K, V, S> RawEntryMut<'a, K, V, S> {
    /// The arena as it stands.
    pub open spec fn arena(&self) -> Core<K, V> {
        match self {
            RawEntryMut::Occupied(e) => e.arena(),
            RawEntryMut::Vacant(v) => v.arena(),
        }
    }

    /// The arena is valid, and an occupied entry names a live slot of it.
    pub open spec fn wf(&self) -> bool {
        match self {
            RawEntryMut::Occupied(e) => e.wf(),
            RawEntryMut::Vacant(v) => v.arena().wf(),
        }
    }

    /// The entry found, or a new entry at the back, made of the key and the
    /// value given and filed under the hash that the map's strategy gives
    /// the key.
    pub fn or_insert(self, default_key: K, default_val: V) -> (r: (&'a mut K, &'a mut V)) where
        K: Hash,
        S: BuildHasher,

        requires
            self.wf(),
            self.arena()@.len() < MAX_ENTRIES,
        ensures
            match self {
                RawEntryMut::Occupied(e) => {
                    &&& (*r.0, *r.1) == e@[e.position()]
                    &&& final(e.core).wf()
                    &&& final(e.core).anchored()
                    &&& final(e.core).spare_len() == e.arena().spare_len()
                    &&& final(e.core)@ == e@.update(e.position(), (*final(r.0), *final(r.1)))
                    &&& final(e.core).hashes() == e.hashes()
                },
                RawEntryMut::Vacant(v) => {
                    &&& (*r.0, *r.1) == (default_key, default_val)
                    &&& final(v.core).wf()
                    &&& final(v.core).anchored()
                    &&& final(v.core).spare_len() == spare_after_insert(
                        v.arena().spare_len(),
                        None,
                    )
                    &&& final(v.core)@ == v.arena()@.push((*final(r.0), *final(r.1)))
                    &&& exists|h: u64| final(v.core).hashes() == v.arena().hashes().push(h)
                },
            },
    {
        match self {
            RawEntryMut::Occupied(entry) => entry.into_key_value(),
            RawEntryMut::Vacant(entry) => entry.insert(default_key, default_val),
        }
    }

    /// The entry found, or a new entry at the back, made of what `default`
    /// returns and filed under the hash that the map's strategy gives the
    /// key. `default` is called only where nothing was found.
    pub fn or_insert_with<F>(self, default: F) -> (r: (&'a mut K, &'a mut V)) where
        F: FnOnce() -> (K, V),
        K: Hash,
        S: BuildHasher,

        requires
            self.wf(),
            self.arena()@.len() < MAX_ENTRIES,
            self is Vacant ==> call_requires(default, ()),
        ensures
            match self {
                RawEntryMut::Occupied(e) => {
                    &&& (*r.0, *r.1) == e@[e.position()]
                    &&& final(e.core).wf()
                    &&& final(e.core).anchored()
                    &&& final(e.core).spare_len() == e.arena().spare_len()
                    &&& final(e.core)@ == e@.update(e.position(), (*final(r.0), *final(r.1)))
                    &&& final(e.core).hashes() == e.hashes()
                },
                RawEntryMut::Vacant(v) => {
                    &&& call_ensures(default, (), (*r.0, *r.1))
                    &&& final(v.core).wf()
                    &&& final(v.core).anchored()
                    &&& final(v.core).spare_len() == spare_after_insert(
                        v.arena().spare_len(),
                        None,
                    )
                    &&& final(v.core)@ == v.arena()@.push((*final(r.0), *final(r.1)))
                    &&& exists|h: u64| final(v.core).hashes() == v.arena().hashes().push(h)
                },
            },
    {
        match self {
            RawEntryMut::Occupied(entry) => entry.into_key_value(),
            RawEntryMut::Vacant(entry) => {
                let (k, v) = default();
                entry.insert(k, v)
            },
        }
    }

    /// Lets `f` write to the key and the value of an occupied entry; a
    /// vacant one is handed back as it is.
    pub fn and_modify<F>(self, f: F) -> (r: Self) where F: FnOnce(&mut K, &mut V)
        requires
            self.wf(),
            self matches RawEntryMut::Occupied(e) ==> forall|k: &mut K, v: &mut V|
                *k == e@[e.position()].0 && *v == e@[e.position()].1 ==> call_requires(f, (k, v)),
        ensures
            r.wf(),
            match self {
                RawEntryMut::Occupied(e) => {
                    &&& r matches RawEntryMut::Occupied(e2)
                    &&& e2.slot == e.slot
                    &&& e2.position() == e.position()
                    &&& e2.hashes() == e.hashes()
                    &&& e2.arena().spare_len() == e.arena().spare_len()
                    &&& *final(e2.core) == *final(e.core)
                    &&& exists|k: &mut K, v: &mut V|
                        {
                            &&& *k == e@[e.position()].0
                            &&& *v == e@[e.position()].1
                            &&& call_ensures(f, (k, v), ())
                            &&& e2@ == e@.update(e.position(), (*final(k), *final(v)))
                        }
                },
                RawEntryMut::Vacant(v) => {
                    &&& r matches RawEntryMut::Vacant(v2)
                    &&& v2.arena() == v.arena()
                    &&& v2.hash_builder == v.hash_builder
                    &&& *final(v2.core) == *final(v.core)
                },
            },
    {
        match self {
            RawEntryMut::Occupied(mut entry) => {
                {
                    let (k, v) = entry.get_key_value_mut();
                    f(k, v);
                }
                RawEntryMut::Occupied(entry)
            },
            RawEntryMut::Vacant(entry) => RawEntryMut::Vacant(entry),
        }
    }
}

impl<'a, K, V, S> RawVacantEntryMut<'a, K, V, S> {
    /// The arena as it stands.
    pub open spec fn arena(&self) -> Core<K, V> {
        *self.core
    }

    /// Puts a new entry at the back, filed under the hash that the map's
    /// strategy gives the key. Nothing is looked up first.
    pub fn insert(self, key: K, value: V) -> (r: (&'a mut K, &'a mut V)) where
        K: Hash,
        S: BuildHasher,

        requires
            self.arena().wf(),
            self.arena()@.len() < MAX_ENTRIES,
        ensures
            *r.0 == key,
            *r.1 == value,
            final(self.core).wf(),
            final(self.core).anchored(),
            final(self.core).spare_len() == spare_after_insert(
                self.arena().spare_len(),
                None,
            ),
            final(self.core)@ == self.arena()@.push((*final(r.0), *final(r.1))),
            exists|h: u64| final(self.core).hashes() == self.arena().hashes().push(h),
    {
        let hash = hash_key(self.hash_builder, &key);
        self.insert_hashed_nocheck(hash, key, value)
    }

    /// Puts a new entry at the back, filed under `hash`. Nothing is looked
    /// up first.
    pub fn insert_hashed_nocheck(self, hash: u64, key: K, value: V) -> (r: (
        &'a mut K,
        &'a mut V,
    )) where K: Hash, S: BuildHasher
        requires
            self.arena().wf(),
            self.arena()@.len() < MAX_ENTRIES,
        ensures
            *r.0 == key,
            *r.1 == value,
            final(self.core).wf(),
            final(self.core).anchored(),
            final(self.core).spare_len() == spare_after_insert(
                self.arena().spare_len(),
                None,
            ),
            final(self.core)@ == self.arena()@.push((*final(r.0), *final(r.1))),
            final(self.core).hashes() == self.arena().hashes().push(hash),
    {
        let core = self.core;
        let slot = core.insert_back(hash, key, value);
        proof {
            core.lemma_slot_at(core.order().len() - 1);
        }
        core.key_value_mut(slot)
    }

    /// Puts a new entry at the back, filed under `hash`. Nothing is looked
    /// up first.
    ///
    /// Every slot records the hash its entry is filed under, and the index
    /// is rehashed from those records; the hasher given is never called.
    pub fn insert_with_hasher<H: Fn(&K) -> u64>(
        self,
        hash: u64,
        key: K,
        value: V,
        _hasher: H,
    ) -> (r: (&'a mut K, &'a mut V)) where S: BuildHasher
        requires
            self.arena().wf(),
            self.arena()@.len() < MAX_ENTRIES,
        ensures
            *r.0 == key,
            *r.1 == value,
            final(self.core).wf(),
            final(self.core).anchored(),
            final(self.core).spare_len() == spare_after_insert(
                self.arena().spare_len(),
                None,
            ),
            final(self.core)@ == self.arena()@.push((*final(r.0), *final(r.1))),
            final(self.core).hashes() == self.arena().hashes().push(hash),
    {
        let core = self.core;
        let slot = core.insert_back(hash, key, value);
        proof {
            core.lemma_slot_at(core.order().len() - 1);
        }
        core.key_value_mut(slot)
    }
}

/// An entry that a search has found, with the map borrowed for writing.
pub struct RawOccupiedEntryMut<'a, K, V> {
    pub core: &'a mut Core<K, V>,
    pub slot: usize,
}

impl<'a, K, V> RawOccupiedEntryMut<'a, K, V> {
    /// The arena is valid and the slot is live in it.
    pub open spec fn wf(&self) -> bool {
        self.core.wf() && self.core.holds(self.slot)
    }

    /// The arena as it stands.
    pub open spec fn arena(&self) -> Core<K, V> {
        *self.core
    }

    /// The entries of the map, from front to back.
    pub open spec fn view(&self) -> Seq<(K, V)> {
        self.core@
    }

    /// The hash under which each entry of the map is filed.
    pub open spec fn hashes(&self) -> Seq<u64> {
        self.core.hashes()
    }

    /// The position of the entry in the order of the map.
    pub open spec fn position(&self) -> int {
        self.core.position(self.slot)
    }

    /// The position of a valid entry is one of the map, and the slot of
    /// the entry stands there.
    pub proof fn lemma_position(&self)
        requires
            self.wf(),
        ensures
            0 <= self.position() < self@.len(),
            self.arena().order()[self.position()] == self.slot,
            self@[self.position()] == self.arena().item(self.slot),
            self.hashes()[self.position()] == self.arena().hash_of(self.slot),
    {
        self.core.lemma_holds(self.slot);
    }

    /// The key and the value of the entry.
    pub fn get_key_value(&self) -> (r: (&K, &V))
        requires
            self.wf(),
        ensures
            (*r.0, *r.1) == self@[self.position()],
    {
        proof {
            self.lemma_position();
        }
        self.core.key_value(self.slot)
    }

    /// Moves the entry to the back of the order.
    pub fn to_back(&mut self)
        requires
            old(self).wf(),
        ensures
            final(self).wf(),
            final(self).arena().anchored(),
            final(self).arena().spare_len() == old(self).arena().spare_len(),
            final(self).slot == old(self).slot,
            final(self).position() == old(self)@.len() - 1,
            final(self)@ == old(self)@.remove(old(self).position()).push(
                old(self)@[old(self).position()],
            ),
            final(self).hashes() == old(self).hashes().remove(old(self).position()).push(
                old(self).hashes()[old(self).position()],
            ),
            *final(final(self).core) == *final(old(self).core),
    {
        proof {
            self.lemma_position();
        }
        self.core.move_to_back(self.slot);
        proof {
            self.core.lemma_slot_at(self.core.order().len() - 1);
        }
    }

    /// Puts `value` in the place of the entry's value and returns the old
    /// one. The entry stays where it is in the order.
    pub fn insert(&mut self, value: V) -> (r: V)
        requires
            old(self).wf(),
        ensures
            final(self).wf(),
            final(self).arena().anchored(),
            final(self).arena().spare_len() == old(self).arena().spare_len(),
            final(self).slot == old(self).slot,
            final(self).position() == old(self).position(),
            r == old(self)@[old(self).position()].1,
            final(self)@ == old(self)@.update(
                old(self).position(),
                (old(self)@[old(self).position()].0, value),
            ),
            final(self).hashes() == old(self).hashes(),
            *final(final(self).core) == *final(old(self).core),
    {
        proof {
            self.lemma_position();
        }
        let mut value = value;
        let (_, stored) = self.core.value_mut(self.slot);
        std::mem::swap(stored, &mut value);
        value
    }

    /// The key and the value of the entry, both for writing as long as the
    /// map is borrowed. The entry stays filed under its hash, whatever key
    /// is written.
    pub fn into_key_value(self) -> (r: (&'a mut K, &'a mut V))
        requires
            self.wf(),
        ensures
            (*r.0, *r.1) == self@[self.position()],
            final(self.core).wf(),
            final(self.core).anchored(),
            final(self.core).spare_len() == self.arena().spare_len(),
            final(self.core)@ == self@.update(self.position(), (*final(r.0), *final(r.1))),
            final(self.core).hashes() == self.hashes(),
    {
        proof {
            self.lemma_position();
        }
        let core = self.core;
        core.key_value_mut(self.slot)
    }

    /// Takes the entry out of the map and returns it.
    pub fn remove_entry(self) -> (r: (K, V))
        requires
            self.wf(),
        ensures
            r == self@[self.position()],
            final(self.core).wf(),
            final(self.core).anchored(),
            final(self.core).spare_len() == self.arena().spare_len() + 1,
            final(self.core)@ == self@.remove(self.position()),
            final(self.core).hashes() == self.hashes().remove(self.position()),
    {
        proof {
            self.lemma_position();
        }
        self.core.remove(self.slot)
    }

    /// The key of the entry.
    pub fn key(&self) -> (r: &K)
        requires
            self.wf(),
        ensures
            *r == self@[self.position()].0,
    {
        self.get_key_value().0
    }

    /// The value of the entry.
    pub fn get(&self) -> (r: &V)
        requires
            self.wf(),
        ensures
            *r == self@[self.position()].1,
    {
        self.get_key_value().1
    }

    /// The key and the value of the entry, both for writing. The entry stays
    /// filed under its hash, whatever key is written.
    pub fn get_key_value_mut(&mut self) -> (r: (&mut K, &mut V))
        requires
            old(self).wf(),
        ensures
            (*r.0, *r.1) == old(self)@[old(self).position()],
            final(self).wf(),
            final(self).arena().anchored(),
            final(self).arena().spare_len() == old(self).arena().spare_len(),
            final(self).slot == old(self).slot,
            final(self).position() == old(self).position(),
            final(self)@ == old(self)@.update(old(self).position(), (*final(r.0), *final(r.1))),
            final(self).hashes() == old(self).hashes(),
            *final(final(self).core) == *final(old(self).core),
    {
        proof {
            self.lemma_position();
        }
        self.core.key_value_mut(self.slot)
    }

    /// The key of the entry, for writing. The entry stays filed under its
    /// hash, whatever key is written.
    pub fn key_mut(&mut self) -> (r: &mut K)
        requires
            old(self).wf(),
        ensures
            *r == old(self)@[old(self).position()].0,
            final(self).wf(),
            final(self).arena().anchored(),
            final(self).arena().spare_len() == old(self).arena().spare_len(),
            final(self).slot == old(self).slot,
            final(self).position() == old(self).position(),
            final(self)@ == old(self)@.update(
                old(self).position(),
                (*final(r), old(self)@[old(self).position()].1),
            ),
            final(self).hashes() == old(self).hashes(),
            *final(final(self).core) == *final(old(self).core),
    {
        self.get_key_value_mut().0
    }

    /// The value of the entry, for writing.
    pub fn get_mut(&mut self) -> (r: &mut V)
        requires
            old(self).wf(),
        ensures
            *r == old(self)@[old(self).position()].1,
            final(self).wf(),
            final(self).arena().anchored(),
            final(self).arena().spare_len() == old(self).arena().spare_len(),
            final(self).slot == old(self).slot,
            final(self).position() == old(self).position(),
            final(self)@ == old(self)@.update(
                old(self).position(),
                (old(self)@[old(self).position()].0, *final(r)),
            ),
            final(self).hashes() == old(self).hashes(),
            *final(final(self).core) == *final(old(self).core),
    {
        self.get_key_value_mut().1
    }

    /// The key of the entry, for writing as long as the map is borrowed.
    pub fn into_key(self) -> (r: &'a mut K)
        requires
            self.wf(),
        ensures
            *r == self@[self.position()].0,
            final(self.core).wf(),
            final(self.core).anchored(),
            final(self.core).spare_len() == self.arena().spare_len(),
            final(self.core)@ == self@.update(
                self.position(),
                (*final(r), self@[self.position()].1),
            ),
            final(self.core).hashes() == self.hashes(),
    {
        self.into_key_value().0
    }

    /// The value of the entry, for writing as long as the map is borrowed.
    pub fn into_mut(self) -> (r: &'a mut V)
        requires
            self.wf(),
        ensures
            *r == self@[self.position()].1,
            final(self.core).wf(),
            final(self.core).anchored(),
            final(self.core).spare_len() == self.arena().spare_len(),
            final(self.core)@ == self@.update(
                self.position(),
                (self@[self.position()].0, *final(r)),
            ),
            final(self.core).hashes() == self.hashes(),
    {
        self.into_key_value().1
    }

    /// Moves the entry to the front of the order.
    pub fn to_front(&mut self)
        requires
            old(self).wf(),
        ensures
            final(self).wf(),
            final(self).arena().anchored(),
            final(self).arena().spare_len() == old(self).arena().spare_len(),
            final(self).slot == old(self).slot,
            final(self).position() == 0,
            final(self)@ == seq![old(self)@[old(self).position()]] + old(self)@.remove(
                old(self).position(),
            ),
            final(self).hashes() == seq![old(self).hashes()[old(self).position()]] + old(
                self,
            ).hashes().remove(old(self).position()),
            *final(final(self).core) == *final(old(self).core),
    {
        proof {
            self.lemma_position();
        }
        self.core.move_to_front(self.slot);
        proof {
            self.core.lemma_slot_at(0);
        }
    }

    /// Puts `key` in the place of the entry's key and returns the old one.
    /// The entry stays filed under its hash.
    pub fn insert_key(&mut self, key: K) -> (r: K)
        requires
            old(self).wf(),
        ensures
            final(self).wf(),
            final(self).arena().anchored(),
            final(self).arena().spare_len() == old(self).arena().spare_len(),
            final(self).slot == old(self).slot,
            final(self).position() == old(self).position(),
            r == old(self)@[old(self).position()].0,
            final(self)@ == old(self)@.update(
                old(self).position(),
                (key, old(self)@[old(self).position()].1),
            ),
            final(self).hashes() == old(self).hashes(),
            *final(final(self).core) == *final(old(self).core),
    {
        proof {
            self.lemma_position();
        }
        let mut key = key;
        let (stored, _) = self.core.key_value_mut(self.slot);
        std::mem::swap(stored, &mut key);
        key
    }

    /// Takes the entry out of the map and returns its value.
    pub fn remove(self) -> (r: V)
        requires
            self.wf(),
        ensures
            r == self@[self.position()].1,
            final(self.core).wf(),
            final(self.core).anchored(),
            final(self.core).spare_len() == self.arena().spare_len() + 1,
            final(self.core)@ == self@.remove(self.position()),
            final(self.core).hashes() == self.hashes().remove(self.position()),
    {
        self.remove_entry().1
    }
}

} // verus!
