//! Read-modify-write access to the entry of one key, without a second search.

use vstd::prelude::*;
use std::hash::{BuildHasher, Hash};
use crate::arena::Core;
use crate::index::MAX_ENTRIES;
use crate::model::spare_after_insert;
use crate::raw_entry::{RawOccupiedEntryMut, RawVacantEntryMut};

verus! {

/// What the search for a key has come to, with the map borrowed for writing.
pub enum Entry<'a, K, V, S> {
    Occupied(OccupiedEntry<'a, K, V>),
    Vacant(VacantEntry<'a, K, V, S>),
}

/// An entry found for a key. `key` is the key that was looked for, which
/// compares equal to the key of the entry and need not be identical to it.
pub struct OccupiedEntry<'a, K, V> {
    pub key: K,
    pub raw_entry: RawOccupiedEntryMut<'a, K, V>,
}

/// A key for which the search found no entry.
pub struct VacantEntry<'a, K, V, S> {
    pub key: K,
    pub raw_entry: RawVacantEntryMut<'a, K, V, S>,
}

impl<'a, K, V> OccupiedEntry<'a, K, V> {
    /// The arena is valid and the entry names a live slot of it.
    pub open spec fn wf(&self) -> bool {
        self.raw_entry.wf()
    }

    /// The arena as it stands.
    pub open spec fn arena(&self) -> Core<K, V> {
        self.raw_entry.arena()
    }

    /// The entries of the map, from front to back.
    pub open spec fn view(&self) -> Seq<(K, V)> {
        self.raw_entry@
    }

    /// The hash under which each entry of the map is filed.
    pub open spec fn hashes(&self) -> Seq<u64> {
        self.raw_entry.hashes()
    }

    /// The position of the entry in the order of the map.
    pub open spec fn position(&self) -> int {
        self.raw_entry.position()
    }

    /// The key of the entry in the map.
    pub fn key(&self) -> (r: &K)
        requires
            self.wf(),
        ensures
            *r == self@[self.position()].0,
    {
        self.raw_entry.key()
    }

    /// Takes the entry out of the map and returns it.
    pub fn remove_entry(self) -> (r: (K, V))
        requires
            self.wf(),
        ensures
            r == self@[self.position()],
            final(self.raw_entry.core).wf(),
            final(self.raw_entry.core).anchored(),
            final(self.raw_entry.core).spare_len() == self.arena().spare_len() + 1,
            final(self.raw_entry.core)@ == self@.remove(self.position()),
            final(self.raw_entry.core).hashes() == self.hashes().remove(self.position()),
    {
        self.raw_entry.remove_entry()
    }

    /// The value of the entry.
    pub fn get(&self) -> (r: &V)
        requires
            self.wf(),
        ensures
            *r == self@[self.position()].1,
    {
        self.raw_entry.get()
    }

    /// The value of the entry, for writing.
    pub fn get_mut(&mut self) -> (r: &mut V)
        requires
            old(self).wf(),
        ensures
            *r == old(self)@[old(self).position()].1,
            final(self).wf(),
            final(self).arena().anchored(),
            final(self).arena().spare_len() == old(self).arena().spare_len(),
            final(self).key == old(self).key,
            final(self).position() == old(self).position(),
            final(self)@ == old(self)@.update(
                old(self).position(),
                (old(self)@[old(self).position()].0, *final(r)),
            ),
            final(self).hashes() == old(self).hashes(),
            *final(final(self).raw_entry.core) == *final(old(self).raw_entry.core),
    {
        self.raw_entry.get_mut()
    }

    /// The value of the entry, for writing as long as the map is borrowed.
    pub fn into_mut(self) -> (r: &'a mut V)
        requires
            self.wf(),
        ensures
            *r == self@[self.position()].1,
            final(self.raw_entry.core).wf(),
            final(self.raw_entry.core).anchored(),
            final(self.raw_entry.core).spare_len() == self.arena().spare_len(),
            final(self.raw_entry.core)@ == self@.update(
                self.position(),
                (self@[self.position()].0, *final(r)),
            ),
            final(self.raw_entry.core).hashes() == self.hashes(),
    {
        self.raw_entry.into_mut()
    }

    /// Moves the entry to the back of the order.
    pub fn to_back(&mut self)
        requires
            old(self).wf(),
        ensures
            final(self).wf(),
            final(self).arena().anchored(),
            final(self).arena().spare_len() == old(self).arena().spare_len(),
            final(self).key == old(self).key,
            final(self).position() == old(self)@.len() - 1,
            final(self)@ == old(self)@.remove(old(self).position()).push(
                old(self)@[old(self).position()],
            ),
            final(self).hashes() == old(self).hashes().remove(old(self).position()).push(
                old(self).hashes()[old(self).position()],
            ),
            *final(final(self).raw_entry.core) == *final(old(self).raw_entry.core),
    {
        self.raw_entry.to_back()
    }

    /// Moves the entry to the front of the order.
    pub fn to_front(&mut self)
        requires
            old(self).wf(),
        ensures
            final(self).wf(),
            final(self).arena().anchored(),
            final(self).arena().spare_len() == old(self).arena().spare_len(),
            final(self).key == old(self).key,
            final(self).position() == 0,
            final(self)@ == seq![old(self)@[old(self).position()]] + old(self)@.remove(
                old(self).position(),
            ),
            final(self).hashes() == seq![old(self).hashes()[old(self).position()]] + old(
                self,
            ).hashes().remove(old(self).position()),
            *final(final(self).raw_entry.core) == *final(old(self).raw_entry.core),
    {
        self.raw_entry.to_front()
    }

    /// Moves the entry to the back, puts `value` in the place of its value
    /// and returns the old one.
    pub fn insert(&mut self, value: V) -> (r: V)
        requires
            old(self).wf(),
        ensures
            final(self).wf(),
            final(self).arena().anchored(),
            final(self).arena().spare_len() == old(self).arena().spare_len(),
            final(self).key == old(self).key,
            final(self).position() == old(self)@.len() - 1,
            r == old(self)@[old(self).position()].1,
            final(self)@ == old(self)@.remove(old(self).position()).push(
                (old(self)@[old(self).position()].0, value),
            ),
            final(self).hashes() == old(self).hashes().remove(old(self).position()).push(
                old(self).hashes()[old(self).position()],
            ),
            *final(final(self).raw_entry.core) == *final(old(self).raw_entry.core),
    {
        proof {
            self.raw_entry.lemma_position();
        }
        self.raw_entry.to_back();
        let r = self.raw_entry.insert(value);
        proof {
            let m = old(self)@;
            let i = old(self).position();
            assert(self@ =~= m.remove(i).push((m[i].0, value)));
        }
        r
    }

    /// Takes the entry out of the map and returns its value.
    pub fn remove(self) -> (r: V)
        requires
            self.wf(),
        ensures
            r == self@[self.position()].1,
            final(self.raw_entry.core).wf(),
            final(self.raw_entry.core).anchored(),
            final(self.raw_entry.core).spare_len() == self.arena().spare_len() + 1,
            final(self.raw_entry.core)@ == self@.remove(self.position()),
            final(self.raw_entry.core).hashes() == self.hashes().remove(self.position()),
    {
        self.raw_entry.remove()
    }

    /// Puts the key that was looked for and `value` in the place of the
    /// entry's key and value, and returns the old ones. The entry stays
    /// where it is in the order, filed under its hash.
    pub fn replace_entry(self, value: V) -> (r: (K, V))
        requires
            self.wf(),
        ensures
            r == self@[self.position()],
            final(self.raw_entry.core).wf(),
            final(self.raw_entry.core).anchored(),
            final(self.raw_entry.core).spare_len() == self.arena().spare_len(),
            final(self.raw_entry.core)@ == self@.update(self.position(), (self.key, value)),
            final(self.raw_entry.core).hashes() == self.hashes(),
    {
        proof {
            self.raw_entry.lemma_position();
        }
        let mut raw_entry = self.raw_entry;
        let old_key = raw_entry.insert_key(self.key);
        let old_value = raw_entry.insert(value);
        proof {
            let m = self@;
            let i = self.position();
            assert(raw_entry@ =~= m.update(i, (self.key, value)));
        }
        (old_key, old_value)
    }

    /// Puts the key that was looked for in the place of the entry's key and
    /// returns the old one. The entry stays filed under its hash.
    pub fn replace_key(self) -> (r: K)
        requires
            self.wf(),
        ensures
            r == self@[self.position()].0,
            final(self.raw_entry.core).wf(),
            final(self.raw_entry.core).anchored(),
            final(self.raw_entry.core).spare_len() == self.arena().spare_len(),
            final(self.raw_entry.core)@ == self@.update(
                self.position(),
                (self.key, self@[self.position()].1),
            ),
            final(self.raw_entry.core).hashes() == self.hashes(),
    {
        let mut raw_entry = self.raw_entry;
        raw_entry.insert_key(self.key)
    }
}

impl<'a, K, V, S> VacantEntry<'a, K, V, S> {
    /// The arena as it stands.
    pub open spec fn arena(&self) -> Core<K, V> {
        self.raw_entry.arena()
    }

    /// The key that was looked for.
    pub fn key(&self) -> (r: &K)
        ensures
            *r == self.key,
    {
        &self.key
    }

    /// Gives the key back and lets the map go.
    pub fn into_key(self) -> (r: K)
        ensures
            r == self.key,
            *final(self.raw_entry.core) == self.arena(),
    {
        self.key
    }

    /// Puts a new entry for the key at the back, filed under the hash that
    /// the map's strategy gives the key, and returns its value for writing.
    pub fn insert(self, value: V) -> (r: &'a mut V) where K: Hash, S: BuildHasher
        requires
            self.arena().wf(),
            self.arena()@.len() < MAX_ENTRIES,
        ensures
            *r == value,
            final(self.raw_entry.core).wf(),
            final(self.raw_entry.core).anchored(),
            final(self.raw_entry.core).spare_len() == spare_after_insert(
                self.arena().spare_len(),
                None,
            ),
            final(self.raw_entry.core)@ == self.arena()@.push((self.key, *final(r))),
            exists|h: u64| final(self.raw_entry.core).hashes() == self.arena().hashes().push(h),
    {
        self.raw_entry.insert(self.key, value).1
    }
}

impl<'a, K, V, S> Entry<'a, K, V, S> {
    /// The arena as it stands.
    pub open spec fn arena(&self) -> Core<K, V> {
        match self {
            Entry::Occupied(e) => e.arena(),
            Entry::Vacant(v) => v.arena(),
        }
    }

    /// The arena is valid, and an occupied entry names a live slot of it.
    pub open spec fn wf(&self) -> bool {
        match self {
            Entry::Occupied(e) => e.wf(),
            Entry::Vacant(v) => v.arena().wf(),
        }
    }

    /// The value of the entry found, or that of a new entry at the back
    /// with the value `default`.
    pub fn or_insert(self, default: V) -> (r: &'a mut V) where K: Hash, S: BuildHasher
        requires
            self.wf(),
            self.arena()@.len() < MAX_ENTRIES,
        ensures
            match self {
                Entry::Occupied(e) => {
                    &&& *r == e@[e.position()].1
                    &&& final(e.raw_entry.core).wf()
                    &&& final(e.raw_entry.core).anchored()
                    &&& final(e.raw_entry.core).spare_len() == e.arena().spare_len()
                    &&& final(e.raw_entry.core)@ == e@.update(
                        e.position(),
                        (e@[e.position()].0, *final(r)),
                    )
                    &&& final(e.raw_entry.core).hashes() == e.hashes()
                },
                Entry::Vacant(v) => {
                    &&& *r == default
                    &&& final(v.raw_entry.core).wf()
                    &&& final(v.raw_entry.core).anchored()
                    &&& final(v.raw_entry.core).spare_len() == spare_after_insert(
                        v.arena().spare_len(),
                        None,
                    )
                    &&& final(v.raw_entry.core)@ == v.arena()@.push((v.key, *final(r)))
                    &&& exists|h: u64|
                        final(v.raw_entry.core).hashes() == v.arena().hashes().push(h)
                },
            },
    {
        match self {
            Entry::Occupied(entry) => entry.into_mut(),
            Entry::Vacant(entry) => entry.insert(default),
        }
    }

    /// The value of the entry found, or that of a new entry at the back
    /// with the value that `default` returns. `default` is called only
    /// where nothing was found.
    pub fn or_insert_with<F: FnOnce() -> V>(self, default: F) -> (r: &'a mut V) where
        K: Hash,
        S: BuildHasher,

        requires
            self.wf(),
            self.arena()@.len() < MAX_ENTRIES,
            self is Vacant ==> call_requires(default, ()),
        ensures
            match self {
                Entry::Occupied(e) => {
                    &&& *r == e@[e.position()].1
                    &&& final(e.raw_entry.core).wf()
                    &&& final(e.raw_entry.core).anchored()
                    &&& final(e.raw_entry.core).spare_len() == e.arena().spare_len()
                    &&& final(e.raw_entry.core)@ == e@.update(
                        e.position(),
                        (e@[e.position()].0, *final(r)),
                    )
                    &&& final(e.raw_entry.core).hashes() == e.hashes()
                },
                Entry::Vacant(v) => {
                    &&& call_ensures(default, (), *r)
                    &&& final(v.raw_entry.core).wf()
                    &&& final(v.raw_entry.core).anchored()
                    &&& final(v.raw_entry.core).spare_len() == spare_after_insert(
                        v.arena().spare_len(),
                        None,
                    )
                    &&& final(v.raw_entry.core)@ == v.arena()@.push((v.key, *final(r)))
                    &&& exists|h: u64|
                        final(v.raw_entry.core).hashes() == v.arena().hashes().push(h)
                },
            },
    {
        match self {
            Entry::Occupied(entry) => entry.into_mut(),
            Entry::Vacant(entry) => entry.insert(default()),
        }
    }

    /// The key of the entry found, or the key that was looked for where
    /// nothing was found.
    pub fn key(&self) -> (r: &K)
        requires
            self.wf(),
        ensures
            match self {
                Entry::Occupied(e) => *r == e@[e.position()].0,
                Entry::Vacant(v) => *r == v.key,
            },
    {
        match self {
            Entry::Occupied(entry) => entry.key(),
            Entry::Vacant(entry) => entry.key(),
        }
    }

    /// Lets `f` write to the value of an occupied entry; a vacant one is
    /// handed back as it is.
    pub fn and_modify<F>(self, f: F) -> (r: Self) where F: FnOnce(&mut V)
        requires
            self.wf(),
            self matches Entry::Occupied(e) ==> forall|v: &mut V|
                *v == e@[e.position()].1 ==> call_requires(f, (v,)),
        ensures
            r.wf(),
            match self {
                Entry::Occupied(e) => {
                    &&& r matches Entry::Occupied(e2)
                    &&& e2.key == e.key
                    &&& e2.position() == e.position()
                    &&& e2.hashes() == e.hashes()
                    &&& e2.arena().spare_len() == e.arena().spare_len()
                    &&& *final(e2.raw_entry.core) == *final(e.raw_entry.core)
                    &&& exists|v: &mut V|
                        {
                            &&& *v == e@[e.position()].1
                            &&& call_ensures(f, (v,), ())
                            &&& e2@ == e@.update(e.position(), (e@[e.position()].0, *final(v)))
                        }
                },
                Entry::Vacant(v) => {
                    &&& r matches Entry::Vacant(v2)
                    &&& v2.key == v.key
                    &&& v2.arena() == v.arena()
                    &&& v2.raw_entry.hash_builder == v.raw_entry.hash_builder
                    &&& *final(v2.raw_entry.core) == *final(v.raw_entry.core)
                },
            },
    {
        match self {
            Entry::Occupied(mut entry) => {
                f(entry.get_mut());
                Entry::Occupied(entry)
            },
            Entry::Vacant(entry) => Entry::Vacant(entry),
        }
    }
}

} // verus!
