//! Traversal in order, from either end.
//!
//! An iterator stands for the entries that it has yet to yield: its view is
//! that stretch of the map, from front to back. `next` yields the first of
//! them and `next_back` the last, so the two ends meet and never cross.

use vstd::prelude::*;
use crate::arena::Core;
use crate::model::after_write;

verus! {

/// The stretch of a map's order that an iterator has yet to yield, with a
/// slot handle at either end of it.
pub struct Cursor {
    head: usize,
    tail: usize,
    remaining: usize,
    lo: Ghost<int>,
}

impl Cursor {
    /// The position in the order of the first entry yet to come.
    pub closed spec fn start(&self) -> int {
        self.lo@
    }

    /// The number of entries yet to come.
    pub closed spec fn count(&self) -> nat {
        self.remaining as nat
    }

    /// The stretch lies within the order of `core`, and the handles are the
    /// slots at its two ends.
    pub closed spec fn fits<K, V>(&self, core: &Core<K, V>) -> bool {
        &&& 0 <= self.lo@
        &&& self.lo@ + self.remaining <= core.order().len()
        &&& self.remaining > 0 ==> self.head == core.order()[self.lo@] && self.tail
            == core.order()[self.lo@ + self.remaining - 1]
    }

    /// The entries of `core` in the stretch, from front to back.
    pub open spec fn stretch<K, V>(&self, core: &Core<K, V>) -> Seq<(K, V)> {
        core@.subrange(self.start(), self.start() + self.count())
    }

    /// A stretch that fits lies within the entries.
    pub proof fn lemma_within<K, V>(&self, core: &Core<K, V>)
        requires
            self.fits(core),
        ensures
            0 <= self.start(),
            self.start() + self.count() <= core@.len(),
    {
    }

    /// The stretch over all entries of `core`.
    pub(crate) fn over<K, V>(core: &Core<K, V>) -> (r: Cursor)
        requires
            core.wf(),
        ensures
            r.fits(core),
            r.start() == 0,
            r.count() == core@.len(),
    {
        let remaining = core.len();
        proof {
            core.lemma_order();
        }
        if remaining == 0 {
            Cursor { head: 0, tail: 0, remaining, lo: Ghost(0) }
        } else {
            Cursor { head: core.front_slot(), tail: core.back_slot(), remaining, lo: Ghost(0) }
        }
    }

    /// Takes the first entry off the stretch and returns its slot.
    pub(crate) fn take_front<K, V>(&mut self, core: &Core<K, V>) -> (r: Option<usize>)
        requires
            core.wf(),
            old(self).fits(core),
        ensures
            final(self).fits(core),
            match r {
                Some(slot) => {
                    &&& old(self).count() > 0
                    &&& core.holds(slot)
                    &&& core.position(slot) == old(self).start()
                    &&& final(self).start() == old(self).start() + 1
                    &&& final(self).count() == old(self).count() - 1
                },
                None => {
                    &&& old(self).count() == 0
                    &&& *final(self) == *old(self)
                },
            },
    {
        if self.remaining == 0 {
            None
        } else {
            proof {
                core.lemma_slot_at(self.lo@);
            }
            let slot = self.head;
            self.head = core.next_of(slot, Ghost(self.lo@));
            self.remaining -= 1;
            proof {
                self.lo@ = self.lo@ + 1;
            }
            Some(slot)
        }
    }

    /// Takes the last entry off the stretch and returns its slot.
    pub(crate) fn take_back<K, V>(&mut self, core: &Core<K, V>) -> (r: Option<usize>)
        requires
            core.wf(),
            old(self).fits(core),
        ensures
            final(self).fits(core),
            final(self).start() == old(self).start(),
            match r {
                Some(slot) => {
                    &&& old(self).count() > 0
                    &&& core.holds(slot)
                    &&& core.position(slot) == old(self).start() + old(self).count() - 1
                    &&& final(self).count() == old(self).count() - 1
                },
                None => {
                    &&& old(self).count() == 0
                    &&& *final(self) == *old(self)
                },
            },
    {
        if self.remaining == 0 {
            None
        } else {
            let ghost hi = self.lo@ + self.remaining - 1;
            proof {
                core.lemma_slot_at(hi);
            }
            let slot = self.tail;
            self.tail = core.prev_of(slot, Ghost(hi));
            self.remaining -= 1;
            Some(slot)
        }
    }

    /// The number of entries yet to come.
    pub(crate) fn len(&self) -> (r: usize)
        ensures
            r == self.count(),
    {
        self.remaining
    }

    /// A second cursor over the same stretch.
    pub(crate) fn copy(&self) -> (r: Cursor)
        ensures
            r == *self,
    {
        Cursor { head: self.head, tail: self.tail, remaining: self.remaining, lo: self.lo }
    }
}

/// The entries of a map, for reading.
pub struct Iter<'a, K, V> {
    core: &'a Core<K, V>,
    cursor: Cursor,
}

impl<'a, K, V> Iter<'a, K, V> {
    /// The cursor stands on the first and the last entry yet to come.
    pub closed spec fn wf(&self) -> bool {
        self.core.wf() && self.cursor.fits(self.core)
    }

    /// The entries yet to come, from front to back.
    pub closed spec fn view(&self) -> Seq<(K, V)> {
        self.cursor.stretch(self.core)
    }

    /// An iterator over all entries of `core`.
    pub(crate) fn new(core: &'a Core<K, V>) -> (r: Self)
        requires
            core.wf(),
        ensures
            r.wf(),
            r@ == core@,
    {
        let cursor = Cursor::over(core);
        proof {
            assert(core@.subrange(0, core@.len() as int) =~= core@);
        }
        Iter { core, cursor }
    }

    /// Yields the first of the entries yet to come.
    pub fn next(&mut self) -> (r: Option<(&'a K, &'a V)>)
        requires
            old(self).wf(),
        ensures
            final(self).wf(),
            match r {
                Some(kv) => old(self)@.len() > 0 && (*kv.0, *kv.1) == old(self)@[0] && final(self)@
                    == old(self)@.drop_first(),
                None => old(self)@.len() == 0 && final(self)@ == old(self)@,
            },
    {
        let core = self.core;
        proof {
            self.cursor.lemma_within(core);
        }
        match self.cursor.take_front(core) {
            Some(slot) => {
                proof {
                    core.lemma_holds(slot);
                    assert(self@ =~= old(self)@.drop_first());
                }
                Some(core.key_value(slot))
            },
            None => None,
        }
    }

    /// Yields the last of the entries yet to come.
    pub fn next_back(&mut self) -> (r: Option<(&'a K, &'a V)>)
        requires
            old(self).wf(),
        ensures
            final(self).wf(),
            match r {
                Some(kv) => {
                    &&& old(self)@.len() > 0
                    &&& (*kv.0, *kv.1) == old(self)@.last()
                    &&& final(self)@ == old(self)@.drop_last()
                },
                None => {
                    &&& old(self)@.len() == 0
                    &&& final(self)@ == old(self)@
                },
            },
    {
        let core = self.core;
        proof {
            self.cursor.lemma_within(core);
        }
        match self.cursor.take_back(core) {
            Some(slot) => {
                proof {
                    core.lemma_holds(slot);
                    assert(self@ =~= old(self)@.drop_last());
                }
                Some(core.key_value(slot))
            },
            None => None,
        }
    }

    /// The number of entries yet to come, as a lower and an upper bound.
    pub fn size_hint(&self) -> (r: (usize, Option<usize>))
        requires
            self.wf(),
        ensures
            r.0 == self@.len(),
            r.1 == Some(r.0),
    {
        proof {
            self.cursor.lemma_within(self.core);
        }
        let n = self.cursor.len();
        (n, Some(n))
    }

    /// The number of entries yet to come.
    pub fn len(&self) -> (r: usize)
        requires
            self.wf(),
        ensures
            r == self@.len(),
    {
        proof {
            self.cursor.lemma_within(self.core);
        }
        self.cursor.len()
    }
}

impl<'a, K, V> Clone for Iter<'a, K, V> {
    fn clone(&self) -> (r: Self)
        ensures
            r == *self,
    {
        Iter { core: self.core, cursor: self.cursor.copy() }
    }
}

/// The keys of a map, for reading.
pub struct Keys<'a, K, V> {
    inner: Iter<'a, K, V>,
}

impl<'a, K, V> Keys<'a, K, V> {
    /// The cursors of the iterator behind are in order.
    pub closed spec fn wf(&self) -> bool {
        self.inner.wf()
    }

    /// The keys yet to come, from front to back.
    pub closed spec fn view(&self) -> Seq<K> {
        self.inner@.map_values(|kv: (K, V)| kv.0)
    }

    /// The keys of the entries that `inner` has yet to yield.
    pub(crate) fn new(inner: Iter<'a, K, V>) -> (r: Self)
        requires
            inner.wf(),
        ensures
            r.wf(),
            r@ == inner@.map_values(|kv: (K, V)| kv.0),
    {
        Keys { inner }
    }

    /// Yields the first of the keys yet to come.
    pub fn next(&mut self) -> (r: Option<&'a K>)
        requires
            old(self).wf(),
        ensures
            final(self).wf(),
            match r {
                Some(k) => {
                    &&& old(self)@.len() > 0
                    &&& *k == old(self)@[0]
                    &&& final(self)@ == old(self)@.drop_first()
                },
                None => {
                    &&& old(self)@.len() == 0
                    &&& final(self)@ == old(self)@
                },
            },
    {
        match self.inner.next() {
            Some(kv) => {
                proof {
                    assert(self@ =~= old(self)@.drop_first());
                }
                Some(kv.0)
            },
            None => None,
        }
    }

    /// Yields the last of the keys yet to come.
    pub fn next_back(&mut self) -> (r: Option<&'a K>)
        requires
            old(self).wf(),
        ensures
            final(self).wf(),
            match r {
                Some(k) => {
                    &&& old(self)@.len() > 0
                    &&& *k == old(self)@.last()
                    &&& final(self)@ == old(self)@.drop_last()
                },
                None => {
                    &&& old(self)@.len() == 0
                    &&& final(self)@ == old(self)@
                },
            },
    {
        match self.inner.next_back() {
            Some(kv) => {
                proof {
                    assert(self@ =~= old(self)@.drop_last());
                }
                Some(kv.0)
            },
            None => None,
        }
    }

    /// The number of keys yet to come, as a lower and an upper bound.
    pub fn size_hint(&self) -> (r: (usize, Option<usize>))
        requires
            self.wf(),
        ensures
            r.0 == self@.len(),
            r.1 == Some(r.0),
    {
        self.inner.size_hint()
    }

    /// The number of keys yet to come.
    pub fn len(&self) -> (r: usize)
        requires
            self.wf(),
        ensures
            r == self@.len(),
    {
        self.inner.len()
    }
}

impl<'a, K, V> Clone for Keys<'a, K, V> {
    fn clone(&self) -> (r: Self)
        ensures
            r == *self,
    {
        Keys { inner: self.inner.clone() }
    }
}

/// The values of a map, for reading.
pub struct Values<'a, K, V> {
    inner: Iter<'a, K, V>,
}

impl<'a, K, V> Values<'a, K, V> {
    /// The cursors of the iterator behind are in order.
    pub closed spec fn wf(&self) -> bool {
        self.inner.wf()
    }

    /// The values yet to come, from front to back.
    pub closed spec fn view(&self) -> Seq<V> {
        self.inner@.map_values(|kv: (K, V)| kv.1)
    }

    /// The values of the entries that `inner` has yet to yield.
    pub(crate) fn new(inner: Iter<'a, K, V>) -> (r: Self)
        requires
            inner.wf(),
        ensures
            r.wf(),
            r@ == inner@.map_values(|kv: (K, V)| kv.1),
    {
        Values { inner }
    }

    /// Yields the first of the values yet to come.
    pub fn next(&mut self) -> (r: Option<&'a V>)
        requires
            old(self).wf(),
        ensures
            final(self).wf(),
            match r {
                Some(v) => {
                    &&& old(self)@.len() > 0
                    &&& *v == old(self)@[0]
                    &&& final(self)@ == old(self)@.drop_first()
                },
                None => {
                    &&& old(self)@.len() == 0
                    &&& final(self)@ == old(self)@
                },
            },
    {
        match self.inner.next() {
            Some(kv) => {
                proof {
                    assert(self@ =~= old(self)@.drop_first());
                }
                Some(kv.1)
            },
            None => None,
        }
    }

    /// Yields the last of the values yet to come.
    pub fn next_back(&mut self) -> (r: Option<&'a V>)
        requires
            old(self).wf(),
        ensures
            final(self).wf(),
            match r {
                Some(v) => {
                    &&& old(self)@.len() > 0
                    &&& *v == old(self)@.last()
                    &&& final(self)@ == old(self)@.drop_last()
                },
                None => {
                    &&& old(self)@.len() == 0
                    &&& final(self)@ == old(self)@
                },
            },
    {
        match self.inner.next_back() {
            Some(kv) => {
                proof {
                    assert(self@ =~= old(self)@.drop_last());
                }
                Some(kv.1)
            },
            None => None,
        }
    }

    /// The number of values yet to come, as a lower and an upper bound.
    pub fn size_hint(&self) -> (r: (usize, Option<usize>))
        requires
            self.wf(),
        ensures
            r.0 == self@.len(),
            r.1 == Some(r.0),
    {
        self.inner.size_hint()
    }

    /// The number of values yet to come.
    pub fn len(&self) -> (r: usize)
        requires
            self.wf(),
        ensures
            r == self@.len(),
    {
        self.inner.len()
    }
}

impl<'a, K, V> Clone for Values<'a, K, V> {
    fn clone(&self) -> (r: Self)
        ensures
            r == *self,
    {
        Values { inner: self.inner.clone() }
    }
}

/// The entries of a map, handed out for good: the map they came from is
/// left empty.
pub struct Drain<K, V> {
    core: Core<K, V>,
}

impl<K, V> Drain<K, V> {
    /// The arena that was taken over is valid.
    pub closed spec fn wf(&self) -> bool {
        self.core.wf()
    }

    /// The entries yet to come, from front to back.
    pub closed spec fn view(&self) -> Seq<(K, V)> {
        self.core@
    }

    /// The number of vacated slots in the arena that was taken over. The
    /// slot of each entry handed out joins them.
    pub closed spec fn spare_len(&self) -> nat {
        self.core.spare_len()
    }

    /// Takes over an arena and what it holds.
    pub(crate) fn new(core: Core<K, V>) -> (r: Self)
        requires
            core.wf(),
        ensures
            r.wf(),
            r@ == core@,
            r.spare_len() == core.spare_len(),
    {
        Drain { core }
    }

    /// Yields the first of the entries yet to come.
    pub fn next(&mut self) -> (r: Option<(K, V)>)
        requires
            old(self).wf(),
        ensures
            final(self).wf(),
            final(self).spare_len() == if r is Some {
                old(self).spare_len() + 1
            } else {
                old(self).spare_len()
            },
            match r {
                Some(kv) => {
                    &&& old(self)@.len() > 0
                    &&& kv == old(self)@[0]
                    &&& final(self)@ == old(self)@.drop_first()
                },
                None => {
                    &&& old(self)@.len() == 0
                    &&& final(self)@ == old(self)@
                },
            },
    {
        if self.core.len() == 0 {
            return None;
        }
        proof {
            self.core.lemma_order();
            self.core.lemma_slot_at(0);
        }
        let front = self.core.front_slot();
        let kv = self.core.remove(front);
        proof {
            assert(old(self)@.remove(0) =~= old(self)@.drop_first());
        }
        Some(kv)
    }

    /// Yields the last of the entries yet to come.
    pub fn next_back(&mut self) -> (r: Option<(K, V)>)
        requires
            old(self).wf(),
        ensures
            final(self).wf(),
            final(self).spare_len() == if r is Some {
                old(self).spare_len() + 1
            } else {
                old(self).spare_len()
            },
            match r {
                Some(kv) => {
                    &&& old(self)@.len() > 0
                    &&& kv == old(self)@.last()
                    &&& final(self)@ == old(self)@.drop_last()
                },
                None => {
                    &&& old(self)@.len() == 0
                    &&& final(self)@ == old(self)@
                },
            },
    {
        if self.core.len() == 0 {
            return None;
        }
        proof {
            self.core.lemma_order();
            self.core.lemma_slot_at(self.core.order().len() - 1);
        }
        let back = self.core.back_slot();
        let kv = self.core.remove(back);
        proof {
            assert(old(self)@.remove(old(self)@.len() - 1) =~= old(self)@.drop_last());
        }
        Some(kv)
    }

    /// The number of entries yet to come, as a lower and an upper bound.
    pub fn size_hint(&self) -> (r: (usize, Option<usize>))
        requires
            self.wf(),
        ensures
            r.0 == self@.len(),
            r.1 == Some(r.0),
    {
        let n = self.core.len();
        (n, Some(n))
    }

    /// The number of entries yet to come.
    pub fn len(&self) -> (r: usize)
        requires
            self.wf(),
        ensures
            r == self@.len(),
    {
        self.core.len()
    }
}

/// The entries of a map, with their values for writing.
///
/// Each entry is lent out until the next one is asked for. What is written
/// to a value is written to the map.
pub struct IterMut<'a, K, V> {
    pub core: &'a mut Core<K, V>,
    pub cursor: Cursor,
}

impl<'a, K, V> IterMut<'a, K, V> {
    /// The arena as it stands.
    pub open spec fn arena(&self) -> Core<K, V> {
        *self.core
    }

    /// The cursor stands on the first and the last entry yet to come.
    pub open spec fn wf(&self) -> bool {
        self.core.wf() && self.cursor.fits(self.core)
    }

    /// The position in the map of the first entry yet to come.
    pub open spec fn start(&self) -> int {
        self.cursor.start()
    }

    /// The entries yet to come, from front to back.
    pub open spec fn view(&self) -> Seq<(K, V)> {
        self.cursor.stretch(self.core)
    }

    /// An iterator over all entries of `core`.
    pub(crate) fn new(core: &'a mut Core<K, V>) -> (r: Self)
        requires
            old(core).wf(),
        ensures
            r.wf(),
            r.arena() == *old(core),
            r.start() == 0,
            r@ == old(core)@,
            *final(r.core) == *final(core),
    {
        let cursor = Cursor::over(core);
        proof {
            assert(core@.subrange(0, core@.len() as int) =~= core@);
        }
        IterMut { core, cursor }
    }

    /// Lends out the first of the entries yet to come.
    pub fn next(&mut self) -> (r: Option<(&K, &mut V)>)
        requires
            old(self).wf(),
        ensures
            final(self).wf(),
            *final(final(self).core) == *final(old(self).core),
            final(self).arena().hashes() == old(self).arena().hashes(),
            final(self).arena().spare_len() == old(self).arena().spare_len(),
            match r {
                Some(kv) => {
                    &&& old(self)@.len() > 0
                    &&& (*kv.0, *kv.1) == old(self)@[0]
                    &&& final(self).start() == old(self).start() + 1
                    &&& final(self).arena()@ == after_write(
                        old(self).arena()@,
                        Some(old(self).start()),
                        *final(kv.1),
                    )
                    &&& final(self)@ == old(self)@.drop_first()
                },
                None => {
                    &&& old(self)@.len() == 0
                    &&& final(self).arena() == old(self).arena()
                    &&& final(self)@ == old(self)@
                    &&& final(self).start() == old(self).start()
                },
            },
    {
        proof {
            self.cursor.lemma_within(self.core);
        }
        match self.cursor.take_front(self.core) {
            Some(slot) => {
                proof {
                    self.core.lemma_holds(slot);
                }
                Some(self.core.value_mut(slot))
            },
            None => None,
        }
    }

    /// Lends out the last of the entries yet to come.
    pub fn next_back(&mut self) -> (r: Option<(&K, &mut V)>)
        requires
            old(self).wf(),
        ensures
            final(self).wf(),
            *final(final(self).core) == *final(old(self).core),
            final(self).arena().hashes() == old(self).arena().hashes(),
            final(self).arena().spare_len() == old(self).arena().spare_len(),
            final(self).start() == old(self).start(),
            match r {
                Some(kv) => {
                    &&& old(self)@.len() > 0
                    &&& (*kv.0, *kv.1) == old(self)@.last()
                    &&& final(self).arena()@ == after_write(
                        old(self).arena()@,
                        Some(old(self).start() + old(self)@.len() - 1),
                        *final(kv.1),
                    )
                    &&& final(self)@ == old(self)@.drop_last()
                },
                None => {
                    &&& old(self)@.len() == 0
                    &&& final(self).arena() == old(self).arena()
                    &&& final(self)@ == old(self)@
                },
            },
    {
        proof {
            self.cursor.lemma_within(self.core);
        }
        match self.cursor.take_back(self.core) {
            Some(slot) => {
                proof {
                    self.core.lemma_holds(slot);
                }
                Some(self.core.value_mut(slot))
            },
            None => None,
        }
    }

    /// The number of entries yet to come, as a lower and an upper bound.
    pub fn size_hint(&self) -> (r: (usize, Option<usize>))
        requires
            self.wf(),
        ensures
            r.0 == self@.len(),
            r.1 == Some(r.0),
    {
        proof {
            self.cursor.lemma_within(self.core);
        }
        let n = self.cursor.len();
        (n, Some(n))
    }

    /// The number of entries yet to come.
    pub fn len(&self) -> (r: usize)
        requires
            self.wf(),
        ensures
            r == self@.len(),
    {
        proof {
            self.cursor.lemma_within(self.core);
        }
        self.cursor.len()
    }
}

/// The values of a map, for writing.
pub struct ValuesMut<'a, K, V> {
    pub inner: IterMut<'a, K, V>,
}

impl<'a, K, V> ValuesMut<'a, K, V> {
    /// The arena as it stands.
    pub open spec fn arena(&self) -> Core<K, V> {
        self.inner.arena()
    }

    /// The cursors of the iterator behind are in order.
    pub open spec fn wf(&self) -> bool {
        self.inner.wf()
    }

    /// The position in the map of the first value yet to come.
    pub open spec fn start(&self) -> int {
        self.inner.start()
    }

    /// The values yet to come, from front to back.
    pub open spec fn view(&self) -> Seq<V> {
        self.inner@.map_values(|kv: (K, V)| kv.1)
    }

    /// Lends out the first of the values yet to come.
    pub fn next(&mut self) -> (r: Option<&mut V>)
        requires
            old(self).wf(),
        ensures
            final(self).wf(),
            *final(final(self).inner.core) == *final(old(self).inner.core),
            final(self).arena().hashes() == old(self).arena().hashes(),
            final(self).arena().spare_len() == old(self).arena().spare_len(),
            match r {
                Some(v) => {
                    &&& old(self)@.len() > 0
                    &&& *v == old(self)@[0]
                    &&& final(self).start() == old(self).start() + 1
                    &&& final(self).arena()@ == after_write(
                        old(self).arena()@,
                        Some(old(self).start()),
                        *final(v),
                    )
                    &&& final(self)@ == old(self)@.drop_first()
                },
                None => {
                    &&& old(self)@.len() == 0
                    &&& final(self).arena() == old(self).arena()
                    &&& final(self)@ == old(self)@
                    &&& final(self).start() == old(self).start()
                },
            },
    {
        match self.inner.next() {
            Some(kv) => Some(kv.1),
            None => None,
        }
    }

    /// Lends out the last of the values yet to come.
    pub fn next_back(&mut self) -> (r: Option<&mut V>)
        requires
            old(self).wf(),
        ensures
            final(self).wf(),
            *final(final(self).inner.core) == *final(old(self).inner.core),
            final(self).arena().hashes() == old(self).arena().hashes(),
            final(self).arena().spare_len() == old(self).arena().spare_len(),
            final(self).start() == old(self).start(),
            match r {
                Some(v) => {
                    &&& old(self)@.len() > 0
                    &&& *v == old(self)@.last()
                    &&& final(self).arena()@ == after_write(
                        old(self).arena()@,
                        Some(old(self).start() + old(self)@.len() - 1),
                        *final(v),
                    )
                    &&& final(self)@ == old(self)@.drop_last()
                },
                None => {
                    &&& old(self)@.len() == 0
                    &&& final(self).arena() == old(self).arena()
                    &&& final(self)@ == old(self)@
                },
            },
    {
        match self.inner.next_back() {
            Some(kv) => Some(kv.1),
            None => None,
        }
    }

    /// The number of values yet to come, as a lower and an upper bound.
    pub fn size_hint(&self) -> (r: (usize, Option<usize>))
        requires
            self.wf(),
        ensures
            r.0 == self@.len(),
            r.1 == Some(r.0),
    {
        self.inner.size_hint()
    }

    /// The number of values yet to come.
    pub fn len(&self) -> (r: usize)
        requires
            self.wf(),
        ensures
            r == self@.len(),
    {
        self.inner.len()
    }
}

} // verus!
