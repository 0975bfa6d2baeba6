//! What holds of the map across several operations.
//!
//! The laws are stated over the views of a map and over what the searches
//! of its operations came to, in the terms in which the operations
//! themselves are specified. Those that speak of a key being found again
//! ask of the map what the operations on keys keep up as long as hashing is
//! consistent: that no two entries have equal keys, and that the hash given
//! is the one under which the map files the keys equal to the key given.

use vstd::prelude::*;
use vstd::laws_eq::{obeys_eq, obeys_eq_spec_properties};
use vstd::std_specs::cmp::PartialEqSpec;
use crate::model::{
    after_insert, after_inserts, after_remove, all_located, files_under, hashes_after_insert,
    held_under, holds_key, located, refuses, unique_keys, value_at,
};

verus! {

/// One operation that may change the number of entries, with what its
/// search came to.
pub enum Step<K, V> {
    /// `insert(key, value)`, whose search came to `at`.
    Insert { at: Option<int>, key: K, value: V },
    /// `remove`, whose search came to `at`.
    Remove { at: Option<int> },
    /// `pop_front`.
    PopFront,
    /// `pop_back`.
    PopBack,
}

/// What the search of a step came to is a position of the map, or none.
pub open spec fn fits<K, V>(m: Seq<(K, V)>, step: Step<K, V>) -> bool {
    match step {
        Step::Insert { at: Some(i), .. } => 0 <= i < m.len(),
        Step::Remove { at: Some(i) } => 0 <= i < m.len(),
        _ => true,
    }
}

/// The entries after a step.
pub open spec fn apply<K, V>(m: Seq<(K, V)>, step: Step<K, V>) -> Seq<(K, V)> {
    match step {
        Step::Insert { at, key, value } => after_insert(m, at, key, value),
        Step::Remove { at } => after_remove(m, at),
        Step::PopFront => if m.len() > 0 {
            m.drop_first()
        } else {
            m
        },
        Step::PopBack => if m.len() > 0 {
            m.drop_last()
        } else {
            m
        },
    }
}

/// What a step counts for: one for an insertion that found no entry, minus
/// one for a removal or a pop that took an entry out, nothing otherwise.
pub open spec fn gain<K, V>(m: Seq<(K, V)>, step: Step<K, V>) -> int {
    match step {
        Step::Insert { at: None, .. } => 1,
        Step::Insert { at: Some(_), .. } => 0,
        Step::Remove { at: Some(_) } => -1,
        Step::Remove { at: None } => 0,
        Step::PopFront => if m.len() > 0 {
            -1
        } else {
            0
        },
        Step::PopBack => if m.len() > 0 {
            -1
        } else {
            0
        },
    }
}

/// The entries of a new map after a sequence of steps.
pub open spec fn run<K, V>(steps: Seq<Step<K, V>>) -> Seq<(K, V)>
    decreases steps.len(),
{
    if steps.len() == 0 {
        Seq::empty()
    } else {
        apply(run(steps.drop_last()), steps.last())
    }
}

/// Every step of the sequence fits the map it is applied to.
pub open spec fn all_fit<K, V>(steps: Seq<Step<K, V>>) -> bool
    decreases steps.len(),
{
    steps.len() == 0 || (all_fit(steps.drop_last()) && fits(run(steps.drop_last()), steps.last()))
}

/// Insertions of new keys minus removals and pops that took an entry out.
pub open spec fn net<K, V>(steps: Seq<Step<K, V>>) -> int
    decreases steps.len(),
{
    if steps.len() == 0 {
        0
    } else {
        net(steps.drop_last()) + gain(run(steps.drop_last()), steps.last())
    }
}

/// After any sequence of operations on a new map, the number of entries is
/// the number of insertions that found no entry minus the number of
/// removals and pops that took one out. `len` returns that number, and an
/// iterator yields as many entries.
pub proof fn law_len_counts<K, V>(steps: Seq<Step<K, V>>)
    requires
        all_fit(steps),
    ensures
        run(steps).len() == net(steps),
    decreases steps.len(),
{
    if steps.len() > 0 {
        law_len_counts(steps.drop_last());
    }
}

/// A key that compares unequal to every key of the map lands at the back:
/// whatever hash the search runs under, it finds nothing, and `insert` adds
/// the new entry behind all others.
pub proof fn law_fresh_key_lands_at_back<K: PartialEq, V>(
    m: Seq<(K, V)>,
    hashes: Seq<u64>,
    hash: u64,
    k: K,
    v: V,
    at: Option<int>,
)
    requires
        K::obeys_eq_spec(),
        located(m, hashes, hash, &k, at),
        forall|i: int| 0 <= i < m.len() ==> !k.eq_spec(&(#[trigger] m[i]).0),
    ensures
        at is None,
        value_at(m, at) is None,
        after_insert(m, at, k, v) == m.push((k, v)),
        after_insert(m, at, k, v).last() == (k, v),
{
}

/// A key that the map holds is found where it is, in a map without equal
/// keys and under the hash the map files it under.
pub proof fn lemma_present_key_is_found<K: PartialEq, V>(
    m: Seq<(K, V)>,
    hashes: Seq<u64>,
    hash: u64,
    k: K,
    at: Option<int>,
    i: int,
)
    requires
        obeys_eq::<K>(),
        unique_keys(m),
        files_under(m, hashes, hash, &k),
        located(m, hashes, hash, &k, at),
        0 <= i < m.len(),
        k.eq_spec(&m[i].0),
    ensures
        at == Some(i),
{
    reveal(obeys_eq_spec_properties);
    match at {
        Some(j) => {
            assert(k.eq_spec(&m[j].0));
            assert(m[i].0.eq_spec(&k));
            assert(m[i].0.eq_spec(&m[j].0));
        },
        None => {
            assert(hashes[i] == hash);
            assert(refuses(&k, &m[i].0));
        },
    }
}

/// A key that the map holds keeps its place in the map's keys but moves to
/// the back: `insert` puts the new value under the key that is there,
/// returns the old value, and makes the entry the newest.
pub proof fn law_present_key_moves_to_back<K: PartialEq, V>(
    m: Seq<(K, V)>,
    hashes: Seq<u64>,
    hash: u64,
    k: K,
    v: V,
    at: Option<int>,
    i: int,
)
    requires
        obeys_eq::<K>(),
        unique_keys(m),
        files_under(m, hashes, hash, &k),
        located(m, hashes, hash, &k, at),
        0 <= i < m.len(),
        k.eq_spec(&m[i].0),
    ensures
        value_at(m, at) == Some(m[i].1),
        after_insert(m, at, k, v) == m.remove(i).push((m[i].0, v)),
        after_insert(m, at, k, v).last() == (m[i].0, v),
        after_insert(m, at, k, v).len() == m.len(),
{
    lemma_present_key_is_found(m, hashes, hash, k, at, i);
}

/// Pairs with distinct keys, inserted one after the other into a new map,
/// are the entries of the map, in the order of their insertion, whatever
/// hashes the insertions ran under. An iterator yields them in that order
/// from front to back.
pub proof fn law_round_trip<K: PartialEq, V>(
    pairs: Seq<(K, V)>,
    used: Seq<u64>,
    ats: Seq<Option<int>>,
)
    requires
        K::obeys_eq_spec(),
        unique_keys(pairs),
        all_located(Seq::<(K, V)>::empty(), Seq::<u64>::empty(), pairs, used, ats),
    ensures
        after_inserts(Seq::<(K, V)>::empty(), pairs, ats) == pairs,
    decreases pairs.len(),
{
    if pairs.len() > 0 {
        let n = pairs.len() - 1;
        let before = pairs.drop_last();
        assert forall|i: int, j: int|
            0 <= i < before.len() && 0 <= j < before.len() && i != j implies !(
        #[trigger] before[i]).0.eq_spec(&(#[trigger] before[j]).0) by {
            assert(before[i] == pairs[i] && before[j] == pairs[j]);
        }
        law_round_trip(before, used.drop_last(), ats.drop_last());
        match ats.last() {
            Some(i) => {
                assert(before[i] == pairs[i]);
                assert(pairs[n].0.eq_spec(&pairs[i].0));
            },
            None => {},
        }
        assert(before.push(pairs.last()) =~= pairs);
    } else {
        assert(pairs =~= Seq::<(K, V)>::empty());
    }
}

/// After `remove(k)`, the map holds no key that `k` compares equal to, and
/// no search for `k` finds anything: `contains_key(k)` is false, and what
/// indexed access asks of the map cannot be had under any hash. This is so
/// in a map without equal keys, under the hash the map files `k` under.
pub proof fn law_removed_key_is_gone<K: PartialEq, V>(
    m: Seq<(K, V)>,
    hashes: Seq<u64>,
    hash: u64,
    k: K,
    at: Option<int>,
)
    requires
        obeys_eq::<K>(),
        unique_keys(m),
        files_under(m, hashes, hash, &k),
        located(m, hashes, hash, &k, at),
    ensures
        forall|j: int|
            0 <= j < after_remove(m, at).len() ==> !k.eq_spec(&(#[trigger] after_remove(m, at)[j]).0),
        forall|h: u64, again: Option<int>|
            located(after_remove(m, at), after_remove(hashes, at), h, &k, again) ==> again
                is None,
        forall|h: u64| !held_under(after_remove(m, at), after_remove(hashes, at), h, &k),
{
    let rest = after_remove(m, at);
    assert forall|j: int| 0 <= j < rest.len() implies !k.eq_spec(&(#[trigger] rest[j]).0) by {
        if k.eq_spec(&rest[j].0) {
            match at {
                Some(i) => {
                    let j0 = if j < i {
                        j
                    } else {
                        j + 1
                    };
                    assert(rest[j] == m[j0]);
                    lemma_present_key_is_found(m, hashes, hash, k, at, j0);
                },
                None => {
                    lemma_present_key_is_found(m, hashes, hash, k, at, j);
                },
            }
        }
    }
}

/// `insert` keeps a map free of equal keys, under the hash the map files
/// the key under: the key goes in only where no entry has an equal one.
pub proof fn law_insert_keeps_keys_unique<K: PartialEq, V>(
    m: Seq<(K, V)>,
    hashes: Seq<u64>,
    hash: u64,
    k: K,
    v: V,
    at: Option<int>,
)
    requires
        obeys_eq::<K>(),
        unique_keys(m),
        files_under(m, hashes, hash, &k),
        located(m, hashes, hash, &k, at),
    ensures
        unique_keys(after_insert(m, at, k, v)),
{
    reveal(obeys_eq_spec_properties);
    let after = after_insert(m, at, k, v);
    let n = after.len() - 1;
    assert forall|i: int, j: int| 0 <= i < after.len() && 0 <= j < after.len() && i != j implies !(
    #[trigger] after[i]).0.eq_spec(&(#[trigger] after[j]).0) by {
        match at {
            Some(p) => {
                let from = |x: int| if x == n { p } else if x < p { x } else { x + 1 };
                assert(after[i].0 == m[from(i)].0);
                assert(after[j].0 == m[from(j)].0);
                assert(from(i) != from(j));
            },
            None => {
                if i < n && j < n {
                    assert(after[i] == m[i] && after[j] == m[j]);
                } else {
                    let other = if i < n { i } else { j };
                    assert(after[other] == m[other]);
                    if k.eq_spec(&m[other].0) {
                        assert(hashes[other] == hash);
                        assert(refuses(&k, &m[other].0));
                    }
                    assert(!m[other].0.eq_spec(&k));
                }
            },
        }
    }
}

/// A removal keeps a map free of equal keys.
pub proof fn law_remove_keeps_keys_unique<K: PartialEq, V>(m: Seq<(K, V)>, at: Option<int>)
    requires
        unique_keys(m),
        at matches Some(i) ==> 0 <= i < m.len(),
    ensures
        unique_keys(after_remove(m, at)),
{
    let after = after_remove(m, at);
    assert forall|i: int, j: int| 0 <= i < after.len() && 0 <= j < after.len() && i != j implies !(
    #[trigger] after[i]).0.eq_spec(&(#[trigger] after[j]).0) by {
        match at {
            Some(p) => {
                let from = |x: int| if x < p { x } else { x + 1 };
                assert(after[i] == m[from(i)]);
                assert(after[j] == m[from(j)]);
            },
            None => {},
        }
    }
}

/// In a map without equal keys, a search for `k` under the hash the map
/// files `k` under finds an entry exactly where the map holds the key: what
/// `contains_key` answers and whether `get`, `insert` and `remove` return a
/// value all tell whether the key is there.
pub proof fn law_search_tells_presence<K: PartialEq, V>(
    m: Seq<(K, V)>,
    hashes: Seq<u64>,
    hash: u64,
    k: K,
    at: Option<int>,
)
    requires
        obeys_eq::<K>(),
        unique_keys(m),
        files_under(m, hashes, hash, &k),
        located(m, hashes, hash, &k, at),
    ensures
        at is Some <==> holds_key(m, &k),
        value_at(m, at) is Some <==> holds_key(m, &k),
{
    if holds_key(m, &k) {
        let i = choose|i: int| 0 <= i < m.len() && k.eq_spec(&(#[trigger] m[i]).0);
        lemma_present_key_is_found(m, hashes, hash, k, at, i);
    }
}

/// `insert` returns a value exactly where the key was in the map, and the
/// number of entries grows by one exactly where it was not.
pub proof fn law_insert_counts<K: PartialEq, V>(
    m: Seq<(K, V)>,
    hashes: Seq<u64>,
    hash: u64,
    k: K,
    v: V,
    at: Option<int>,
)
    requires
        obeys_eq::<K>(),
        unique_keys(m),
        files_under(m, hashes, hash, &k),
        located(m, hashes, hash, &k, at),
    ensures
        value_at(m, at) is Some <==> holds_key(m, &k),
        after_insert(m, at, k, v).len() == if holds_key(m, &k) {
            m.len()
        } else {
            m.len() + 1
        },
{
    law_search_tells_presence(m, hashes, hash, k, at);
}

/// `remove` returns a value exactly where the key was in the map, and the
/// number of entries falls by one exactly where it was.
pub proof fn law_remove_counts<K: PartialEq, V>(
    m: Seq<(K, V)>,
    hashes: Seq<u64>,
    hash: u64,
    k: K,
    at: Option<int>,
)
    requires
        obeys_eq::<K>(),
        unique_keys(m),
        files_under(m, hashes, hash, &k),
        located(m, hashes, hash, &k, at),
    ensures
        value_at(m, at) is Some <==> holds_key(m, &k),
        after_remove(m, at).len() == if holds_key(m, &k) {
            m.len() - 1
        } else {
            m.len() as int
        },
{
    law_search_tells_presence(m, hashes, hash, k, at);
}

/// After `insert(k, v)`, a search for `k` under the same hash finds the
/// newest entry, which carries `v`, and the map holds no second entry for
/// the key. A key that was not in the map must compare equal to itself.
pub proof fn law_inserted_key_is_found<K: PartialEq, V>(
    m: Seq<(K, V)>,
    hashes: Seq<u64>,
    hash: u64,
    k: K,
    v: V,
    at: Option<int>,
    again: Option<int>,
)
    requires
        obeys_eq::<K>(),
        unique_keys(m),
        files_under(m, hashes, hash, &k),
        hashes.len() == m.len(),
        located(m, hashes, hash, &k, at),
        k.eq_spec(&k),
        located(
            after_insert(m, at, k, v),
            hashes_after_insert(hashes, at, hash),
            hash,
            &k,
            again,
        ),
    ensures
        again == Some(after_insert(m, at, k, v).len() - 1),
        value_at(after_insert(m, at, k, v), again) == Some(v),
        unique_keys(after_insert(m, at, k, v)),
        files_under(after_insert(m, at, k, v), hashes_after_insert(hashes, at, hash), hash, &k),
{
    reveal(obeys_eq_spec_properties);
    let after = after_insert(m, at, k, v);
    let filed = hashes_after_insert(hashes, at, hash);
    let n = after.len() - 1;
    law_insert_keeps_keys_unique(m, hashes, hash, k, v, at);
    assert(k.eq_spec(&after[n].0));
    assert forall|j: int| 0 <= j < after.len() && k.eq_spec(&(#[trigger] after[j]).0) implies filed[j]
        == hash by {
        match at {
            Some(p) => {
                let from = if j == n { p } else if j < p { j } else { j + 1 };
                assert(after[j].0 == m[from].0);
                assert(filed[j] == hashes[from]);
            },
            None => {
                if j < n {
                    assert(after[j] == m[j]);
                    assert(filed[j] == hashes[j]);
                }
            },
        }
    }
    lemma_present_key_is_found(after, filed, hash, k, again, n);
}

/// Once the entry at a position is taken out of a map without equal keys,
/// no search for its key finds anything, whatever hash it runs under:
/// after `pop_front`, `pop_back` or a removal, `contains_key` is false for
/// the key that left.
pub proof fn law_taken_key_is_gone<K: PartialEq, V>(m: Seq<(K, V)>, hashes: Seq<u64>, i: int)
    requires
        K::obeys_eq_spec(),
        unique_keys(m),
        0 <= i < m.len(),
    ensures
        !holds_key(m.remove(i), &m[i].0),
        forall|h: u64, again: Option<int>|
            located(m.remove(i), hashes.remove(i), h, &m[i].0, again) ==> again is None,
        i == 0 ==> m.remove(i) == m.drop_first() && hashes.remove(i) == hashes.drop_first(),
        i == m.len() - 1 ==> m.remove(i) == m.drop_last(),
{
    let rest = m.remove(i);
    assert forall|j: int| 0 <= j < rest.len() implies !m[i].0.eq_spec(&(#[trigger] rest[j]).0) by {
        let from = if j < i { j } else { j + 1 };
        assert(rest[j] == m[from]);
    }
    if i == 0 {
        assert(m.remove(i) =~= m.drop_first());
        assert(hashes.remove(i) =~= hashes.drop_first());
    }
    if i == m.len() - 1 {
        assert(m.remove(i) =~= m.drop_last());
    }
}

} // verus!
