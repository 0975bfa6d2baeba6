//! What the operations on keys do, over the views of a map.
//!
//! A search runs under a hash and compares keys with `==`. It may stop at
//! any entry whose key compares equal to the key looked for, and it comes
//! back empty only where no entry filed under the hash has such a key. So
//! what a search finds is a position or none, and the operations built on a
//! search are stated here as functions of what it found.

use vstd::prelude::*;
use vstd::std_specs::cmp::PartialEqSpec;

verus! {

/// `k` compares equal to `stored`, for a key type whose `==` is specified.
pub open spec fn accepts<K: PartialEq>(k: &K, stored: &K) -> bool {
    K::obeys_eq_spec() ==> k.eq_spec(stored)
}

/// `k` compares unequal to `stored`, for a key type whose `==` is specified.
pub open spec fn refuses<K: PartialEq>(k: &K, stored: &K) -> bool {
    K::obeys_eq_spec() ==> !k.eq_spec(stored)
}

/// `kv` is an entry of `m` whose key `k` compares equal to.
pub open spec fn found<K: PartialEq, V>(m: Seq<(K, V)>, k: &K, kv: (K, V)) -> bool {
    exists|i: int| 0 <= i < m.len() && #[trigger] m[i] == kv && accepts(k, &m[i].0)
}

/// `k` compares unequal to the key of every entry of `m` filed under `hash`.
pub open spec fn absent_under<K: PartialEq, V>(
    m: Seq<(K, V)>,
    hashes: Seq<u64>,
    hash: u64,
    k: &K,
) -> bool {
    forall|i: int| 0 <= i < m.len() && #[trigger] hashes[i] == hash ==> refuses(k, &m[i].0)
}

/// `m` holds an entry, filed under `hash`, whose key `k` compares equal to,
/// and the `==` of the key type is specified: a search for `k` under `hash`
/// finds an entry.
pub open spec fn held_under<K: PartialEq, V>(
    m: Seq<(K, V)>,
    hashes: Seq<u64>,
    hash: u64,
    k: &K,
) -> bool {
    &&& K::obeys_eq_spec()
    &&& exists|i: int| 0 <= i < m.len() && #[trigger] hashes[i] == hash && k.eq_spec(&m[i].0)
}

/// A search for a key that the map holds under `hash` does not come back
/// empty.
pub proof fn lemma_held_is_found<K: PartialEq, V>(
    m: Seq<(K, V)>,
    hashes: Seq<u64>,
    hash: u64,
    k: &K,
    at: Option<int>,
)
    requires
        held_under(m, hashes, hash, k),
        located(m, hashes, hash, k, at),
    ensures
        at matches Some(i) && 0 <= i < m.len() && k.eq_spec(&m[i].0),
{
    if at is None {
        let i = choose|i: int| 0 <= i < m.len() && #[trigger] hashes[i] == hash && k.eq_spec(&m[i].0);
        assert(refuses(k, &m[i].0));
    }
}

/// What a search for `k` under `hash` may come to: a position whose key `k`
/// compares equal to, or none where no entry filed under `hash` has such a
/// key.
pub open spec fn located<K: PartialEq, V>(
    m: Seq<(K, V)>,
    hashes: Seq<u64>,
    hash: u64,
    k: &K,
    at: Option<int>,
) -> bool {
    match at {
        Some(i) => 0 <= i < m.len() && accepts(k, &m[i].0),
        None => absent_under(m, hashes, hash, k),
    }
}

/// The value at the position found.
pub open spec fn value_at<K, V>(m: Seq<(K, V)>, at: Option<int>) -> Option<V> {
    match at {
        Some(i) => Some(m[i].1),
        None => None,
    }
}

/// The entries after `insert(k, v)`: the entry found keeps its key, takes
/// the value `v` and moves to the back; where none was found, `(k, v)` is
/// added at the back.
pub open spec fn after_insert<K, V>(m: Seq<(K, V)>, at: Option<int>, k: K, v: V) -> Seq<(K, V)> {
    match at {
        Some(i) => m.remove(i).push((m[i].0, v)),
        None => m.push((k, v)),
    }
}

/// The hashes after `insert`: the entry found stays filed as it was; a new
/// entry is filed under `hash`.
pub open spec fn hashes_after_insert(hashes: Seq<u64>, at: Option<int>, hash: u64) -> Seq<u64> {
    match at {
        Some(i) => hashes.remove(i).push(hashes[i]),
        None => hashes.push(hash),
    }
}

/// The entries after the insertion of each pair in turn, where the search
/// of the insertion of `pairs[j]` came to `ats[j]`.
pub open spec fn after_inserts<K, V>(
    m: Seq<(K, V)>,
    pairs: Seq<(K, V)>,
    ats: Seq<Option<int>>,
) -> Seq<(K, V)>
    decreases pairs.len(),
{
    if pairs.len() == 0 || ats.len() != pairs.len() {
        m
    } else {
        after_insert(
            after_inserts(m, pairs.drop_last(), ats.drop_last()),
            ats.last(),
            pairs.last().0,
            pairs.last().1,
        )
    }
}

/// The hashes after the insertion of one pair after the other, where the
/// insertion of the pair `j` ran under the hash `used[j]` and its search
/// came to `ats[j]`.
pub open spec fn hashes_after_inserts(
    hashes: Seq<u64>,
    used: Seq<u64>,
    ats: Seq<Option<int>>,
) -> Seq<u64>
    decreases ats.len(),
{
    if ats.len() == 0 || used.len() != ats.len() {
        hashes
    } else {
        hashes_after_insert(
            hashes_after_inserts(hashes, used.drop_last(), ats.drop_last()),
            ats.last(),
            used.last(),
        )
    }
}

/// Each `ats[j]` is what a search for the key of `pairs[j]` under `used[j]`
/// may come to, in the map as the insertions before it have left it.
pub open spec fn all_located<K: PartialEq, V>(
    m: Seq<(K, V)>,
    hashes: Seq<u64>,
    pairs: Seq<(K, V)>,
    used: Seq<u64>,
    ats: Seq<Option<int>>,
) -> bool
    decreases pairs.len(),
{
    pairs.len() == 0 || {
        &&& ats.len() == pairs.len()
        &&& used.len() == pairs.len()
        &&& all_located(m, hashes, pairs.drop_last(), used.drop_last(), ats.drop_last())
        &&& located(
            after_inserts(m, pairs.drop_last(), ats.drop_last()),
            hashes_after_inserts(hashes, used.drop_last(), ats.drop_last()),
            used.last(),
            &pairs.last().0,
            ats.last(),
        )
    }
}

/// The number of vacated slots after `insert`: a new entry takes a vacated
/// slot where there is one; an entry found stays in its slot.
pub open spec fn spare_after_insert(spare: nat, at: Option<int>) -> nat {
    match at {
        Some(_) => spare,
        None => if spare > 0 {
            (spare - 1) as nat
        } else {
            0
        },
    }
}

/// The number of vacated slots after one insertion after the other, where
/// the search of the insertion `j` came to `ats[j]`.
pub open spec fn spare_after_inserts(spare: nat, ats: Seq<Option<int>>) -> nat
    decreases ats.len(),
{
    if ats.len() == 0 {
        spare
    } else {
        spare_after_insert(spare_after_inserts(spare, ats.drop_last()), ats.last())
    }
}

/// The number of vacated slots after a removal: the slot of the entry taken
/// out joins them.
pub open spec fn spare_after_remove(spare: nat, at: Option<int>) -> nat {
    match at {
        Some(_) => spare + 1,
        None => spare,
    }
}

/// What is left after the removal of what was found.
pub open spec fn after_remove<A>(m: Seq<A>, at: Option<int>) -> Seq<A> {
    match at {
        Some(i) => m.remove(i),
        None => m,
    }
}

/// The entries after a write of `v` to the value found.
pub open spec fn after_write<K, V>(m: Seq<(K, V)>, at: Option<int>, v: V) -> Seq<(K, V)> {
    match at {
        Some(i) => m.update(i, (m[i].0, v)),
        None => m,
    }
}

/// `m` has an entry whose key `k` compares equal to.
pub open spec fn holds_key<K: PartialEq, V>(m: Seq<(K, V)>, k: &K) -> bool {
    exists|i: int| 0 <= i < m.len() && k.eq_spec(&(#[trigger] m[i]).0)
}

/// No two entries of `m` have keys that compare equal.
pub open spec fn unique_keys<K: PartialEq, V>(m: Seq<(K, V)>) -> bool {
    forall|i: int, j: int|
        0 <= i < m.len() && 0 <= j < m.len() && i != j ==> !(#[trigger] m[i]).0.eq_spec(
            &(#[trigger] m[j]).0,
        )
}

/// Every entry of `m` whose key `k` compares equal to is filed under `hash`:
/// `hash` is where the map keeps the keys equal to `k`.
pub open spec fn files_under<K: PartialEq, V>(
    m: Seq<(K, V)>,
    hashes: Seq<u64>,
    hash: u64,
    k: &K,
) -> bool {
    forall|i: int| 0 <= i < m.len() && k.eq_spec(&(#[trigger] m[i]).0) ==> hashes[i] == hash
}

} // verus!
