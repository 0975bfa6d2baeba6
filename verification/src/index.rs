//! The hash index: a `hashbrown::HashTable` of slot handles.
//!
//! The table never hashes a handle by itself. Every search passes the hash
//! of the key that is looked for and a predicate that reads the key of a
//! slot; every operation that may move entries passes a function that reads
//! the hash recorded in a slot.

use vstd::prelude::*;
use hashbrown::HashTable;
use crate::node::{key_matches, node_hash, same_slot, Node};

verus! {

/// The largest number of entries for which the index is asked to make room.
/// Below it the table's size computations in bytes stay within `isize::MAX`,
/// on which hashbrown would otherwise panic with a capacity overflow.
pub const MAX_ENTRIES: usize = usize::MAX / 256;

/// A `hashbrown::HashTable<usize>` whose elements are slot handles.
///
/// The table's own type is bounded by an allocator trait that the verifier
/// is not told of, so the table sits in this struct, whose inside the
/// verifier does not read. What it holds goes by the name `index_filed`.
#[verifier::external_body]
pub struct Index {
    table: HashTable<usize>,
}

/// The handles that an index holds, each with the hash under which it is
/// filed: the hash that was handed over when the handle was inserted. The
/// table keeps a handle findable under that hash as long as every function
/// that it is given to hash a handle anew returns that same hash.
pub uninterp spec fn index_filed(index: Index) -> Map<usize, u64>;

/// What an index holds when it holds nothing.
pub open spec fn no_handles() -> Map<usize, u64> {
    Map::empty()
}

/// Every handle of the index names a slot of `nodes` that records the hash
/// under which the handle is filed.
pub(crate) open spec fn index_backed<K, V>(index: Index, nodes: Seq<Node<K, V>>) -> bool {
    forall|i: usize| #[trigger]
        index_filed(index).dom().contains(i) ==> i < nodes.len() && nodes[i as int].hash
            == index_filed(index)[i]
}

/// `HashTable::new`: an index that holds nothing and has allocated nothing.
#[verifier::external_body]
pub(crate) fn index_new() -> (r: Index)
    ensures
        index_filed(r) == no_handles(),
{
    Index { table: HashTable::new() }
}

/// `HashTable::with_capacity`: an index that holds nothing, with room for
/// `capacity` handles. hashbrown panics where the room asked for overflows
/// its size computation; `MAX_ENTRIES` keeps clear of that.
#[verifier::external_body]
pub(crate) fn index_with_capacity(capacity: usize) -> (r: Index)
    requires
        capacity <= MAX_ENTRIES,
    ensures
        index_filed(r) == no_handles(),
{
    Index { table: HashTable::with_capacity(capacity) }
}

/// `HashTable::len`: the number of handles held.
#[verifier::external_body]
pub(crate) fn index_len(index: &Index) -> (r: usize)
    requires
        index_filed(*index).dom().finite(),
    ensures
        r == index_filed(*index).dom().len(),
{
    index.table.len()
}

/// `HashTable::find`, with the predicate applied to the key of the slot that
/// a handle names.
///
/// hashbrown calls the predicate on every element filed under `hash`, and
/// may call it on elements filed under another hash; it stops at the first
/// element for which the predicate answers `true` and returns it. So a
/// handle that comes back is held by the index and its key was accepted,
/// and where none comes back the predicate has refused the key of every
/// handle filed under `hash`.
#[verifier::external_body]
pub(crate) fn index_find<K, V, F: FnMut(&K) -> bool>(
    index: &Index,
    hash: u64,
    nodes: &Vec<Node<K, V>>,
    is_match: F,
) -> (r: Option<usize>)
    requires
        forall|i: usize| #[trigger]
            index_filed(*index).dom().contains(i) ==> i < nodes.len() && nodes[i as int].item
                is Some && call_requires(is_match, (&nodes[i as int].item.unwrap().0,)),
    ensures
        match r {
            Some(slot) => index_filed(*index).dom().contains(slot) && call_ensures(
                is_match,
                (&nodes[slot as int].item.unwrap().0,),
                true,
            ),
            None => forall|i: usize| #[trigger]
                index_filed(*index).dom().contains(i) && index_filed(*index)[i] == hash
                    ==> call_ensures(is_match, (&nodes[i as int].item.unwrap().0,), false),
        },
{
    let mut is_match = is_match;
    index.table.find(hash, |i: &usize| key_matches(nodes, *i, &mut is_match)).copied()
}

/// `HashTable::insert_unique`: files `slot` under `hash`, without looking
/// for it first. Where the table grows, hashbrown hashes the handles it
/// holds anew with the function given; here that function reads the hash
/// recorded in the slot, which `index_backed` makes the hash the handle is
/// filed under.
#[verifier::external_body]
pub(crate) fn index_insert<K, V>(
    index: &mut Index,
    hash: u64,
    slot: usize,
    nodes: &Vec<Node<K, V>>,
)
    requires
        !index_filed(*old(index)).dom().contains(slot),
        index_filed(*old(index)).dom().finite(),
        index_filed(*old(index)).dom().len() < MAX_ENTRIES,
        index_backed(*old(index), nodes@),
    ensures
        index_filed(*final(index)) == index_filed(*old(index)).insert(slot, hash),
{
    index.table.insert_unique(hash, slot, |i: &usize| node_hash(nodes, *i));
}

/// `HashTable::find_entry` for the handle `slot` itself, then
/// `OccupiedEntry::remove` on what was found: takes `slot` out of the index.
/// The search is the one of `index_find`, so it finds `slot` where `slot` is
/// filed under `hash`, and can come back empty where it is filed elsewhere.
/// The answer is whether the handle was taken out.
#[verifier::external_body]
pub(crate) fn index_remove(index: &mut Index, hash: u64, slot: usize) -> (r: bool)
    ensures
        r ==> index_filed(*old(index)).dom().contains(slot) && index_filed(*final(index))
            == index_filed(*old(index)).remove(slot),
        !r ==> index_filed(*final(index)) == index_filed(*old(index)) && !(index_filed(
            *old(index),
        ).dom().contains(slot) && index_filed(*old(index))[slot] == hash),
{
    match index.table.find_entry(hash, |i: &usize| same_slot(*i, slot)) {
        Ok(found) => {
            found.remove();
            true
        },
        Err(_) => false,
    }
}

/// `HashTable::clear`: drops every handle and keeps the table's storage.
#[verifier::external_body]
pub(crate) fn index_clear(index: &mut Index)
    ensures
        index_filed(*final(index)) == no_handles(),
{
    index.table.clear();
}

/// `HashTable::reserve`: makes room for `additional` more handles. What the
/// index holds stays as it is; handles are hashed anew as in `index_insert`.
#[verifier::external_body]
pub(crate) fn index_reserve<K, V>(index: &mut Index, additional: usize, nodes: &Vec<Node<K, V>>)
    requires
        index_filed(*old(index)).dom().finite(),
        index_filed(*old(index)).dom().len() + additional <= MAX_ENTRIES,
        index_backed(*old(index), nodes@),
    ensures
        index_filed(*final(index)) == index_filed(*old(index)),
{
    index.table.reserve(additional, |i: &usize| node_hash(nodes, *i));
}

/// `HashTable::shrink_to_fit`: gives back storage that the handles held do
/// not need. What the index holds stays as it is; handles are hashed anew as
/// in `index_insert`.
#[verifier::external_body]
pub(crate) fn index_shrink_to_fit<K, V>(index: &mut Index, nodes: &Vec<Node<K, V>>)
    requires
        index_backed(*old(index), nodes@),
    ensures
        index_filed(*final(index)) == index_filed(*old(index)),
{
    index.table.shrink_to_fit(|i: &usize| node_hash(nodes, *i));
}

} // verus!
