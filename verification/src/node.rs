//! Arena slots.

use vstd::prelude::*;

verus! {

/// One slot of the arena.
///
/// A live slot holds a key, a value and the hash under which the key is
/// filed in the index. The anchor slot and the slots of the free list hold
/// no item. `prev` and `next` are slot handles: the neighbours in the order
/// ring for a live slot and for the anchor, the rest of the chain (through
/// `next` alone) for a free slot.
pub(crate) struct Node<K, V> {
    pub(crate) item: Option<(K, V)>,
    pub(crate) hash: u64,
    pub(crate) prev: usize,
    pub(crate) next: usize,
}

/// The key stored in slot `slot`.
fn node_key<K, V>(nodes: &Vec<Node<K, V>>, slot: usize) -> (r: &K)
    requires
        slot < nodes.len(),
        nodes[slot as int].item is Some,
    ensures
        *r == nodes[slot as int].item.unwrap().0,
{
    match &nodes[slot].item {
        Some(pair) => &pair.0,
        None => vstd::pervasive::unreached(),
    }
}

/// Puts the key stored in slot `slot` to the predicate `is_match`.
pub(crate) fn key_matches<K, V, F: FnMut(&K) -> bool>(
    nodes: &Vec<Node<K, V>>,
    slot: usize,
    is_match: &mut F,
) -> (r: bool)
    requires
        slot < nodes.len(),
        nodes[slot as int].item is Some,
        call_requires(*old(is_match), (&nodes[slot as int].item.unwrap().0,)),
    ensures
        call_ensures(*old(is_match), (&nodes[slot as int].item.unwrap().0,), r),
{
    is_match(node_key(nodes, slot))
}

/// The hash recorded in slot `slot`.
pub(crate) fn node_hash<K, V>(nodes: &Vec<Node<K, V>>, slot: usize) -> (r: u64)
    requires
        slot < nodes.len(),
    ensures
        r == nodes[slot as int].hash,
{
    nodes[slot].hash
}

/// Whether two handles name the same slot.
pub(crate) fn same_slot(a: usize, b: usize) -> (r: bool)
    ensures
        r == (a == b),
{
    a == b
}

} // verus!
