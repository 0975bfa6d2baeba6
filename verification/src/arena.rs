//! The node arena, the order ring threaded through it, its free list, and
//! the hash index over its live slots.
//!
//! Slot 0 is the anchor of the ring once the arena holds anything; it never
//! carries an item. The live slots form a ring with the anchor: from the
//! anchor, `next` leads to the front (oldest) entry and on towards the back
//! (newest) one, whose `next` is the anchor again; `prev` runs the other way.
//! Slots that were vacated form a chain through `next`, starting at `free`,
//! and are handed out again before the arena grows.

use vstd::prelude::*;
use crate::index::{
    index_backed, index_clear, index_filed, index_find, index_insert, index_len, index_new,
    index_remove, index_reserve, index_shrink_to_fit, index_with_capacity, no_handles, Index,
    MAX_ENTRIES,
};
use crate::node::Node;

verus! {

/// The handle that follows position `j` of `order`: the anchor after the
/// last one. Position `-1` stands for the anchor itself.
spec fn after(order: Seq<usize>, j: int) -> usize {
    if 0 <= j + 1 < order.len() {
        order[j + 1]
    } else {
        0
    }
}

/// The handle that precedes position `j` of `order`: the anchor before the
/// first one. Position `order.len()` stands for the anchor itself.
spec fn before(order: Seq<usize>, j: int) -> usize {
    if 0 < j <= order.len() {
        order[j - 1]
    } else {
        0
    }
}

/// The slots of `order` are distinct, lie in the arena past the anchor, and
/// carry an item.
spec fn live<K, V>(nodes: Seq<Node<K, V>>, order: Seq<usize>) -> bool {
    &&& order.no_duplicates()
    &&& forall|j: int|
        0 <= j < order.len() ==> 0 < #[trigger] order[j] < nodes.len() && nodes[order[j] as int].item
            is Some
}

/// The anchor and the slots of `order` are linked into a ring, in that order.
spec fn ring<K, V>(nodes: Seq<Node<K, V>>, order: Seq<usize>) -> bool {
    &&& nodes.len() > 0
    &&& nodes[0].item is None
    &&& nodes[0].next == after(order, -1)
    &&& nodes[0].prev == before(order, order.len() as int)
    &&& order.len() > 0 ==> nodes[order[0] as int].prev == 0 && nodes[order[order.len() - 1] as int].next
        == 0
    &&& forall|i: int, j: int|
        0 <= i && j == i + 1 && j < order.len() ==> nodes[#[trigger] order[i] as int].next
            == #[trigger] order[j] && nodes[order[j] as int].prev == order[i]
}

/// The slots of `spare` are distinct, lie in the arena past the anchor,
/// carry no item, and are chained through `next` from `free` on.
spec fn chain<K, V>(nodes: Seq<Node<K, V>>, spare: Seq<usize>, free: usize) -> bool {
    &&& spare.no_duplicates()
    &&& free == after(spare, -1)
    &&& spare.len() > 0 ==> nodes[spare[spare.len() - 1] as int].next == 0
    &&& forall|j: int|
        0 <= j < spare.len() ==> 0 < #[trigger] spare[j] < nodes.len() && nodes[spare[j] as int].item
            is None
    &&& forall|i: int, j: int|
        0 <= i && j == i + 1 && j < spare.len() ==> nodes[#[trigger] spare[i] as int].next
            == #[trigger] spare[j]
}

/// The index holds exactly the slots of `order`, each filed under the hash
/// that the slot records.
spec fn indexed<K, V>(index: Index, nodes: Seq<Node<K, V>>, order: Seq<usize>) -> bool {
    &&& index_filed(index).dom().finite()
    &&& forall|s: usize| #[trigger] index_filed(index).dom().contains(s) <==> order.contains(s)
    &&& forall|s: usize| #[trigger]
        order.contains(s) ==> index_filed(index)[s] == nodes[s as int].hash
}

/// Taking the element at `p` out of a sequence without duplicates leaves one
/// without duplicates that holds the other elements.
proof fn lemma_remove(o: Seq<usize>, p: int)
    requires
        o.no_duplicates(),
        0 <= p < o.len(),
    ensures
        o.remove(p).no_duplicates(),
        forall|s: usize| #[trigger] o.remove(p).contains(s) <==> (o.contains(s) && s != o[p]),
{
    let r = o.remove(p);
    assert forall|s: usize| #[trigger] r.contains(s) <==> (o.contains(s) && s != o[p]) by {
        if r.contains(s) {
            let i = choose|i: int| 0 <= i < r.len() && r[i] == s;
            if i < p {
                assert(o[i] == s);
            } else {
                assert(o[i + 1] == s);
            }
        }
        if o.contains(s) && s != o[p] {
            let i = choose|i: int| 0 <= i < o.len() && o[i] == s;
            if i < p {
                assert(r[i] == s);
            } else {
                assert(r[i - 1] == s);
            }
        }
    }
}

/// Putting a new element in at `q` keeps a sequence free of duplicates and
/// adds that element to what it holds.
proof fn lemma_insert(o: Seq<usize>, q: int, x: usize)
    requires
        o.no_duplicates(),
        !o.contains(x),
        0 <= q <= o.len(),
    ensures
        o.insert(q, x).no_duplicates(),
        forall|s: usize| #[trigger] o.insert(q, x).contains(s) <==> (o.contains(s) || s == x),
{
    let r = o.insert(q, x);
    assert forall|s: usize| #[trigger] r.contains(s) <==> (o.contains(s) || s == x) by {
        if r.contains(s) {
            let i = choose|i: int| 0 <= i < r.len() && r[i] == s;
            if i < q {
                assert(o[i] == s);
            } else if i > q {
                assert(o[i - 1] == s);
            }
        }
        if o.contains(s) {
            let i = choose|i: int| 0 <= i < o.len() && o[i] == s;
            if i < q {
                assert(r[i] == s);
            } else {
                assert(r[i + 1] == s);
            }
        }
        if s == x {
            assert(r[q] == s);
        }
    }
    assert forall|i: int, j: int| 0 <= i < r.len() && 0 <= j < r.len() && i != j implies r[i]
        != r[j] by {
        let a = if i < q { i } else { i - 1 };
        let b = if j < q { j } else { j - 1 };
        if i != q && j != q {
            assert(o[a] != o[b]);
        } else if i == q {
            assert(o.contains(o[b]));
        } else {
            assert(o.contains(o[a]));
        }
    }
}

/// Two arenas of one length whose slots carry the same items and hashes.
spec fn same_payload<K, V>(a: Seq<Node<K, V>>, b: Seq<Node<K, V>>) -> bool {
    &&& a.len() == b.len()
    &&& forall|i: int|
        0 <= i < a.len() ==> (#[trigger] a[i]).item == b[i].item && a[i].hash == b[i].hash
}

/// The arena `b` is the arena `a` with `slot` spliced into the ring at
/// position `q` of `o`: payloads are those of `a`, and only the links that
/// the splice touches differ.
spec fn spliced_in<K, V>(
    a: Seq<Node<K, V>>,
    b: Seq<Node<K, V>>,
    o: Seq<usize>,
    slot: usize,
    q: int,
) -> bool {
    let at = before(o, q);
    let next = after(o, q - 1);
    &&& same_payload(b, a)
    &&& b[slot as int].next == next
    &&& b[slot as int].prev == at
    &&& b[at as int].next == slot
    &&& b[next as int].prev == slot
    &&& forall|i: int|
        0 <= i < a.len() && i != slot && i != at ==> (#[trigger] b[i]).next == a[i].next
    &&& forall|i: int|
        0 <= i < a.len() && i != slot && i != next ==> (#[trigger] b[i]).prev == a[i].prev
}

/// The arena `b` is the arena `a` with the slot at position `p` of `o`
/// taken out of the ring: payloads are those of `a`, and only the links of
/// its two neighbours differ.
spec fn spliced_out<K, V>(a: Seq<Node<K, V>>, b: Seq<Node<K, V>>, o: Seq<usize>, p: int) -> bool {
    let prev = before(o, p);
    let next = after(o, p);
    &&& same_payload(b, a)
    &&& b[prev as int].next == next
    &&& b[next as int].prev == prev
    &&& forall|i: int| 0 <= i < a.len() && i != prev ==> (#[trigger] b[i]).next == a[i].next
    &&& forall|i: int| 0 <= i < a.len() && i != next ==> (#[trigger] b[i]).prev == a[i].prev
}

/// In a ring, the handles on either side of a position are the anchor or
/// live slots of the arena, and they are linked to each other.
proof fn lemma_neighbours<K, V>(a: Seq<Node<K, V>>, o: Seq<usize>, q: int)
    requires
        live(a, o),
        ring(a, o),
        0 <= q <= o.len(),
    ensures
        before(o, q) < a.len(),
        after(o, q - 1) < a.len(),
        a[before(o, q) as int].next == after(o, q - 1),
        a[after(o, q - 1) as int].prev == before(o, q),
{
    if q > 0 {
        assert(0 < o[q - 1] < a.len());
    }
    if q < o.len() {
        assert(0 < o[q] < a.len());
    }
    if 0 < q < o.len() {
        let i = q - 1;
        assert(a[o[i] as int].next == o[q]);
    }
}

/// A slot of the free list is no live slot and not the anchor.
proof fn lemma_apart<K, V>(a: Seq<Node<K, V>>, o: Seq<usize>, sp: Seq<usize>, free: usize, t: int)
    requires
        live(a, o),
        chain(a, sp, free),
        0 <= t < sp.len(),
    ensures
        sp[t] != 0,
        !o.contains(sp[t]),
{
    assert(a[sp[t] as int].item is None);
    if o.contains(sp[t]) {
        let j = choose|j: int| 0 <= j < o.len() && o[j] == sp[t];
        assert(a[o[j] as int].item is Some);
    }
}

/// The free list of `a` is one of `b` too, where the two arenas agree on
/// the payload of every slot and on the `next` of every slot of the list.
proof fn lemma_chain_kept<K, V>(a: Seq<Node<K, V>>, b: Seq<Node<K, V>>, sp: Seq<usize>, free: usize)
    requires
        chain(a, sp, free),
        same_payload(b, a),
        forall|t: int| 0 <= t < sp.len() ==> b[#[trigger] sp[t] as int].next == a[sp[t] as int].next,
    ensures
        chain(b, sp, free),
{
    assert forall|j: int| 0 <= j < sp.len() implies 0 < #[trigger] sp[j] < b.len() && b[sp[j] as int].item
        is None by {
        assert(a[sp[j] as int].item is None);
    }
}

proof fn lemma_spliced_in<K, V>(
    a: Seq<Node<K, V>>,
    b: Seq<Node<K, V>>,
    o: Seq<usize>,
    sp: Seq<usize>,
    free: usize,
    slot: usize,
    q: int,
)
    requires
        live(a, o),
        ring(a, o),
        chain(a, sp, free),
        0 < slot < a.len(),
        !o.contains(slot),
        !sp.contains(slot),
        a[slot as int].item is Some,
        0 <= q <= o.len(),
        spliced_in(a, b, o, slot, q),
    ensures
        live(b, o.insert(q, slot)),
        ring(b, o.insert(q, slot)),
        chain(b, sp, free),
{
    let r = o.insert(q, slot);
    let at = before(o, q);
    let next = after(o, q - 1);
    lemma_insert(o, q, slot);
    lemma_neighbours(a, o, q);
    assert forall|j: int| 0 <= j < r.len() implies 0 < #[trigger] r[j] < b.len() && b[r[j] as int].item
        is Some by {
        if j < q {
            assert(r[j] == o[j]);
        } else if j > q {
            assert(r[j] == o[j - 1]);
        }
    }
    assert forall|i: int, j: int| 0 <= i && j == i + 1 && j < r.len() implies b[
        #[trigger] r[i] as int].next == #[trigger] r[j] && b[r[j] as int].prev == r[i] by {
        if j < q {
            assert(r[i] == o[i] && r[j] == o[j]);
            assert(a[o[i] as int].next == o[j] && a[o[j] as int].prev == o[i]);
            assert(o.contains(o[i]) && o.contains(o[j]));
            assert(o[i] != o[q - 1]);
            if q < o.len() {
                assert(o[j] != o[q]);
            }
        } else if j == q {
            assert(r[i] == o[i] && r[j] == slot);
        } else if i == q {
            assert(r[i] == slot && r[j] == o[q]);
        } else {
            assert(r[i] == o[i - 1] && r[j] == o[j - 1]);
            assert(a[o[i - 1] as int].next == o[j - 1] && a[o[j - 1] as int].prev == o[i - 1]);
            assert(o.contains(o[i - 1]) && o.contains(o[j - 1]));
            assert(o[j - 1] != o[q]);
            if q > 0 {
                assert(o[i - 1] != o[q - 1]);
            }
        }
    }
    if q > 0 {
        assert(r[0] == o[0]);
        assert(o.contains(o[0]));
        if q > 1 || q < o.len() {
            assert(o[0] == o[q - 1] ==> q == 1);
        }
        if q < o.len() {
            assert(o[0] != o[q]);
        }
    } else {
        assert(r[0] == slot);
    }
    if q < o.len() {
        let l = o.len() - 1;
        assert(r[r.len() - 1] == o[l]);
        assert(o.contains(o[l]));
        assert(o[l] == o[q] ==> q == l);
        if q > 0 {
            assert(o[l] != o[q - 1]);
        }
    } else {
        assert(r[r.len() - 1] == slot);
    }
    assert forall|t: int| 0 <= t < sp.len() implies b[#[trigger] sp[t] as int].next == a[sp[t] as int].next by {
        lemma_apart(a, o, sp, free, t);
        assert(sp.contains(sp[t]));
        if q > 0 {
            assert(o.contains(o[q - 1]));
        }
    }
    lemma_chain_kept(a, b, sp, free);
}

proof fn lemma_spliced_out<K, V>(
    a: Seq<Node<K, V>>,
    b: Seq<Node<K, V>>,
    o: Seq<usize>,
    sp: Seq<usize>,
    free: usize,
    p: int,
)
    requires
        live(a, o),
        ring(a, o),
        chain(a, sp, free),
        0 <= p < o.len(),
        spliced_out(a, b, o, p),
    ensures
        live(b, o.remove(p)),
        ring(b, o.remove(p)),
        chain(b, sp, free),
        0 < o[p] < b.len(),
        !o.remove(p).contains(o[p]),
        !sp.contains(o[p]),
{
    let r = o.remove(p);
    let prev = before(o, p);
    let next = after(o, p);
    lemma_remove(o, p);
    lemma_neighbours(a, o, p);
    lemma_neighbours(a, o, p + 1);
    assert(0 < o[p] < a.len());
    assert forall|j: int| 0 <= j < r.len() implies 0 < #[trigger] r[j] < b.len() && b[r[j] as int].item
        is Some by {
        if j < p {
            assert(r[j] == o[j]);
        } else {
            assert(r[j] == o[j + 1]);
        }
    }
    assert forall|i: int, j: int| 0 <= i && j == i + 1 && j < r.len() implies b[
        #[trigger] r[i] as int].next == #[trigger] r[j] && b[r[j] as int].prev == r[i] by {
        if j < p {
            assert(r[i] == o[i] && r[j] == o[j]);
            assert(a[o[i] as int].next == o[j] && a[o[j] as int].prev == o[i]);
            assert(o[i] != o[p - 1]);
            if p + 1 < o.len() {
                assert(o[j] != o[p + 1]);
            }
        } else if j == p {
            assert(r[i] == o[p - 1] && r[j] == o[p + 1]);
        } else {
            assert(r[i] == o[i + 1] && r[j] == o[j + 1]);
            assert(a[o[i + 1] as int].next == o[j + 1] && a[o[j + 1] as int].prev == o[i + 1]);
            assert(o[j + 1] != o[p + 1]);
            if p > 0 {
                assert(o[i + 1] != o[p - 1]);
            }
        }
    }
    if r.len() > 0 {
        let l = o.len() - 1;
        if p > 0 {
            assert(r[0] == o[0]);
            if p + 1 < o.len() {
                assert(o[0] != o[p + 1]);
            }
        } else {
            assert(r[0] == o[1]);
        }
        if p < l {
            assert(r[r.len() - 1] == o[l]);
            if p > 0 {
                assert(o[l] != o[p - 1]);
            }
        } else {
            assert(r[r.len() - 1] == o[l - 1]);
        }
    }
    assert forall|t: int| 0 <= t < sp.len() implies b[#[trigger] sp[t] as int].next == a[sp[t] as int].next by {
        lemma_apart(a, o, sp, free, t);
        if p > 0 {
            assert(o.contains(o[p - 1]));
        }
    }
    lemma_chain_kept(a, b, sp, free);
    if sp.contains(o[p]) {
        let j = choose|j: int| 0 <= j < sp.len() && sp[j] == o[p];
        lemma_apart(a, o, sp, free, j);
        assert(o.contains(o[p]));
    }
}

/// Ring and free list of `a` are those of `b` too, where `b` is `a` but for
/// one slot that is neither the anchor nor on either list, and for slots
/// added at the end.
proof fn lemma_touched<K, V>(
    a: Seq<Node<K, V>>,
    b: Seq<Node<K, V>>,
    o: Seq<usize>,
    sp: Seq<usize>,
    free: usize,
    slot: usize,
)
    requires
        live(a, o),
        chain(a, sp, free),
        a.len() > 0 ==> ring(a, o),
        a.len() <= b.len(),
        slot != 0 || a.len() == 0,
        !o.contains(slot),
        !sp.contains(slot),
        forall|i: int| 0 <= i < a.len() && i != slot ==> #[trigger] b[i] == a[i],
    ensures
        live(b, o),
        chain(b, sp, free),
        a.len() > 0 ==> ring(b, o),
{
    assert forall|j: int| 0 <= j < o.len() implies b[#[trigger] o[j] as int] == a[o[j] as int] by {
        assert(o.contains(o[j]));
        assert(0 < o[j] < a.len());
    }
    assert forall|j: int| 0 <= j < sp.len() implies b[#[trigger] sp[j] as int] == a[sp[j] as int] by {
        assert(sp.contains(sp[j]));
        assert(0 < sp[j] < a.len());
    }
    assert forall|j: int| 0 <= j < o.len() implies 0 < #[trigger] o[j] < b.len() && b[o[j] as int].item
        is Some by {
        assert(b[o[j] as int] == a[o[j] as int]);
    }
    assert forall|j: int| 0 <= j < sp.len() implies 0 < #[trigger] sp[j] < b.len() && b[sp[j] as int].item
        is None by {
        assert(b[sp[j] as int] == a[sp[j] as int]);
    }
    assert forall|i: int, j: int| 0 <= i && j == i + 1 && j < sp.len() implies b[
        #[trigger] sp[i] as int].next == #[trigger] sp[j] by {
        assert(b[sp[i] as int] == a[sp[i] as int]);
    }
    if sp.len() > 0 {
        assert(b[sp[sp.len() - 1] as int] == a[sp[sp.len() - 1] as int]);
    }
    if a.len() > 0 {
        assert forall|i: int, j: int| 0 <= i && j == i + 1 && j < o.len() implies b[
            #[trigger] o[i] as int].next == #[trigger] o[j] && b[o[j] as int].prev == o[i] by {
            assert(b[o[i] as int] == a[o[i] as int]);
            assert(b[o[j] as int] == a[o[j] as int]);
        }
        if o.len() > 0 {
            assert(b[o[0] as int] == a[o[0] as int]);
            assert(b[o[o.len() - 1] as int] == a[o[o.len() - 1] as int]);
        }
    }
}

/// Without its head, a free list is the free list that starts at the
/// head's `next`.
proof fn lemma_chain_tail<K, V>(a: Seq<Node<K, V>>, sp: Seq<usize>, free: usize)
    requires
        chain(a, sp, free),
        sp.len() > 0,
    ensures
        chain(a, sp.drop_first(), a[sp[0] as int].next),
        !sp.drop_first().contains(sp[0]),
        0 < sp[0] < a.len(),
        a[sp[0] as int].item is None,
{
    let rest = sp.drop_first();
    assert forall|j: int| 0 <= j < rest.len() implies 0 < #[trigger] rest[j] < a.len() && a[rest[j] as int].item
        is None by {
        assert(rest[j] == sp[j + 1]);
    }
    assert forall|i: int, j: int| 0 <= i && j == i + 1 && j < rest.len() implies a[
        #[trigger] rest[i] as int].next == #[trigger] rest[j] by {
        assert(rest[i] == sp[i + 1] && rest[j] == sp[j + 1]);
    }
    assert forall|i: int, j: int| 0 <= i < rest.len() && 0 <= j < rest.len() && i != j implies rest[i]
        != rest[j] by {
        assert(rest[i] == sp[i + 1] && rest[j] == sp[j + 1]);
    }
    if rest.contains(sp[0]) {
        let j = choose|j: int| 0 <= j < rest.len() && rest[j] == sp[0];
        assert(sp[j + 1] == sp[0]);
    }
    if rest.len() > 0 {
        assert(rest[0] == sp[1]);
        assert(a[sp[0] as int].next == sp[1]);
        assert(rest[rest.len() - 1] == sp[sp.len() - 1]);
    }
}

/// A slot without item whose `next` is the head of a free list heads a free
/// list itself.
proof fn lemma_chain_cons<K, V>(
    a: Seq<Node<K, V>>,
    b: Seq<Node<K, V>>,
    sp: Seq<usize>,
    free: usize,
    slot: usize,
)
    requires
        chain(a, sp, free),
        0 < slot < a.len(),
        a.len() == b.len(),
        !sp.contains(slot),
        b[slot as int].item is None,
        b[slot as int].next == free,
        forall|i: int| 0 <= i < a.len() && i != slot ==> #[trigger] b[i] == a[i],
    ensures
        chain(b, seq![slot] + sp, slot),
{
    let r = seq![slot] + sp;
    assert forall|j: int| 0 <= j < sp.len() implies b[#[trigger] sp[j] as int] == a[sp[j] as int] by {
        assert(sp.contains(sp[j]));
        assert(0 < sp[j] < a.len());
    }
    assert forall|i: int, j: int| 0 <= i < r.len() && 0 <= j < r.len() && i != j implies r[i]
        != r[j] by {
        if i > 0 && j > 0 {
            assert(sp[i - 1] != sp[j - 1]);
        } else if i > 0 {
            assert(sp.contains(sp[i - 1]));
        } else {
            assert(sp.contains(sp[j - 1]));
        }
    }
    assert forall|j: int| 0 <= j < r.len() implies 0 < #[trigger] r[j] < b.len() && b[r[j] as int].item
        is None by {
        if j > 0 {
            assert(r[j] == sp[j - 1]);
            assert(b[sp[j - 1] as int] == a[sp[j - 1] as int]);
        }
    }
    assert forall|i: int, j: int| 0 <= i && j == i + 1 && j < r.len() implies b[
        #[trigger] r[i] as int].next == #[trigger] r[j] by {
        assert(r[j] == sp[j - 1]);
        if i > 0 {
            assert(r[i] == sp[i - 1]);
            assert(b[sp[i - 1] as int] == a[sp[i - 1] as int]);
            assert(a[sp[i - 1] as int].next == sp[j - 1]);
        } else {
            assert(free == sp[0]);
        }
    }
    assert(r[0] == slot);
    if sp.len() > 0 {
        let l = sp.len() - 1;
        assert(r[r.len() - 1] == sp[l]);
        assert(b[sp[l] as int] == a[sp[l] as int]);
    }
}

/// The arena with its ring, its free list and its index.
pub struct Core<K, V> {
    nodes: Vec<Node<K, V>>,
    index: Index,
    free: usize,
    order: Ghost<Seq<usize>>,
    spare: Ghost<Seq<usize>>,
}

impl<K, V> Core<K, V> {
    /// The live slots, from front (oldest) to back (newest).
    pub closed spec fn order(&self) -> Seq<usize> {
        self.order@
    }

    /// The key and value that a slot carries.
    pub closed spec fn item(&self, slot: usize) -> (K, V) {
        self.nodes[slot as int].item.unwrap()
    }

    /// The hash under which the key of a slot is filed.
    pub closed spec fn hash_of(&self, slot: usize) -> u64 {
        self.nodes[slot as int].hash
    }

    /// Whether the anchor exists. It is made by the first insertion.
    pub closed spec fn anchored(&self) -> bool {
        self.nodes.len() > 0
    }

    /// The number of vacated slots kept for the next insertions.
    pub closed spec fn spare_len(&self) -> nat {
        self.spare@.len()
    }

    /// Whether `slot` is live.
    pub open spec fn holds(&self, slot: usize) -> bool {
        self.order().contains(slot)
    }

    /// The position of a live slot in the order.
    pub open spec fn position(&self, slot: usize) -> int {
        self.order().index_of(slot)
    }

    /// The entries from front to back.
    pub open spec fn view(&self) -> Seq<(K, V)> {
        Seq::new(self.order().len(), |j: int| self.item(self.order()[j]))
    }

    /// The hash under which each entry is filed, from front to back.
    pub open spec fn hashes(&self) -> Seq<u64> {
        Seq::new(self.order().len(), |j: int| self.hash_of(self.order()[j]))
    }

    /// Every slot that `before` holds carries the same item and hash here.
    pub open spec fn keeps(&self, before: &Self) -> bool {
        forall|s: usize| #[trigger]
            before.holds(s) ==> self.item(s) == before.item(s) && self.hash_of(s)
                == before.hash_of(s)
    }

    /// Every slot that `before` holds, but for `slot`, carries the same item
    /// and hash here.
    pub open spec fn keeps_but(&self, before: &Self, slot: usize) -> bool {
        forall|s: usize| #[trigger]
            before.holds(s) && s != slot ==> self.item(s) == before.item(s) && self.hash_of(s)
                == before.hash_of(s)
    }

    /// The invariant of the arena: ring, free list and index agree.
    pub closed spec fn wf(&self) -> bool {
        &&& live(self.nodes@, self.order@)
        &&& chain(self.nodes@, self.spare@, self.free)
        &&& indexed(self.index, self.nodes@, self.order@)
        &&& self.nodes.len() > 0 ==> ring(self.nodes@, self.order@)
        &&& self.order@.len() <= MAX_ENTRIES
    }

    /// The live slots of a valid arena are distinct and none is the anchor.
    pub proof fn lemma_order(&self)
        requires
            self.wf(),
        ensures
            self.order().no_duplicates(),
            forall|j: int| 0 <= j < self.order().len() ==> #[trigger] self.order()[j] != 0,
            self.order().len() > 0 ==> self.anchored(),
            self.order().len() <= MAX_ENTRIES,
    {
        if self.order@.len() > 0 {
            assert(0 < self.order@[0]);
        }
    }

    /// An arena without anchor, nodes or index storage.
    pub(crate) fn new() -> (r: Self)
        ensures
            r.wf(),
            r.order() == Seq::<usize>::empty(),
            !r.anchored(),
            r.spare_len() == 0,
    {
        Core {
            nodes: Vec::new(),
            index: index_new(),
            free: 0,
            order: Ghost(Seq::empty()),
            spare: Ghost(Seq::empty()),
        }
    }

    /// An arena without anchor or nodes, whose index has room for `capacity`
    /// entries.
    pub(crate) fn with_capacity(capacity: usize) -> (r: Self)
        requires
            capacity <= MAX_ENTRIES,
        ensures
            r.wf(),
            r.order() == Seq::<usize>::empty(),
            !r.anchored(),
            r.spare_len() == 0,
    {
        Core {
            nodes: Vec::new(),
            index: index_with_capacity(capacity),
            free: 0,
            order: Ghost(Seq::empty()),
            spare: Ghost(Seq::empty()),
        }
    }

    /// The number of live slots.
    pub(crate) fn len(&self) -> (r: usize)
        requires
            self.wf(),
        ensures
            r == self.order().len(),
    {
        proof {
            self.order@.unique_seq_to_set();
            assert(index_filed(self.index).dom() =~= self.order@.to_set());
        }
        index_len(&self.index)
    }

    /// Looks for a live slot filed under `hash` whose key `is_match` accepts.
    ///
    /// A slot that comes back is live and `is_match` has accepted its key.
    /// Where none comes back, `is_match` has refused the key of every live
    /// slot filed under `hash`.
    pub(crate) fn find<F: FnMut(&K) -> bool>(&self, hash: u64, is_match: F) -> (r: Option<usize>)
        requires
            self.wf(),
            forall|s: usize| #[trigger] self.holds(s) ==> call_requires(is_match, (&self.item(s).0,)),
        ensures
            match r {
                Some(slot) => self.holds(slot) && call_ensures(
                    is_match,
                    (&self.item(slot).0,),
                    true,
                ),
                None => forall|s: usize| #[trigger]
                    self.holds(s) && self.hash_of(s) == hash ==> call_ensures(
                        is_match,
                        (&self.item(s).0,),
                        false,
                    ),
            },
    {
        proof {
            assert forall|i: usize| #[trigger] index_filed(self.index).dom().contains(i) implies i
                < self.nodes.len() && self.nodes[i as int].item is Some && call_requires(
                is_match,
                (&self.nodes[i as int].item.unwrap().0,),
            ) by {
                assert(self.order@.contains(i));
                assert(self.holds(i));
            }
        }
        let r = index_find(&self.index, hash, &self.nodes, is_match);
        proof {
            if r is None {
                assert forall|s: usize| #[trigger]
                    self.holds(s) && self.hash_of(s) == hash implies call_ensures(
                    is_match,
                    (&self.item(s).0,),
                    false,
                ) by {
                    assert(index_filed(self.index).dom().contains(s));
                }
            }
        }
        r
    }

    /// The slot at the front, or the anchor (slot 0) where nothing is live.
    pub(crate) fn front_slot(&self) -> (r: usize)
        requires
            self.wf(),
            self.anchored(),
        ensures
            self.order().len() == 0 ==> r == 0,
            self.order().len() > 0 ==> r == self.order()[0],
    {
        self.nodes[0].next
    }

    /// The slot at the back, or the anchor (slot 0) where nothing is live.
    pub(crate) fn back_slot(&self) -> (r: usize)
        requires
            self.wf(),
            self.anchored(),
        ensures
            self.order().len() == 0 ==> r == 0,
            self.order().len() > 0 ==> r == self.order()[self.order().len() - 1],
    {
        self.nodes[0].prev
    }

    /// The slot that follows the live slot at position `j` towards the
    /// back: the anchor (slot 0) after the last one.
    pub(crate) fn next_of(&self, slot: usize, Ghost(j): Ghost<int>) -> (r: usize)
        requires
            self.wf(),
            0 <= j < self.order().len(),
            self.order()[j] == slot,
        ensures
            j + 1 == self.order().len() ==> r == 0,
            j + 1 < self.order().len() ==> r == self.order()[j + 1],
    {
        proof {
            assert(0 < self.order@[j] < self.nodes.len());
            if j + 1 < self.order@.len() {
                let i = j + 1;
                assert(self.nodes[self.order@[j] as int].next == self.order@[i]);
            }
        }
        self.nodes[slot].next
    }

    /// The slot that precedes the live slot at position `j` towards the
    /// front: the anchor (slot 0) before the first one.
    pub(crate) fn prev_of(&self, slot: usize, Ghost(j): Ghost<int>) -> (r: usize)
        requires
            self.wf(),
            0 <= j < self.order().len(),
            self.order()[j] == slot,
        ensures
            j == 0 ==> r == 0,
            j > 0 ==> r == self.order()[j - 1],
    {
        proof {
            assert(0 < self.order@[j] < self.nodes.len());
            if j > 0 {
                let i = j - 1;
                assert(self.nodes[self.order@[i] as int].next == self.order@[j]);
            }
        }
        self.nodes[slot].prev
    }

    /// The key and the value of a live slot.
    pub(crate) fn key_value(&self, slot: usize) -> (r: (&K, &V))
        requires
            self.wf(),
            self.holds(slot),
        ensures
            *r.0 == self.item(slot).0,
            *r.1 == self.item(slot).1,
    {
        match &self.nodes[slot].item {
            Some(pair) => (&pair.0, &pair.1),
            None => vstd::pervasive::unreached(),
        }
    }

    /// The hash under which a live slot is filed.
    pub(crate) fn slot_hash(&self, slot: usize) -> (r: u64)
        requires
            self.wf(),
            self.holds(slot),
        ensures
            r == self.hash_of(slot),
    {
        self.nodes[slot].hash
    }

    /// Ring and free list are in order; the index is not looked at.
    spec fn linked(&self) -> bool {
        &&& live(self.nodes@, self.order@)
        &&& chain(self.nodes@, self.spare@, self.free)
        &&& ring(self.nodes@, self.order@)
    }

    /// `slot` lies in the arena past the anchor, outside ring and free list.
    spec fn unlisted(&self, slot: usize) -> bool {
        &&& 0 < slot < self.nodes.len()
        &&& !self.order@.contains(slot)
        &&& !self.spare@.contains(slot)
    }

    /// Makes the anchor where the arena has none yet.
    fn ensure_anchor(&mut self)
        requires
            old(self).wf(),
        ensures
            final(self).wf(),
            final(self).linked(),
            final(self).order@ == old(self).order@,
            final(self).spare@ == old(self).spare@,
            final(self).index == old(self).index,
            old(self).nodes.len() > 0 ==> final(self).nodes@ == old(self).nodes@,
    {
        if self.nodes.len() == 0 {
            proof {
                if self.order@.len() > 0 {
                    assert(0 < self.order@[0]);
                }
                if self.spare@.len() > 0 {
                    assert(0 < self.spare@[0]);
                }
            }
            self.nodes.push(Node { item: None, hash: 0, prev: 0, next: 0 });
        }
    }

    /// Hands out a slot without item: the head of the free list where there
    /// is one, a new slot at the end of the arena where there is none.
    fn allocate(&mut self) -> (slot: usize)
        requires
            old(self).linked(),
        ensures
            final(self).linked(),
            final(self).unlisted(slot),
            final(self).nodes[slot as int].item is None,
            final(self).order@ == old(self).order@,
            final(self).index == old(self).index,
            final(self).nodes.len() >= old(self).nodes.len(),
            forall|i: int|
                0 <= i < old(self).nodes.len() ==> #[trigger] final(self).nodes[i] == old(
                    self,
                ).nodes[i],
            old(self).spare@.len() > 0 ==> slot == old(self).spare@[0] && final(self).spare@ == old(
                self,
            ).spare@.drop_first() && final(self).nodes.len() == old(self).nodes.len(),
            old(self).spare@.len() == 0 ==> slot == old(self).nodes.len() && final(self).spare@
                == old(self).spare@ && final(self).nodes.len() == old(self).nodes.len() + 1,
    {
        if self.free != 0 {
            let slot = self.free;
            proof {
                lemma_chain_tail(self.nodes@, self.spare@, self.free);
                lemma_apart(self.nodes@, self.order@, self.spare@, self.free, 0);
            }
            self.free = self.nodes[slot].next;
            proof {
                self.spare@ = self.spare@.drop_first();
            }
            slot
        } else {
            let slot = self.nodes.len();
            proof {
                if self.order@.contains(slot) {
                    let j = choose|j: int| 0 <= j < self.order@.len() && self.order@[j] == slot;
                    assert(self.order@[j] < self.nodes.len());
                }
                if self.spare@.contains(slot) {
                    let j = choose|j: int| 0 <= j < self.spare@.len() && self.spare@[j] == slot;
                    assert(self.spare@[j] < self.nodes.len());
                }
            }
            self.nodes.push(Node { item: None, hash: 0, prev: 0, next: 0 });
            proof {
                lemma_touched(
                    old(self).nodes@,
                    self.nodes@,
                    self.order@,
                    self.spare@,
                    self.free,
                    slot,
                );
            }
            slot
        }
    }

    /// Splices `slot` into the ring right after `at`, which is the anchor or
    /// a live slot: `slot` comes to stand at position `q` of the order.
    fn attach_after(&mut self, at: usize, slot: usize, Ghost(q): Ghost<int>)
        requires
            old(self).linked(),
            old(self).unlisted(slot),
            old(self).nodes[slot as int].item is Some,
            0 <= q <= old(self).order@.len(),
            at == before(old(self).order@, q),
        ensures
            final(self).linked(),
            final(self).order@ == old(self).order@.insert(q, slot),
            final(self).spare@ == old(self).spare@,
            final(self).index == old(self).index,
            same_payload(final(self).nodes@, old(self).nodes@),
    {
        proof {
            lemma_neighbours(self.nodes@, self.order@, q);
        }
        let next = self.nodes[at].next;
        self.nodes[slot].next = next;
        self.nodes[slot].prev = at;
        self.nodes[at].next = slot;
        self.nodes[next].prev = slot;
        proof {
            lemma_spliced_in(
                old(self).nodes@,
                self.nodes@,
                self.order@,
                self.spare@,
                self.free,
                slot,
                q,
            );
            self.order@ = self.order@.insert(q, slot);
        }
    }

    /// Takes the live slot at position `p` out of the ring. Its own links
    /// are left as they were.
    fn detach(&mut self, slot: usize, Ghost(p): Ghost<int>)
        requires
            old(self).linked(),
            0 <= p < old(self).order@.len(),
            old(self).order@[p] == slot,
        ensures
            final(self).linked(),
            final(self).unlisted(slot),
            final(self).order@ == old(self).order@.remove(p),
            final(self).spare@ == old(self).spare@,
            final(self).index == old(self).index,
            same_payload(final(self).nodes@, old(self).nodes@),
    {
        proof {
            lemma_neighbours(self.nodes@, self.order@, p);
            lemma_neighbours(self.nodes@, self.order@, p + 1);
        }
        let prev = self.nodes[slot].prev;
        let next = self.nodes[slot].next;
        self.nodes[prev].next = next;
        self.nodes[next].prev = prev;
        proof {
            lemma_spliced_out(old(self).nodes@, self.nodes@, self.order@, self.spare@, self.free, p);
            self.order@ = self.order@.remove(p);
        }
    }

    /// Puts a slot that carries no item at the head of the free list.
    fn release(&mut self, slot: usize)
        requires
            old(self).linked(),
            old(self).unlisted(slot),
            old(self).nodes[slot as int].item is None,
        ensures
            final(self).linked(),
            final(self).order@ == old(self).order@,
            final(self).spare@ == seq![slot] + old(self).spare@,
            final(self).index == old(self).index,
            same_payload(final(self).nodes@, old(self).nodes@),
    {
        let free = self.free;
        self.nodes[slot].next = free;
        self.free = slot;
        proof {
            lemma_touched(
                old(self).nodes@,
                self.nodes@,
                self.order@,
                self.spare@,
                old(self).free,
                slot,
            );
            lemma_chain_cons(old(self).nodes@, self.nodes@, self.spare@, old(self).free, slot);
            self.spare@ = seq![slot] + self.spare@;
        }
    }

    /// Files a new entry under `hash` and puts it at the back.
    ///
    /// The anchor is made first where there is none; the slot comes from the
    /// free list where that holds one.
    pub(crate) fn insert_back(&mut self, hash: u64, key: K, value: V) -> (slot: usize)
        requires
            old(self).wf(),
            old(self).order().len() < MAX_ENTRIES,
        ensures
            final(self).wf(),
            final(self).anchored(),
            !old(self).holds(slot),
            final(self).order() == old(self).order().push(slot),
            final(self).item(slot) == (key, value),
            final(self).hash_of(slot) == hash,
            final(self).keeps(old(self)),
            final(self)@ == old(self)@.push((key, value)),
            final(self).hashes() == old(self).hashes().push(hash),
            final(self).spare_len() == if old(self).spare_len() > 0 {
                (old(self).spare_len() - 1) as nat
            } else {
                0
            },
    {
        self.ensure_anchor();
        let slot = self.allocate();
        let ghost mid = self.nodes@;
        self.nodes[slot].item = Some((key, value));
        self.nodes[slot].hash = hash;
        proof {
            lemma_touched(mid, self.nodes@, self.order@, self.spare@, self.free, slot);
        }
        let back = self.nodes[0].prev;
        self.attach_after(back, slot, Ghost(self.order@.len() as int));
        proof {
            let o = old(self).order@;
            assert(o.insert(o.len() as int, slot) =~= o.push(slot));
            lemma_insert(o, o.len() as int, slot);
            assert(index_backed(self.index, self.nodes@)) by {
                assert forall|i: usize| #[trigger]
                    index_filed(self.index).dom().contains(i) implies i < self.nodes.len()
                    && self.nodes[i as int].hash == index_filed(self.index)[i] by {
                    assert(o.contains(i));
                    let j = choose|j: int| 0 <= j < o.len() && o[j] == i;
                    assert(0 < o[j] < old(self).nodes.len());
                }
            }
            assert(index_filed(self.index).dom().len() == o.len()) by {
                o.unique_seq_to_set();
                assert(index_filed(self.index).dom() =~= o.to_set());
            }
        }
        index_insert(&mut self.index, hash, slot, &self.nodes);
        proof {
            let o = old(self).order@;
            assert forall|s: usize| #[trigger]
                self.order@.contains(s) implies index_filed(self.index)[s] == self.nodes[s as int].hash by {
                if s != slot {
                    assert(o.contains(s));
                    let j = choose|j: int| 0 <= j < o.len() && o[j] == s;
                    assert(0 < o[j] < old(self).nodes.len());
                }
            }
            assert forall|s: usize| #[trigger] old(self).holds(s) implies self.item(s) == old(
                self,
            ).item(s) && self.hash_of(s) == old(self).hash_of(s) by {
                let j = choose|j: int| 0 <= j < o.len() && o[j] == s;
                assert(0 < o[j] < old(self).nodes.len());
            }
            assert(self@ =~= old(self)@.push((key, value))) by {
                assert forall|j: int| 0 <= j < o.len() implies self.item(self.order@[j]) == old(
                    self,
                ).item(o[j]) by {
                    assert(old(self).holds(o[j]));
                }
            }
            assert(self.hashes() =~= old(self).hashes().push(hash)) by {
                assert forall|j: int| 0 <= j < o.len() implies self.hash_of(self.order@[j]) == old(
                    self,
                ).hash_of(o[j]) by {
                    assert(old(self).holds(o[j]));
                }
            }
        }
        slot
    }

    /// A live slot stands at its position, and the views show there what it
    /// carries.
    pub proof fn lemma_holds(&self, slot: usize)
        requires
            self.wf(),
            self.holds(slot),
        ensures
            0 <= self.position(slot) < self.order().len(),
            self.order()[self.position(slot)] == slot,
            self@[self.position(slot)] == self.item(slot),
            self.hashes()[self.position(slot)] == self.hash_of(slot),
            slot != 0,
    {
        assert(0 < self.order@[self.position(slot)]);
    }

    /// The slot at a position of the order is live, and that position is
    /// its only one.
    pub proof fn lemma_slot_at(&self, j: int)
        requires
            self.wf(),
            0 <= j < self.order().len(),
        ensures
            self.holds(self.order()[j]),
            self.position(self.order()[j]) == j,
    {
        let slot = self.order@[j];
        assert(self.order@.contains(slot));
        let p = self.position(slot);
        assert(self.order@[p] == slot);
    }

    /// Takes the live slot at position `p` out of the ring, takes the entry
    /// out of it and puts the slot at the head of the free list. The index
    /// is left as it is.
    fn vacate(&mut self, slot: usize, Ghost(p): Ghost<int>) -> (r: (K, V))
        requires
            old(self).linked(),
            0 <= p < old(self).order@.len(),
            old(self).order@[p] == slot,
        ensures
            final(self).linked(),
            final(self).order@ == old(self).order@.remove(p),
            final(self).spare@ == seq![slot] + old(self).spare@,
            final(self).index == old(self).index,
            final(self).nodes.len() == old(self).nodes.len(),
            0 < slot < old(self).nodes.len(),
            Some(r) == old(self).nodes[slot as int].item,
            forall|i: int|
                0 <= i < old(self).nodes.len() ==> (#[trigger] final(self).nodes[i]).hash == old(
                    self,
                ).nodes[i].hash && (i != slot ==> final(self).nodes[i].item == old(
                    self,
                ).nodes[i].item),
    {
        proof {
            assert(0 < self.order@[p] < self.nodes.len());
            assert(self.nodes[self.order@[p] as int].item is Some);
        }
        self.detach(slot, Ghost(p));
        let ghost mid = self.nodes@;
        let taken = self.nodes[slot].item.take();
        proof {
            lemma_touched(mid, self.nodes@, self.order@, self.spare@, self.free, slot);
        }
        self.release(slot);
        taken.unwrap()
    }

    /// Takes a live slot out: out of the index, out of the ring, and onto
    /// the free list. Returns the entry it carried.
    pub(crate) fn remove(&mut self, slot: usize) -> (r: (K, V))
        requires
            old(self).wf(),
            old(self).holds(slot),
        ensures
            final(self).wf(),
            final(self).anchored(),
            r == old(self).item(slot),
            !final(self).holds(slot),
            final(self).keeps_but(old(self), slot),
            final(self).order() == old(self).order().remove(old(self).position(slot)),
            final(self)@ == old(self)@.remove(old(self).position(slot)),
            final(self).hashes() == old(self).hashes().remove(old(self).position(slot)),
            final(self).spare_len() == old(self).spare_len() + 1,
    {
        let ghost o = self.order@;
        let ghost p = o.index_of(slot);
        proof {
            assert(0 < o[p] < self.nodes.len());
            assert(index_filed(self.index).dom().contains(slot));
        }
        let hash = self.nodes[slot].hash;
        let found = index_remove(&mut self.index, hash, slot);
        proof {
            assert(found);
        }
        let taken = self.vacate(slot, Ghost(p));
        proof {
            lemma_remove(o, p);
            let r = o.remove(p);
            assert forall|s: usize| #[trigger] r.contains(s) implies index_filed(self.index)[s]
                == self.nodes[s as int].hash by {
                assert(o.contains(s));
                let j = choose|j: int| 0 <= j < o.len() && o[j] == s;
                assert(0 < o[j] < old(self).nodes.len());
            }
            assert forall|s: usize| #[trigger] old(self).holds(s) && s != slot implies self.item(s)
                == old(self).item(s) && self.hash_of(s) == old(self).hash_of(s) by {
                let j = choose|j: int| 0 <= j < o.len() && o[j] == s;
                assert(0 < o[j] < old(self).nodes.len());
            }
            assert(self@ =~= old(self)@.remove(p)) by {
                assert forall|j: int| 0 <= j < r.len() implies self.item(r[j]) == old(self)@.remove(
                    p,
                )[j] by {
                    assert(r.contains(r[j]));
                    if j < p {
                        assert(r[j] == o[j]);
                    } else {
                        assert(r[j] == o[j + 1]);
                    }
                }
            }
            assert(self.hashes() =~= old(self).hashes().remove(p)) by {
                assert forall|j: int| 0 <= j < r.len() implies self.hash_of(r[j]) == old(
                    self,
                ).hashes().remove(p)[j] by {
                    assert(r.contains(r[j]));
                    if j < p {
                        assert(r[j] == o[j]);
                    } else {
                        assert(r[j] == o[j + 1]);
                    }
                }
            }
        }
        taken
    }

    /// Moves a live slot to the back of the order.
    pub(crate) fn move_to_back(&mut self, slot: usize)
        requires
            old(self).wf(),
            old(self).holds(slot),
        ensures
            final(self).wf(),
            final(self).anchored(),
            final(self).spare_len() == old(self).spare_len(),
            final(self).holds(slot),
            final(self).keeps(old(self)),
            final(self).order() == old(self).order().remove(old(self).position(slot)).push(slot),
            final(self)@ == old(self)@.remove(old(self).position(slot)).push(
                old(self).item(slot),
            ),
            final(self).hashes() == old(self).hashes().remove(old(self).position(slot)).push(
                old(self).hash_of(slot),
            ),
    {
        let ghost o = self.order@;
        let ghost p = o.index_of(slot);
        proof {
            assert(0 < o[p] < self.nodes.len());
        }
        self.detach(slot, Ghost(p));
        let back = self.nodes[0].prev;
        self.attach_after(back, slot, Ghost(self.order@.len() as int));
        proof {
            let m = o.remove(p);
            let r = m.push(slot);
            lemma_remove(o, p);
            lemma_insert(m, m.len() as int, slot);
            assert(m.insert(m.len() as int, slot) =~= r);
            Self::lemma_moved(*old(self), *self, p, r);
            let pre = *old(self);
            assert forall|j: int| 0 <= j < r.len() implies self@[j] == pre@.remove(p).push(pre@[p])[j]
                && self.hashes()[j] == pre.hashes().remove(p).push(pre.hashes()[p])[j] by {
                if j == r.len() - 1 {
                    assert(r[j] == o[p]);
                } else if j < p {
                    assert(r[j] == o[j]);
                } else {
                    assert(r[j] == o[j + 1]);
                }
            }
            assert(self@ =~= pre@.remove(p).push(pre@[p]));
            assert(self.hashes() =~= pre.hashes().remove(p).push(pre.hashes()[p]));
        }
    }

    /// Moves a live slot to the front of the order.
    pub(crate) fn move_to_front(&mut self, slot: usize)
        requires
            old(self).wf(),
            old(self).holds(slot),
        ensures
            final(self).wf(),
            final(self).anchored(),
            final(self).spare_len() == old(self).spare_len(),
            final(self).holds(slot),
            final(self).keeps(old(self)),
            final(self).order() == seq![slot] + old(self).order().remove(old(self).position(slot)),
            final(self)@ == seq![old(self).item(slot)] + old(self)@.remove(
                old(self).position(slot),
            ),
            final(self).hashes() == seq![old(self).hash_of(slot)] + old(self).hashes().remove(
                old(self).position(slot),
            ),
    {
        let ghost o = self.order@;
        let ghost p = o.index_of(slot);
        proof {
            assert(0 < o[p] < self.nodes.len());
        }
        self.detach(slot, Ghost(p));
        self.attach_after(0, slot, Ghost(0));
        proof {
            let m = o.remove(p);
            let r = seq![slot] + m;
            lemma_remove(o, p);
            lemma_insert(m, 0, slot);
            assert(m.insert(0, slot) =~= r);
            Self::lemma_moved(*old(self), *self, p, r);
            let pre = *old(self);
            assert forall|j: int| 0 <= j < r.len() implies self@[j] == (seq![pre@[p]] + pre@.remove(
                p,
            ))[j] && self.hashes()[j] == (seq![pre.hashes()[p]] + pre.hashes().remove(p))[j] by {
                if j == 0 {
                    assert(r[j] == o[p]);
                } else if j - 1 < p {
                    assert(r[j] == o[j - 1]);
                } else {
                    assert(r[j] == o[j]);
                }
            }
            assert(self@ =~= seq![pre@[p]] + pre@.remove(p));
            assert(self.hashes() =~= seq![pre.hashes()[p]] + pre.hashes().remove(p));
        }
    }

    /// After a move of the slot at position `p` that changed links only, the
    /// arena is valid again and its entries are the old ones in the new
    /// order `r`.
    proof fn lemma_moved(pre: Self, post: Self, p: int, r: Seq<usize>)
        requires
            pre.wf(),
            0 <= p < pre.order@.len(),
            post.linked(),
            post.order@ == r,
            r.len() == pre.order@.len(),
            r.no_duplicates(),
            forall|s: usize| #[trigger] r.contains(s) <==> pre.order@.contains(s),
            post.index == pre.index,
            same_payload(post.nodes@, pre.nodes@),
        ensures
            post.wf(),
            post.anchored(),
            post.keeps(&pre),
            post.holds(pre.order@[p]),
            forall|j: int, i: int|
                0 <= j < r.len() && 0 <= i < pre.order@.len() && r[j] == pre.order@[i]
                    ==> post@[j] == pre@[i] && post.hashes()[j] == pre.hashes()[i],
    {
        let o = pre.order@;
        assert(o.contains(o[p]));
        assert forall|s: usize| #[trigger] r.contains(s) implies index_filed(post.index)[s]
            == post.nodes[s as int].hash by {
            assert(o.contains(s));
            let j = choose|j: int| 0 <= j < o.len() && o[j] == s;
            assert(0 < o[j] < pre.nodes.len());
        }
        assert forall|s: usize| #[trigger] pre.holds(s) implies post.item(s) == pre.item(s)
            && post.hash_of(s) == pre.hash_of(s) by {
            let j = choose|j: int| 0 <= j < o.len() && o[j] == s;
            assert(0 < o[j] < pre.nodes.len());
        }
        assert forall|j: int, i: int|
            0 <= j < r.len() && 0 <= i < o.len() && r[j] == o[i] implies post@[j] == pre@[i]
            && post.hashes()[j] == pre.hashes()[i] by {
            assert(pre.holds(o[i]));
        }
    }

    /// The key of a live slot, and its value for writing.
    ///
    /// Whatever is written through the reference becomes the value of the
    /// slot; order, keys, hashes and the other values stay.
    pub(crate) fn value_mut(&mut self, slot: usize) -> (r: (&K, &mut V))
        requires
            old(self).wf(),
            old(self).holds(slot),
        ensures
            *r.0 == old(self).item(slot).0,
            *r.1 == old(self).item(slot).1,
            final(self).wf(),
            final(self).anchored(),
            final(self).spare_len() == old(self).spare_len(),
            final(self).order() == old(self).order(),
            final(self).item(slot) == (old(self).item(slot).0, *final(r.1)),
            final(self).hash_of(slot) == old(self).hash_of(slot),
            final(self).keeps_but(old(self), slot),
            final(self)@ == old(self)@.update(
                old(self).position(slot),
                (old(self).item(slot).0, *final(r.1)),
            ),
            final(self).hashes() == old(self).hashes(),
    {
        proof {
            let o = self.order@;
            let p = choose|p: int| 0 <= p < o.len() && o[p] == slot;
            assert(0 < o[p] < self.nodes.len());
        }
        match &mut self.nodes[slot].item {
            Some(pair) => (&pair.0, &mut pair.1),
            None => vstd::pervasive::unreached(),
        }
    }

    /// The key and the value of a live slot, both for writing.
    ///
    /// Whatever is written through the references becomes the entry of the
    /// slot. The slot stays filed under its hash, whatever the new key is.
    pub(crate) fn key_value_mut(&mut self, slot: usize) -> (r: (&mut K, &mut V))
        requires
            old(self).wf(),
            old(self).holds(slot),
        ensures
            *r.0 == old(self).item(slot).0,
            *r.1 == old(self).item(slot).1,
            final(self).wf(),
            final(self).anchored(),
            final(self).spare_len() == old(self).spare_len(),
            final(self).order() == old(self).order(),
            final(self).item(slot) == (*final(r.0), *final(r.1)),
            final(self).hash_of(slot) == old(self).hash_of(slot),
            final(self).keeps_but(old(self), slot),
            final(self)@ == old(self)@.update(
                old(self).position(slot),
                (*final(r.0), *final(r.1)),
            ),
            final(self).hashes() == old(self).hashes(),
    {
        proof {
            let o = self.order@;
            let p = choose|p: int| 0 <= p < o.len() && o[p] == slot;
            assert(0 < o[p] < self.nodes.len());
        }
        match &mut self.nodes[slot].item {
            Some(pair) => (&mut pair.0, &mut pair.1),
            None => vstd::pervasive::unreached(),
        }
    }

    /// Drops every entry. The anchor stays where there is one, and so does
    /// the storage of the index. The slots of the entries join the vacated
    /// ones and are handed out again by the insertions to come; no slot is
    /// given up before `purge_free`.
    pub(crate) fn clear(&mut self)
        requires
            old(self).wf(),
        ensures
            final(self).wf(),
            final(self).order() == Seq::<usize>::empty(),
            final(self).anchored() == old(self).anchored(),
            final(self).spare_len() == old(self).spare_len() + old(self).order().len(),
    {
        index_clear(&mut self.index);
        if self.nodes.len() > 0 {
            while self.nodes[0].next != 0
                invariant
                    self.linked(),
                    index_filed(self.index) == no_handles(),
                    self.order@.len() <= MAX_ENTRIES,
                    self.spare@.len() + self.order@.len() == old(self).spare@.len() + old(
                        self,
                    ).order@.len(),
                decreases self.order@.len(),
            {
                let slot = self.nodes[0].next;
                self.vacate(slot, Ghost(0));
            }
            proof {
                if self.order@.len() > 0 {
                    assert(0 < self.order@[0]);
                }
            }
        } else {
            proof {
                if self.order@.len() > 0 {
                    assert(0 < self.order@[0]);
                }
            }
        }
    }

    /// Makes room in the index for `additional` more entries.
    pub(crate) fn reserve(&mut self, additional: usize)
        requires
            old(self).wf(),
            old(self).order().len() + additional <= MAX_ENTRIES,
        ensures
            final(self).wf(),
            final(self).order() == old(self).order(),
            final(self).anchored() == old(self).anchored(),
            final(self).keeps(old(self)),
            final(self)@ == old(self)@,
            final(self).hashes() == old(self).hashes(),
            final(self).spare_len() == old(self).spare_len(),
    {
        proof {
            self.lemma_backed();
        }
        index_reserve(&mut self.index, additional, &self.nodes);
    }

    /// In a valid arena every handle of the index names a slot that records
    /// the hash under which the handle is filed, and the index holds as many
    /// handles as the order has slots.
    proof fn lemma_backed(&self)
        requires
            self.wf(),
        ensures
            index_backed(self.index, self.nodes@),
            index_filed(self.index).dom().len() == self.order@.len(),
    {
        let o = self.order@;
        assert forall|i: usize| #[trigger] index_filed(self.index).dom().contains(i) implies i
            < self.nodes.len() && self.nodes[i as int].hash == index_filed(self.index)[i] by {
            assert(o.contains(i));
            let j = choose|j: int| 0 <= j < o.len() && o[j] == i;
            assert(0 < o[j] < self.nodes.len());
        }
        o.unique_seq_to_set();
        assert(index_filed(self.index).dom() =~= o.to_set());
    }

    /// Gives up the storage of every vacated slot: the entries move, in
    /// order, into an arena that holds nothing else, with an index made for
    /// their number.
    pub(crate) fn purge_free(&mut self)
        requires
            old(self).wf(),
        ensures
            final(self).wf(),
            final(self)@ == old(self)@,
            final(self).hashes() == old(self).hashes(),
            final(self).anchored() == old(self).anchored(),
            final(self).spare_len() == 0,
    {
        proof {
            self.lemma_order();
        }
        let n = self.len();
        let mut fresh = Core::with_capacity(n);
        if self.nodes.len() > 0 {
            fresh.ensure_anchor();
        }
        while self.len() > 0
            invariant
                self.wf(),
                fresh.wf(),
                fresh.spare_len() == 0,
                fresh.anchored() == old(self).anchored(),
                self.anchored() == old(self).anchored(),
                fresh.order().len() + self.order().len() == n,
                n <= MAX_ENTRIES,
                fresh@ + self@ == old(self)@,
                fresh.hashes() + self.hashes() == old(self).hashes(),
            decreases self.order().len(),
        {
            proof {
                self.lemma_order();
                assert(self.holds(self.order()[0]));
            }
            let ghost before_self = *self;
            let ghost before_fresh = fresh;
            let slot = self.front_slot();
            let hash = self.slot_hash(slot);
            let (key, value) = self.remove(slot);
            fresh.insert_back(hash, key, value);
            proof {
                assert(fresh@ + self@ =~= before_fresh@ + before_self@);
                assert(fresh.hashes() + self.hashes() =~= before_fresh.hashes()
                    + before_self.hashes());
            }
        }
        proof {
            assert(fresh@ =~= fresh@ + self@);
            assert(fresh.hashes() =~= fresh.hashes() + self.hashes());
        }
        *self = fresh;
    }

    /// Gives up what storage the entries held do not need: that of the
    /// vacated slots, and what the index can spare.
    pub(crate) fn shrink_to_fit(&mut self)
        requires
            old(self).wf(),
        ensures
            final(self).wf(),
            final(self)@ == old(self)@,
            final(self).hashes() == old(self).hashes(),
            final(self).anchored() == old(self).anchored(),
            final(self).spare_len() == 0,
    {
        self.purge_free();
        proof {
            self.lemma_backed();
        }
        index_shrink_to_fit(&mut self.index, &self.nodes);
    }
}

} // verus!
