use hashlink::hash_key;
use hashlink::raw_entry::RawEntryMut;
use hashlink::LinkedHashMap;
use std::collections::hash_map::RandomState;
use std::hash::BuildHasherDefault;

type Fixed = BuildHasherDefault<std::collections::hash_map::DefaultHasher>;

fn sample() -> LinkedHashMap<u32, u32, Fixed> {
    let mut map: LinkedHashMap<u32, u32, Fixed> = LinkedHashMap::with_hasher(Fixed::default());
    map.insert(1, 10);
    map.insert(2, 20);
    map.insert(3, 30);
    map
}

fn pairs_of(map: &LinkedHashMap<u32, u32, Fixed>) -> Vec<(u32, u32)> {
    let mut out = Vec::new();
    let mut it = map.iter();
    while let Some((k, v)) = it.next() {
        out.push((*k, *v));
    }
    out
}

fn h(k: u32) -> u64 {
    hash_key(&Fixed::default(), &k)
}

#[test]
fn hash_key_is_that_of_the_strategy() {
    let s = RandomState::new();
    assert_eq!(hash_key(&s, &42u32), hash_key(&s, &42u32));
    assert_eq!(hash_key(&s, "abc"), hash_key(&s, "abc"));
    assert_eq!(hash_key(&Fixed::default(), &7u64), hash_key(&Fixed::default(), &7u64));
    assert_ne!(hash_key(&Fixed::default(), &7u64), hash_key(&Fixed::default(), &8u64));
    assert_ne!(hash_key(&Fixed::default(), &7u64), 7);
}

#[test]
fn raw_entry_finds_by_key() {
    let map = sample();
    assert_eq!(map.raw_entry().from_key(&2), Some((&2, &20)));
    assert_eq!(map.raw_entry().from_key(&5), None);
    assert_eq!(map.raw_entry().from_key_hashed_nocheck(h(3), &3), Some((&3, &30)));
    assert_eq!(map.raw_entry().from_key_hashed_nocheck(h(5), &5), None);
}

#[test]
fn raw_entry_finds_by_hash_and_predicate() {
    let map = sample();
    assert_eq!(map.raw_entry().from_hash(h(1), |k| *k == 1), Some((&1, &10)));
    assert_eq!(map.raw_entry().from_hash(h(1), |k| *k == 7), None);
    assert_eq!(map.raw_entry().from_hash(h(1), |_| false), None);
    let mut seen = 0;
    let found = map.raw_entry().from_hash(h(2), |k| {
        seen += 1;
        *k % 2 == 0
    });
    assert_eq!(found, Some((&2, &20)));
    assert!(seen >= 1);
}

#[test]
fn hashed_map_operations() {
    let mut map = sample();
    assert_eq!(map.get_hashed(h(2), &2), Some(&20));
    assert_eq!(map.get_hashed(h(9), &9), None);
    assert_eq!(map.insert_hashed(h(2), 2, 21), Some(20));
    assert_eq!(map.insert_hashed(h(9), 9, 90), None);
    assert_eq!(pairs_of(&map), vec![(1, 10), (3, 30), (2, 21), (9, 90)]);
    assert_eq!(map.get(&9), Some(&90));
    assert_eq!(map.remove_hashed(h(1), &1), Some(10));
    assert_eq!(map.remove_hashed(h(1), &1), None);
    assert_eq!(pairs_of(&map), vec![(3, 30), (2, 21), (9, 90)]);
}

#[test]
fn raw_entry_mut_occupied_reads_and_writes() {
    let mut map = sample();
    match map.raw_entry_mut().from_key(&2) {
        RawEntryMut::Occupied(mut e) => {
            assert_eq!(*e.key(), 2);
            assert_eq!(*e.get(), 20);
            assert_eq!(e.get_key_value(), (&2, &20));
            *e.get_mut() += 1;
            {
                let (k, v) = e.get_key_value_mut();
                assert_eq!(*k, 2);
                *v += 1;
            }
            assert_eq!(e.insert(25), 22);
            assert_eq!(*e.get(), 25);
        }
        RawEntryMut::Vacant(_) => panic!("2 is in the map"),
    }
    assert_eq!(pairs_of(&map), vec![(1, 10), (2, 25), (3, 30)]);
}

#[test]
fn raw_occupied_moves_and_removes() {
    let mut map = sample();
    match map.raw_entry_mut().from_key_hashed_nocheck(h(2), &2) {
        RawEntryMut::Occupied(mut e) => e.to_front(),
        RawEntryMut::Vacant(_) => panic!("2 is in the map"),
    }
    assert_eq!(pairs_of(&map), vec![(2, 20), (1, 10), (3, 30)]);
    match map.raw_entry_mut().from_hash(h(2), |k| *k == 2) {
        RawEntryMut::Occupied(mut e) => e.to_back(),
        RawEntryMut::Vacant(_) => panic!("2 is in the map"),
    }
    assert_eq!(pairs_of(&map), vec![(1, 10), (3, 30), (2, 20)]);
    match map.raw_entry_mut().from_key(&3) {
        RawEntryMut::Occupied(e) => assert_eq!(e.remove_entry(), (3, 30)),
        RawEntryMut::Vacant(_) => panic!("3 is in the map"),
    }
    match map.raw_entry_mut().from_key(&1) {
        RawEntryMut::Occupied(e) => assert_eq!(e.remove(), 10),
        RawEntryMut::Vacant(_) => panic!("1 is in the map"),
    }
    assert_eq!(pairs_of(&map), vec![(2, 20)]);
    assert!(matches!(map.raw_entry_mut().from_key(&1), RawEntryMut::Vacant(_)));
}

#[test]
fn raw_occupied_into_references() {
    let mut map = sample();
    match map.raw_entry_mut().from_key(&1) {
        RawEntryMut::Occupied(e) => *e.into_mut() = 11,
        RawEntryMut::Vacant(_) => panic!("1 is in the map"),
    }
    match map.raw_entry_mut().from_key(&2) {
        RawEntryMut::Occupied(e) => {
            let (k, v) = e.into_key_value();
            assert_eq!(*k, 2);
            *v = 22;
        }
        RawEntryMut::Vacant(_) => panic!("2 is in the map"),
    }
    match map.raw_entry_mut().from_key(&3) {
        RawEntryMut::Occupied(e) => assert_eq!(*e.into_key(), 3),
        RawEntryMut::Vacant(_) => panic!("3 is in the map"),
    }
    assert_eq!(pairs_of(&map), vec![(1, 11), (2, 22), (3, 30)]);
}

#[test]
fn raw_key_writes_keep_the_filing() {
    let mut map: LinkedHashMap<(u32, u32), u32, Fixed> = LinkedHashMap::with_hasher(Fixed::default());
    let hash = 12345u64;
    match map.raw_entry_mut().from_hash(hash, |k| k.0 == 1) {
        RawEntryMut::Vacant(v) => {
            v.insert_hashed_nocheck(hash, (1, 0), 10);
        }
        RawEntryMut::Occupied(_) => panic!("the map is empty"),
    }
    match map.raw_entry_mut().from_hash(hash, |k| k.0 == 1) {
        RawEntryMut::Occupied(mut e) => {
            assert_eq!(e.insert_key((1, 7)), (1, 0));
            e.key_mut().1 = 8;
        }
        RawEntryMut::Vacant(_) => panic!("the entry is filed under the hash"),
    }
    assert_eq!(map.raw_entry().from_hash(hash, |k| k.0 == 1), Some((&(1, 8), &10)));
    assert_eq!(map.front(), Some((&(1, 8), &10)));
    assert_eq!(map.len(), 1);
}

#[test]
fn raw_vacant_inserts_at_back() {
    let mut map = sample();
    match map.raw_entry_mut().from_key(&4) {
        RawEntryMut::Vacant(v) => {
            let (k, val) = v.insert(4, 40);
            assert_eq!(*k, 4);
            *val += 1;
        }
        RawEntryMut::Occupied(_) => panic!("4 is not in the map"),
    }
    match map.raw_entry_mut().from_key_hashed_nocheck(h(5), &5) {
        RawEntryMut::Vacant(v) => {
            v.insert_hashed_nocheck(h(5), 5, 50);
        }
        RawEntryMut::Occupied(_) => panic!("5 is not in the map"),
    }
    match map.raw_entry_mut().from_key_hashed_nocheck(h(6), &6) {
        RawEntryMut::Vacant(v) => {
            v.insert_with_hasher(h(6), 6, 60, |k| h(*k));
        }
        RawEntryMut::Occupied(_) => panic!("6 is not in the map"),
    }
    assert_eq!(pairs_of(&map), vec![(1, 10), (2, 20), (3, 30), (4, 41), (5, 50), (6, 60)]);
    assert_eq!(map.get(&5), Some(&50));
    assert_eq!(map.get(&6), Some(&60));
}

#[test]
fn raw_or_insert_and_and_modify() {
    let mut map = sample();
    {
        let (k, v) = map.raw_entry_mut().from_key(&2).or_insert(2, 99);
        assert_eq!((*k, *v), (2, 20));
        *v += 1;
    }
    {
        let (k, v) = map.raw_entry_mut().from_key(&8).or_insert(8, 80);
        assert_eq!((*k, *v), (8, 80));
    }
    {
        let (_, v) = map.raw_entry_mut().from_key(&9).or_insert_with(|| (9, 90));
        *v += 1;
    }
    {
        let (_, v) = map.raw_entry_mut().from_key(&1).or_insert_with(|| (1, 0));
        assert_eq!(*v, 10);
    }
    map.raw_entry_mut().from_key(&3).and_modify(|_, v| *v += 3).or_insert(3, 0);
    map.raw_entry_mut().from_key(&7).and_modify(|_, v| *v += 3).or_insert(7, 70);
    assert_eq!(pairs_of(&map), vec![(1, 10), (2, 21), (3, 33), (8, 80), (9, 91), (7, 70)]);
}

#[test]
fn entries_under_a_hash_are_all_consulted() {
    let mut map: LinkedHashMap<u32, u32, Fixed> = LinkedHashMap::with_hasher(Fixed::default());
    let hash = 99u64;
    let mut i: u32 = 0;
    while i < 40 {
        match map.raw_entry_mut().from_hash(hash, |k| *k == i) {
            RawEntryMut::Vacant(v) => {
                v.insert_hashed_nocheck(hash, i, i * 10);
            }
            RawEntryMut::Occupied(_) => panic!("the key is new"),
        }
        i += 1;
    }
    assert_eq!(map.len(), 40);
    let mut j: u32 = 0;
    while j < 40 {
        assert_eq!(map.raw_entry().from_hash(hash, |k| *k == j), Some((&j, &(j * 10))));
        j += 1;
    }
    assert_eq!(map.raw_entry().from_hash(hash, |k| *k == 40), None);
    assert_eq!(map.pop_front(), Some((0, 0)));
    assert_eq!(map.pop_back(), Some((39, 390)));
    assert_eq!(map.raw_entry().from_hash(hash, |k| *k == 0), None);
    assert_eq!(map.raw_entry().from_hash(hash, |k| *k == 20), Some((&20, &200)));
}

#[test]
fn indexed_access_under_a_hash() {
    let mut map = sample();
    assert_eq!(*map.index_hashed(h(2), &2), 20);
    *map.index_mut_hashed(h(3), &3) += 5;
    assert_eq!(*map.index_hashed(h(3), &3), 35);
    assert_eq!(pairs_of(&map), vec![(1, 10), (2, 20), (3, 35)]);
}
