use hashlink::LinkedHashMap;
use std::collections::hash_map::RandomState;

fn pairs_of(map: &LinkedHashMap<u32, u32>) -> Vec<(u32, u32)> {
    let mut out = Vec::new();
    let mut it = map.iter();
    while let Some((k, v)) = it.next() {
        out.push((*k, *v));
    }
    out
}

#[test]
fn new_map_is_empty() {
    let mut map: LinkedHashMap<u32, u32> = LinkedHashMap::new();
    assert_eq!(map.len(), 0);
    assert!(map.is_empty());
    assert_eq!(map.front(), None);
    assert_eq!(map.back(), None);
    assert_eq!(map.pop_front(), None);
    assert_eq!(map.pop_back(), None);
    assert_eq!(map.get(&1), None);
    assert!(!map.contains_key(&1));
    assert_eq!(map.remove(&1), None);
    assert_eq!(pairs_of(&map), vec![]);
}

#[test]
fn constructors_give_empty_maps() {
    let a: LinkedHashMap<u32, u32> = LinkedHashMap::with_capacity(64);
    assert_eq!(a.len(), 0);
    let b: LinkedHashMap<u32, u32, RandomState> = LinkedHashMap::with_hasher(RandomState::new());
    assert_eq!(b.len(), 0);
    let mut c: LinkedHashMap<u32, u32, RandomState> =
        LinkedHashMap::with_capacity_and_hasher(16, RandomState::new());
    assert!(c.is_empty());
    assert_eq!(c.insert(1, 2), None);
    assert_eq!(c.get(&1), Some(&2));
}

#[test]
fn len_counts_new_keys_minus_removals_and_pops() {
    let mut map: LinkedHashMap<u32, u32> = LinkedHashMap::new();
    assert_eq!(map.insert(1, 10), None);
    assert_eq!(map.insert(2, 20), None);
    assert_eq!(map.insert(3, 30), None);
    assert_eq!(map.insert(4, 40), None);
    assert_eq!(map.len(), 4);
    assert_eq!(map.insert(2, 21), Some(20));
    assert_eq!(map.len(), 4);
    assert_eq!(map.remove(&3), Some(30));
    assert_eq!(map.len(), 3);
    assert_eq!(map.remove(&3), None);
    assert_eq!(map.len(), 3);
    assert_eq!(map.pop_front(), Some((1, 10)));
    assert_eq!(map.pop_back(), Some((2, 21)));
    assert_eq!(map.len(), 1);
    assert_eq!(pairs_of(&map).len(), 1);
    assert_eq!(map.iter().len(), 1);
    assert_eq!(map.pop_back(), Some((4, 40)));
    assert_eq!(map.pop_back(), None);
    assert_eq!(map.len(), 0);
}

#[test]
fn fresh_key_lands_at_back() {
    let mut map: LinkedHashMap<u32, u32> = LinkedHashMap::new();
    map.insert(7, 70);
    assert_eq!(map.back(), Some((&7, &70)));
    map.insert(3, 30);
    assert_eq!(map.back(), Some((&3, &30)));
    assert_eq!(map.front(), Some((&7, &70)));
}

#[test]
fn reinserted_key_takes_value_and_moves_to_back() {
    let mut map: LinkedHashMap<u32, u32> = LinkedHashMap::new();
    map.insert(1, 10);
    map.insert(2, 20);
    map.insert(3, 30);
    assert_eq!(map.insert(1, 11), Some(10));
    assert_eq!(pairs_of(&map), vec![(2, 20), (3, 30), (1, 11)]);
    assert_eq!(map.insert(3, 31), Some(30));
    assert_eq!(pairs_of(&map), vec![(2, 20), (1, 11), (3, 31)]);
    assert_eq!(map.insert(3, 32), Some(31));
    assert_eq!(pairs_of(&map), vec![(2, 20), (1, 11), (3, 32)]);
}

#[test]
fn round_trip_keeps_insertion_order() {
    let mut map: LinkedHashMap<u32, u32> = LinkedHashMap::new();
    let mut expected = Vec::new();
    let mut i: u32 = 0;
    while i < 500 {
        let k = (i * 7919) % 10007;
        map.insert(k, i);
        expected.push((k, i));
        i += 1;
    }
    assert_eq!(map.len(), 500);
    assert_eq!(pairs_of(&map), expected);
    let mut j = 0;
    while j < expected.len() {
        assert_eq!(map.get(&expected[j].0), Some(&expected[j].1));
        j += 1;
    }
}

#[test]
fn pops_take_the_ends() {
    let mut map: LinkedHashMap<u32, u32> = LinkedHashMap::new();
    map.insert(1, 10);
    map.insert(2, 20);
    map.insert(3, 30);
    map.insert(4, 40);
    assert_eq!(map.pop_front(), Some((1, 10)));
    assert_eq!(map.front(), Some((&2, &20)));
    assert_eq!(map.pop_back(), Some((4, 40)));
    assert_eq!(map.back(), Some((&3, &30)));
    assert_eq!(pairs_of(&map), vec![(2, 20), (3, 30)]);
    assert!(!map.contains_key(&1));
    assert!(!map.contains_key(&4));
    assert!(map.contains_key(&2));
}

#[test]
fn removed_key_is_gone() {
    let mut map: LinkedHashMap<u32, u32> = LinkedHashMap::new();
    map.insert(1, 10);
    map.insert(2, 20);
    map.insert(3, 30);
    assert_eq!(map.remove(&2), Some(20));
    assert!(!map.contains_key(&2));
    assert_eq!(map.get(&2), None);
    assert_eq!(map.get_mut(&2), None);
    assert_eq!(map.get_key_value(&2), None);
    assert_eq!(pairs_of(&map), vec![(1, 10), (3, 30)]);
    assert_eq!(map.remove(&2), None);
    assert_eq!(pairs_of(&map), vec![(1, 10), (3, 30)]);
}

#[test]
fn get_mut_writes_in_place() {
    let mut map: LinkedHashMap<u32, u32> = LinkedHashMap::new();
    map.insert(1, 10);
    map.insert(2, 20);
    map.insert(3, 30);
    if let Some(v) = map.get_mut(&1) {
        *v += 5;
    }
    assert_eq!(pairs_of(&map), vec![(1, 15), (2, 20), (3, 30)]);
    assert_eq!(map.get_key_value(&1), Some((&1, &15)));
}

#[test]
fn clear_empties_and_map_stays_usable() {
    let mut map: LinkedHashMap<u32, u32> = LinkedHashMap::with_capacity(32);
    let mut i: u32 = 0;
    while i < 20 {
        map.insert(i, i + 100);
        i += 1;
    }
    map.remove(&5);
    map.clear();
    assert_eq!(map.len(), 0);
    assert!(map.is_empty());
    assert_eq!(map.front(), None);
    assert_eq!(map.get(&3), None);
    assert_eq!(pairs_of(&map), vec![]);
    assert_eq!(map.insert(9, 90), None);
    assert_eq!(map.insert(8, 80), None);
    assert_eq!(pairs_of(&map), vec![(9, 90), (8, 80)]);
    assert_eq!(map.get(&9), Some(&90));
}

#[test]
fn clear_on_new_map_is_harmless() {
    let mut map: LinkedHashMap<u32, u32> = LinkedHashMap::new();
    map.clear();
    assert_eq!(map.len(), 0);
    map.insert(1, 1);
    assert_eq!(pairs_of(&map), vec![(1, 1)]);
}

#[test]
fn drain_yields_everything_in_order_and_resets() {
    let mut map: LinkedHashMap<u32, u32> = LinkedHashMap::new();
    map.insert(1, 10);
    map.insert(2, 20);
    map.insert(3, 30);
    map.insert(1, 11);
    let mut drain = map.drain();
    assert_eq!(drain.len(), 3);
    assert_eq!(drain.size_hint(), (3, Some(3)));
    assert_eq!(drain.next(), Some((2, 20)));
    assert_eq!(drain.next_back(), Some((1, 11)));
    assert_eq!(drain.next(), Some((3, 30)));
    assert_eq!(drain.next(), None);
    assert_eq!(drain.next_back(), None);
    assert_eq!(map.len(), 0);
    assert_eq!(map.get(&1), None);
    assert_eq!(map.insert(5, 50), None);
    assert_eq!(map.insert(4, 40), None);
    assert_eq!(pairs_of(&map), vec![(5, 50), (4, 40)]);
}

#[test]
fn drain_dropped_early_leaves_an_empty_map() {
    let mut map: LinkedHashMap<u32, u32> = LinkedHashMap::new();
    map.insert(1, 10);
    map.insert(2, 20);
    {
        let mut drain = map.drain();
        assert_eq!(drain.next(), Some((1, 10)));
    }
    assert!(map.is_empty());
    assert_eq!(map.front(), None);
    map.insert(3, 30);
    assert_eq!(pairs_of(&map), vec![(3, 30)]);
}

#[test]
fn vacated_slots_are_used_again() {
    let mut map: LinkedHashMap<u32, u32> = LinkedHashMap::new();
    let mut round: u32 = 0;
    while round < 50 {
        map.insert(round, round);
        map.insert(round + 1000, round);
        assert_eq!(map.remove(&round), Some(round));
        round += 1;
    }
    assert_eq!(map.len(), 50);
    let got = pairs_of(&map);
    let mut i: u32 = 0;
    while i < 50 {
        assert_eq!(got[i as usize], (i + 1000, i));
        i += 1;
    }
}

#[test]
fn reserve_and_shrink_keep_the_entries() {
    let mut map: LinkedHashMap<u32, u32> = LinkedHashMap::new();
    map.reserve(100);
    let mut i: u32 = 0;
    while i < 64 {
        map.insert(i, i * 2);
        i += 1;
    }
    map.reserve(1000);
    let mut j: u32 = 0;
    while j < 60 {
        assert_eq!(map.remove(&j), Some(j * 2));
        j += 1;
    }
    map.shrink_to_fit();
    assert_eq!(pairs_of(&map), vec![(60, 120), (61, 122), (62, 124), (63, 126)]);
    assert_eq!(map.get(&62), Some(&124));
    assert_eq!(map.get(&3), None);
    map.insert(7, 14);
    assert_eq!(map.back(), Some((&7, &14)));
    assert_eq!(map.len(), 5);
    map.shrink_to_fit();
    assert_eq!(map.remove(&61), Some(122));
    assert_eq!(pairs_of(&map), vec![(60, 120), (62, 124), (63, 126), (7, 14)]);
}

#[test]
fn shrink_on_empty_maps() {
    let mut map: LinkedHashMap<u32, u32> = LinkedHashMap::new();
    map.shrink_to_fit();
    assert!(map.is_empty());
    map.insert(1, 1);
    map.remove(&1);
    map.shrink_to_fit();
    assert!(map.is_empty());
    map.insert(2, 2);
    assert_eq!(pairs_of(&map), vec![(2, 2)]);
}

#[test]
fn index_survives_growth() {
    let mut map: LinkedHashMap<u64, u64> = LinkedHashMap::new();
    let mut i: u64 = 0;
    while i < 5000 {
        assert_eq!(map.insert(i, i + 1), None);
        i += 1;
    }
    assert_eq!(map.len(), 5000);
    let mut j: u64 = 0;
    while j < 5000 {
        assert_eq!(map.get(&j), Some(&(j + 1)));
        j += 1;
    }
    assert_eq!(map.get(&5000), None);
    let mut k: u64 = 0;
    while k < 5000 {
        assert_eq!(map.remove(&k), Some(k + 1));
        k += 2;
    }
    assert_eq!(map.len(), 2500);
    assert_eq!(map.front(), Some((&1, &2)));
    assert_eq!(map.get(&2), None);
    assert_eq!(map.get(&4999), Some(&5000));
}

#[test]
fn extend_inserts_each_pair_in_turn() {
    let mut map: LinkedHashMap<u32, u32> = LinkedHashMap::new();
    map.insert(1, 10);
    map.insert(2, 20);
    map.extend(vec![(3, 30), (1, 11), (4, 40), (3, 31)]);
    assert_eq!(pairs_of(&map), vec![(2, 20), (1, 11), (4, 40), (3, 31)]);
    map.extend(vec![]);
    assert_eq!(map.len(), 4);
}

#[test]
fn clone_copies_entries_in_order() {
    let mut map: LinkedHashMap<u32, u32, RandomState> = LinkedHashMap::with_hasher(RandomState::new());
    map.insert(3, 30);
    map.insert(1, 10);
    map.insert(2, 20);
    map.insert(3, 33);
    let mut copy = map.clone();
    assert_eq!(copy.len(), 3);
    assert_eq!(copy.front(), Some((&1, &10)));
    assert_eq!(copy.back(), Some((&3, &33)));
    assert_eq!(copy.get(&2), Some(&20));
    copy.insert(9, 90);
    assert_eq!(copy.len(), 4);
    assert_eq!(map.len(), 3);
    assert_eq!(map.get(&9), None);
}

#[test]
fn string_keys_work() {
    let mut map: LinkedHashMap<String, Vec<u8>> = LinkedHashMap::new();
    map.insert(String::from("one"), vec![1]);
    map.insert(String::from("two"), vec![2, 2]);
    assert_eq!(map.get(&String::from("two")), Some(&vec![2, 2]));
    assert_eq!(map.remove(&String::from("one")), Some(vec![1]));
    assert_eq!(map.front(), Some((&String::from("two"), &vec![2, 2])));
}

#[test]
fn entry_limit_is_a_256th_of_the_address_space() {
    assert_eq!(hashlink::index::MAX_ENTRIES, usize::MAX / 256);
    assert_eq!(hashlink::index::MAX_ENTRIES as u128 * 256 + 255, usize::MAX as u128);
}

#[test]
fn cleared_slots_serve_the_next_entries() {
    let mut map: LinkedHashMap<u32, u32> = LinkedHashMap::new();
    let mut i: u32 = 0;
    while i < 30 {
        map.insert(i, i);
        i += 1;
    }
    map.remove(&7);
    map.remove(&8);
    map.clear();
    assert!(map.is_empty());
    assert_eq!(map.pop_front(), None);
    let mut j: u32 = 0;
    while j < 40 {
        assert_eq!(map.insert(100 + j, j), None);
        j += 1;
    }
    assert_eq!(map.len(), 40);
    assert_eq!(map.front(), Some((&100, &0)));
    assert_eq!(map.back(), Some((&139, &39)));
    assert_eq!(map.get(&7), None);
    assert_eq!(map.get(&120), Some(&20));
    map.clear();
    map.shrink_to_fit();
    assert!(map.is_empty());
    map.insert(1, 1);
    assert_eq!(pairs_of(&map), vec![(1, 1)]);
}
