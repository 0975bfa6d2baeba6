use hashlink::entry::Entry;
use hashlink::LinkedHashMap;

fn sample() -> LinkedHashMap<u32, u32> {
    let mut map: LinkedHashMap<u32, u32> = LinkedHashMap::new();
    map.insert(1, 10);
    map.insert(2, 20);
    map.insert(3, 30);
    map
}

fn pairs_of(map: &LinkedHashMap<u32, u32>) -> Vec<(u32, u32)> {
    let mut out = Vec::new();
    let mut it = map.iter();
    while let Some((k, v)) = it.next() {
        out.push((*k, *v));
    }
    out
}

#[test]
fn entry_tells_occupied_from_vacant() {
    let mut map = sample();
    assert!(matches!(map.entry(2), Entry::Occupied(_)));
    assert!(matches!(map.entry(9), Entry::Vacant(_)));
    assert_eq!(*map.entry(2).key(), 2);
    assert_eq!(*map.entry(9).key(), 9);
    assert_eq!(pairs_of(&map), vec![(1, 10), (2, 20), (3, 30)]);
}

#[test]
fn to_front_moves_entry_and_keeps_value() {
    let mut map = sample();
    match map.entry(3) {
        Entry::Occupied(mut e) => {
            e.to_front();
            assert_eq!(*e.get(), 30);
            assert_eq!(*e.key(), 3);
        }
        Entry::Vacant(_) => panic!("3 is in the map"),
    }
    assert_eq!(pairs_of(&map), vec![(3, 30), (1, 10), (2, 20)]);
    assert_eq!(map.front(), Some((&3, &30)));
    match map.entry(3) {
        Entry::Occupied(mut e) => e.to_front(),
        Entry::Vacant(_) => panic!("3 is in the map"),
    }
    assert_eq!(pairs_of(&map), vec![(3, 30), (1, 10), (2, 20)]);
}

#[test]
fn to_back_moves_entry_and_keeps_value() {
    let mut map = sample();
    match map.entry(1) {
        Entry::Occupied(mut e) => {
            e.to_back();
            assert_eq!(*e.get(), 10);
        }
        Entry::Vacant(_) => panic!("1 is in the map"),
    }
    assert_eq!(pairs_of(&map), vec![(2, 20), (3, 30), (1, 10)]);
    assert_eq!(map.back(), Some((&1, &10)));
    match map.entry(1) {
        Entry::Occupied(mut e) => e.to_back(),
        Entry::Vacant(_) => panic!("1 is in the map"),
    }
    assert_eq!(pairs_of(&map), vec![(2, 20), (3, 30), (1, 10)]);
}

#[test]
fn moves_in_a_map_of_one() {
    let mut map: LinkedHashMap<u32, u32> = LinkedHashMap::new();
    map.insert(5, 50);
    match map.entry(5) {
        Entry::Occupied(mut e) => {
            e.to_front();
            e.to_back();
            e.to_front();
        }
        Entry::Vacant(_) => panic!("5 is in the map"),
    }
    assert_eq!(pairs_of(&map), vec![(5, 50)]);
    assert_eq!(map.front(), Some((&5, &50)));
    assert_eq!(map.back(), Some((&5, &50)));
}

#[test]
fn or_insert_gets_or_adds() {
    let mut map = sample();
    *map.entry(2).or_insert(99) += 1;
    assert_eq!(map.get(&2), Some(&21));
    *map.entry(7).or_insert(70) += 1;
    assert_eq!(map.get(&7), Some(&71));
    assert_eq!(pairs_of(&map), vec![(1, 10), (2, 21), (3, 30), (7, 71)]);
}

#[test]
fn or_insert_with_calls_default_only_when_vacant() {
    let mut map = sample();
    let mut calls = 0;
    {
        let v = map.entry(1).or_insert_with(|| {
            calls += 1;
            111
        });
        assert_eq!(*v, 10);
    }
    assert_eq!(calls, 0);
    {
        let v = map.entry(8).or_insert_with(|| {
            calls += 1;
            80
        });
        assert_eq!(*v, 80);
    }
    assert_eq!(calls, 1);
    assert_eq!(map.back(), Some((&8, &80)));
}

#[test]
fn and_modify_touches_occupied_only() {
    let mut map = sample();
    map.entry(2).and_modify(|v| *v *= 2).or_insert(0);
    map.entry(6).and_modify(|v| *v *= 2).or_insert(60);
    assert_eq!(pairs_of(&map), vec![(1, 10), (2, 40), (3, 30), (6, 60)]);
}

#[test]
fn occupied_insert_replaces_and_moves_to_back() {
    let mut map = sample();
    match map.entry(1) {
        Entry::Occupied(mut e) => {
            assert_eq!(e.insert(11), 10);
            assert_eq!(*e.get(), 11);
        }
        Entry::Vacant(_) => panic!("1 is in the map"),
    }
    assert_eq!(pairs_of(&map), vec![(2, 20), (3, 30), (1, 11)]);
}

#[test]
fn occupied_get_mut_and_into_mut() {
    let mut map = sample();
    match map.entry(2) {
        Entry::Occupied(mut e) => {
            *e.get_mut() += 1;
            let v = e.into_mut();
            *v += 1;
        }
        Entry::Vacant(_) => panic!("2 is in the map"),
    }
    assert_eq!(pairs_of(&map), vec![(1, 10), (2, 22), (3, 30)]);
}

#[test]
fn occupied_remove_and_remove_entry() {
    let mut map = sample();
    match map.entry(2) {
        Entry::Occupied(e) => assert_eq!(e.remove(), 20),
        Entry::Vacant(_) => panic!("2 is in the map"),
    }
    match map.entry(1) {
        Entry::Occupied(e) => assert_eq!(e.remove_entry(), (1, 10)),
        Entry::Vacant(_) => panic!("1 is in the map"),
    }
    assert_eq!(pairs_of(&map), vec![(3, 30)]);
    assert!(!map.contains_key(&2));
    assert_eq!(map.len(), 1);
}

#[test]
fn replace_entry_and_replace_key_keep_the_place() {
    let mut map: LinkedHashMap<String, u32> = LinkedHashMap::new();
    map.insert(String::from("a"), 1);
    map.insert(String::from("b"), 2);
    match map.entry(String::from("a")) {
        Entry::Occupied(e) => assert_eq!(e.replace_entry(5), (String::from("a"), 1)),
        Entry::Vacant(_) => panic!("a is in the map"),
    }
    assert_eq!(map.front(), Some((&String::from("a"), &5)));
    match map.entry(String::from("b")) {
        Entry::Occupied(e) => assert_eq!(e.replace_key(), String::from("b")),
        Entry::Vacant(_) => panic!("b is in the map"),
    }
    assert_eq!(map.back(), Some((&String::from("b"), &2)));
    assert_eq!(map.len(), 2);
}

#[test]
fn vacant_key_into_key_and_insert() {
    let mut map = sample();
    match map.entry(4) {
        Entry::Vacant(v) => {
            assert_eq!(*v.key(), 4);
            assert_eq!(v.into_key(), 4);
        }
        Entry::Occupied(_) => panic!("4 is not in the map"),
    }
    assert_eq!(map.len(), 3);
    match map.entry(4) {
        Entry::Vacant(v) => {
            let r = v.insert(40);
            *r += 1;
        }
        Entry::Occupied(_) => panic!("4 is not in the map"),
    }
    assert_eq!(pairs_of(&map), vec![(1, 10), (2, 20), (3, 30), (4, 41)]);
    assert_eq!(map.get(&4), Some(&41));
}

#[test]
fn vacant_insert_into_new_map() {
    let mut map: LinkedHashMap<u32, u32> = LinkedHashMap::new();
    match map.entry(1) {
        Entry::Vacant(v) => {
            v.insert(10);
        }
        Entry::Occupied(_) => panic!("the map is empty"),
    }
    assert_eq!(pairs_of(&map), vec![(1, 10)]);
}
