use hashlink::LinkedHashMap;

fn sample() -> LinkedHashMap<u32, u32> {
    let mut map: LinkedHashMap<u32, u32> = LinkedHashMap::new();
    map.insert(1, 10);
    map.insert(2, 20);
    map.insert(3, 30);
    map.insert(4, 40);
    map
}

#[test]
fn iter_runs_front_to_back() {
    let map = sample();
    let mut it = map.iter();
    assert_eq!(it.len(), 4);
    assert_eq!(it.size_hint(), (4, Some(4)));
    assert_eq!(it.next(), Some((&1, &10)));
    assert_eq!(it.len(), 3);
    assert_eq!(it.next(), Some((&2, &20)));
    assert_eq!(it.next(), Some((&3, &30)));
    assert_eq!(it.next(), Some((&4, &40)));
    assert_eq!(it.next(), None);
    assert_eq!(it.next(), None);
    assert_eq!(it.size_hint(), (0, Some(0)));
}

#[test]
fn iter_runs_back_to_front() {
    let map = sample();
    let mut it = map.iter();
    assert_eq!(it.next_back(), Some((&4, &40)));
    assert_eq!(it.next_back(), Some((&3, &30)));
    assert_eq!(it.next_back(), Some((&2, &20)));
    assert_eq!(it.next_back(), Some((&1, &10)));
    assert_eq!(it.next_back(), None);
    assert_eq!(it.next(), None);
}

#[test]
fn iter_ends_meet() {
    let map = sample();
    let mut it = map.iter();
    assert_eq!(it.next(), Some((&1, &10)));
    assert_eq!(it.next_back(), Some((&4, &40)));
    assert_eq!(it.next_back(), Some((&3, &30)));
    assert_eq!(it.len(), 1);
    assert_eq!(it.next(), Some((&2, &20)));
    assert_eq!(it.next(), None);
    assert_eq!(it.next_back(), None);
}

#[test]
fn iter_clone_goes_its_own_way() {
    let map = sample();
    let mut it = map.iter();
    assert_eq!(it.next(), Some((&1, &10)));
    let mut other = it.clone();
    assert_eq!(it.next(), Some((&2, &20)));
    assert_eq!(other.next(), Some((&2, &20)));
    assert_eq!(other.next_back(), Some((&4, &40)));
    assert_eq!(it.len(), 2);
    assert_eq!(other.len(), 1);
}

#[test]
fn iter_on_empty_map() {
    let map: LinkedHashMap<u32, u32> = LinkedHashMap::new();
    let mut it = map.iter();
    assert_eq!(it.len(), 0);
    assert_eq!(it.next(), None);
    assert_eq!(it.next_back(), None);
    let mut cleared = sample();
    cleared.clear();
    let mut it2 = cleared.iter();
    assert_eq!(it2.next(), None);
}

#[test]
fn keys_and_values_follow_the_order() {
    let mut map = sample();
    map.insert(2, 22);
    let mut keys = map.keys();
    assert_eq!(keys.len(), 4);
    assert_eq!(keys.next(), Some(&1));
    assert_eq!(keys.next_back(), Some(&2));
    assert_eq!(keys.next(), Some(&3));
    assert_eq!(keys.size_hint(), (1, Some(1)));
    assert_eq!(keys.next(), Some(&4));
    assert_eq!(keys.next(), None);
    let mut values = map.values();
    assert_eq!(values.len(), 4);
    assert_eq!(values.next(), Some(&10));
    let mut rest = values.clone();
    assert_eq!(values.next_back(), Some(&22));
    assert_eq!(values.next(), Some(&30));
    assert_eq!(values.next(), Some(&40));
    assert_eq!(values.next_back(), None);
    assert_eq!(rest.size_hint(), (3, Some(3)));
    assert_eq!(rest.next(), Some(&30));
}

#[test]
fn iter_mut_writes_through() {
    let mut map = sample();
    {
        let mut it = map.iter_mut();
        assert_eq!(it.len(), 4);
        while let Some((k, v)) = it.next() {
            *v += *k;
        }
        assert_eq!(it.size_hint(), (0, Some(0)));
    }
    let mut it = map.iter();
    assert_eq!(it.next(), Some((&1, &11)));
    assert_eq!(it.next(), Some((&2, &22)));
    assert_eq!(it.next(), Some((&3, &33)));
    assert_eq!(it.next(), Some((&4, &44)));
    assert_eq!(map.get(&3), Some(&33));
}

#[test]
fn iter_mut_from_both_ends() {
    let mut map = sample();
    {
        let mut it = map.iter_mut();
        if let Some((k, v)) = it.next_back() {
            assert_eq!(*k, 4);
            *v = 0;
        }
        if let Some((k, v)) = it.next() {
            assert_eq!(*k, 1);
            *v = 1;
        }
        assert_eq!(it.len(), 2);
        if let Some((k, v)) = it.next_back() {
            assert_eq!(*k, 3);
            *v = 3;
        }
        if let Some((k, v)) = it.next_back() {
            assert_eq!(*k, 2);
            *v = 2;
        }
        assert!(it.next().is_none());
        assert!(it.next_back().is_none());
    }
    let mut it = map.iter();
    assert_eq!(it.next(), Some((&1, &1)));
    assert_eq!(it.next(), Some((&2, &2)));
    assert_eq!(it.next(), Some((&3, &3)));
    assert_eq!(it.next(), Some((&4, &0)));
}

#[test]
fn values_mut_writes_through() {
    let mut map = sample();
    {
        let mut values = map.values_mut();
        assert_eq!(values.len(), 4);
        assert_eq!(values.size_hint(), (4, Some(4)));
        if let Some(v) = values.next() {
            *v = 100;
        }
        if let Some(v) = values.next_back() {
            *v = 400;
        }
        assert_eq!(values.len(), 2);
    }
    assert_eq!(map.front(), Some((&1, &100)));
    assert_eq!(map.back(), Some((&4, &400)));
    assert_eq!(map.get(&2), Some(&20));
}
