use hashlink::LinkedHashMap;

#[test]
fn front_and_back_follow_insertion_and_reinsertion() {
    let mut map: LinkedHashMap<&str, i32> = LinkedHashMap::new();
    assert_eq!(map.insert("a", 1), None);
    assert_eq!(map.insert("b", 2), None);
    assert_eq!(map.insert("c", 3), None);
    assert_eq!(map.front(), Some((&"a", &1)));
    assert_eq!(map.back(), Some((&"c", &3)));

    assert_eq!(map.insert("a", 4), Some(1));
    assert_eq!(map.get(&"a"), Some(&4));
    assert_eq!(map.back(), Some((&"a", &4)));
    assert_eq!(map.front(), Some((&"b", &2)));

    assert_eq!(map.pop_front(), Some(("b", 2)));
    let mut it = map.iter();
    assert_eq!(it.next(), Some((&"c", &3)));
    assert_eq!(it.next(), Some((&"a", &4)));
    assert_eq!(it.next(), None);
}
