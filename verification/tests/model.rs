use hashlink::entry::Entry;
use hashlink::LinkedHashMap;

struct Lcg(u64);

impl Lcg {
    fn next(&mut self) -> u64 {
        self.0 = self.0.wrapping_mul(6364136223846793005).wrapping_add(1442695040888963407);
        self.0 >> 33
    }
}

fn position(model: &Vec<(u16, u32)>, k: u16) -> Option<usize> {
    let mut i = 0;
    while i < model.len() {
        if model[i].0 == k {
            return Some(i);
        }
        i += 1;
    }
    None
}

fn same(map: &LinkedHashMap<u16, u32>, model: &Vec<(u16, u32)>) {
    assert_eq!(map.len(), model.len());
    let mut it = map.iter();
    let mut i = 0;
    while let Some((k, v)) = it.next() {
        assert_eq!((*k, *v), model[i]);
        i += 1;
    }
    assert_eq!(i, model.len());
    let mut back = map.iter();
    let mut j = model.len();
    while let Some((k, v)) = back.next_back() {
        j -= 1;
        assert_eq!((*k, *v), model[j]);
    }
    assert_eq!(j, 0);
}

#[test]
fn map_agrees_with_a_list_under_mixed_operations() {
    let mut rng = Lcg(0x1234_5678_9abc_def0);
    let mut map: LinkedHashMap<u16, u32> = LinkedHashMap::new();
    let mut model: Vec<(u16, u32)> = Vec::new();
    let mut step: u32 = 0;
    while step < 20000 {
        let k = (rng.next() % 64) as u16;
        let v = step;
        match rng.next() % 12 {
            0 | 1 | 2 => {
                let expected = match position(&model, k) {
                    Some(i) => Some(model.remove(i).1),
                    None => None,
                };
                model.push((k, v));
                assert_eq!(map.insert(k, v), expected);
            }
            3 => {
                let expected = match position(&model, k) {
                    Some(i) => Some(model.remove(i).1),
                    None => None,
                };
                assert_eq!(map.remove(&k), expected);
            }
            4 => {
                let expected = if model.is_empty() { None } else { Some(model.remove(0)) };
                assert_eq!(map.pop_front(), expected);
            }
            5 => {
                assert_eq!(map.pop_back(), model.pop());
            }
            6 => {
                let expected = position(&model, k).map(|i| model[i].1);
                assert_eq!(map.get(&k).copied(), expected);
                assert_eq!(map.contains_key(&k), expected.is_some());
            }
            7 => match map.entry(k) {
                Entry::Occupied(mut e) => {
                    let i = position(&model, k).expect("the list has the key too");
                    let kv = model.remove(i);
                    model.insert(0, kv);
                    e.to_front();
                }
                Entry::Vacant(_) => assert_eq!(position(&model, k), None),
            },
            8 => match map.entry(k) {
                Entry::Occupied(mut e) => {
                    let i = position(&model, k).expect("the list has the key too");
                    let kv = model.remove(i);
                    model.push(kv);
                    e.to_back();
                }
                Entry::Vacant(e) => {
                    assert_eq!(position(&model, k), None);
                    model.push((k, v));
                    e.insert(v);
                }
            },
            9 => {
                if let Some(slot) = map.get_mut(&k) {
                    let i = position(&model, k).expect("the list has the key too");
                    model[i].1 = v;
                    *slot = v;
                } else {
                    assert_eq!(position(&model, k), None);
                }
            }
            10 => {
                if step % 7 == 0 {
                    map.shrink_to_fit();
                } else {
                    map.reserve((rng.next() % 50) as usize);
                }
            }
            _ => {
                if step % 50 == 0 {
                    if step % 100 == 0 {
                        map.clear();
                        model.clear();
                    } else {
                        let mut drain = map.drain();
                        let mut i = 0;
                        while let Some(kv) = drain.next() {
                            assert_eq!(kv, model[i]);
                            i += 1;
                        }
                        assert_eq!(i, model.len());
                        model.clear();
                    }
                }
            }
        }
        assert_eq!(map.len(), model.len());
        assert_eq!(map.front().map(|kv| (*kv.0, *kv.1)), model.first().copied());
        assert_eq!(map.back().map(|kv| (*kv.0, *kv.1)), model.last().copied());
        if step % 97 == 0 {
            same(&map, &model);
        }
        step += 1;
    }
    same(&map, &model);
}
