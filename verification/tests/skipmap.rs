use skiplist::skipmap::SkipMap;

fn filled() -> SkipMap<i32, &'static str> {
    let mut map = SkipMap::new();
    map.insert(2, "two");
    map.insert(1, "one");
    map.insert(3, "three");
    map
}

#[test]
fn map_new_is_empty() {
    let map: SkipMap<i32, i32> = SkipMap::new();
    assert_eq!(map.len(), 0);
    assert_eq!(map.get(&1), None);
    assert_eq!(map.first(), None);
    assert_eq!(map.last(), None);
    assert!(!map.contains(&1));
}

#[test]
fn map_insert_and_get() {
    let mut map = SkipMap::new();
    assert_eq!(map.insert(2, "two"), None);
    assert_eq!(map.insert(1, "one"), None);
    assert_eq!(map.insert(3, "three"), None);
    assert_eq!(map.len(), 3);
    assert_eq!(map.get(&1), Some(&"one"));
    assert_eq!(map.get(&2), Some(&"two"));
    assert_eq!(map.get(&3), Some(&"three"));
    assert_eq!(map.get(&4), None);
    assert_eq!(map.get_kv(&2), Some((&2, &"two")));
    assert_eq!(map.get_kv(&0), None);
    assert!(map.contains(&3));
    assert!(!map.contains(&0));
}

#[test]
fn map_insert_replaces_an_equal_key() {
    let mut map = filled();
    assert_eq!(map.insert(2, "zwei"), Some((2, "two")));
    assert_eq!(map.len(), 3);
    assert_eq!(map.get(&2), Some(&"zwei"));
    assert_eq!(map.get(&1), Some(&"one"));
    assert_eq!(map.get(&3), Some(&"three"));
}

#[test]
fn map_remove() {
    let mut map = filled();
    assert_eq!(map.remove(&2), Some((2, "two")));
    assert_eq!(map.remove(&2), None);
    assert_eq!(map.len(), 2);
    assert_eq!(map.get(&1), Some(&"one"));
    assert_eq!(map.get(&3), Some(&"three"));
}

#[test]
fn map_get_mut() {
    let mut map = filled();
    *map.get_mut(&3).unwrap() = "drei";
    assert_eq!(map.get(&3), Some(&"drei"));
    assert!(map.get_mut(&9).is_none());
    assert_eq!(map.len(), 3);
}

#[test]
fn map_first_and_last() {
    let mut map = filled();
    assert_eq!(map.first(), Some((&1, &"one")));
    assert_eq!(map.last(), Some((&3, &"three")));
    assert_eq!(map.remove_first(), Some((1, "one")));
    assert_eq!(map.remove_last(), Some((3, "three")));
    assert_eq!(map.first(), Some((&2, &"two")));
    assert_eq!(map.last(), Some((&2, &"two")));
    assert_eq!(map.remove_last(), Some((2, "two")));
    assert_eq!(map.remove_last(), None);
    assert_eq!(map.remove_first(), None);
}

#[test]
fn map_keeps_values_with_their_keys() {
    let mut map = SkipMap::new();
    let mut model = std::collections::BTreeMap::new();
    let mut state: u64 = 4242;
    for step in 0..3000u64 {
        state = state.wrapping_mul(6364136223846793005).wrapping_add(1442695040888963407);
        let key = (state >> 40) as u32 % 200;
        if step % 4 == 3 {
            assert_eq!(map.remove(&key), model.remove(&key).map(|v| (key, v)));
        } else {
            assert_eq!(map.insert(key, step), model.insert(key, step).map(|v| (key, v)));
        }
        assert_eq!(map.len(), model.len());
    }
    for (k, v) in model.iter() {
        assert_eq!(map.get(k), Some(v));
    }
    assert_eq!(map.first(), model.iter().next());
    assert_eq!(map.last(), model.iter().next_back());
}

#[test]
fn map_pairs_with_values_to_change() {
    let mut map = filled();
    {
        let (key, value) = map.get_kv_mut(&2).unwrap();
        assert_eq!(*key, 2);
        *value = "zwei";
    }
    {
        let (key, value) = map.first_mut().unwrap();
        assert_eq!(*key, 1);
        *value = "eins";
    }
    {
        let (key, value) = map.last_mut().unwrap();
        assert_eq!(*key, 3);
        *value = "drei";
    }
    assert!(map.get_kv_mut(&7).is_none());
    assert_eq!(map.get(&1), Some(&"eins"));
    assert_eq!(map.get(&2), Some(&"zwei"));
    assert_eq!(map.get(&3), Some(&"drei"));
    let mut empty: SkipMap<i32, i32> = SkipMap::new();
    assert!(empty.first_mut().is_none());
    assert!(empty.last_mut().is_none());
}
