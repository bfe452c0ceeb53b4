use bred::TreeMap;

#[test]
fn map_clear() {
    let mut a = TreeMap::new();
    a.insert(1, "a");
    a.clear();
    assert!(a.is_empty());
}

#[test]
fn map_get() {
    let mut map = TreeMap::new();
    map.insert(1, "a");
    assert_eq!(map.get(&1), Some(&"a"));
    assert_eq!(map.get(&2), None);
}

#[test]
fn get_key_value() {
    let mut map = TreeMap::new();
    map.insert(1, "a");
    assert_eq!(map.get_key_value(&1), Some((&1, &"a")));
    assert_eq!(map.get_key_value(&2), None);
}

#[test]
fn contains_key() {
    let mut map = TreeMap::new();
    map.insert(1, "a");
    assert_eq!(map.contains_key(&1), true);
    assert_eq!(map.contains_key(&2), false);
}

#[test]
fn map_insert() {
    let mut map = TreeMap::new();
    assert_eq!(map.insert(37, "a"), None);
    assert_eq!(map.is_empty(), false);

    map.insert(37, "b");
    assert_eq!(map.insert(37, "c"), Some("b"));
    assert_eq!(*map.get(&37).unwrap(), "c");
}

#[test]
fn map_remove() {
    let mut map = TreeMap::new();
    map.insert(1, "a");
    assert_eq!(map.remove(&1), Some("a"));
    assert_eq!(map.remove(&1), None);
}

#[test]
fn map_len() {
    let mut a = TreeMap::new();
    assert_eq!(a.len(), 0);
    a.insert(1, "a");
    assert_eq!(a.len(), 1);
}

#[test]
fn map_is_empty() {
    let mut a = TreeMap::new();
    assert!(a.is_empty());
    a.insert(1, "a");
    assert!(!a.is_empty());
}

#[test]
fn map_reorders_keys() {
    let mut map = TreeMap::new();
    map.insert(3, "c");
    map.insert(1, "a");
    map.insert(2, "b");
    assert_eq!(map.len(), 3);
    assert_eq!(map.get(&1), Some(&"a"));
    assert_eq!(map.get(&2), Some(&"b"));
    assert_eq!(map.get(&3), Some(&"c"));
    assert_eq!(map.remove(&2), Some("b"));
    assert_eq!(map.len(), 2);
    assert_eq!(map.get(&1), Some(&"a"));
    assert_eq!(map.get(&2), None);
    assert_eq!(map.get(&3), Some(&"c"));
}

#[test]
fn map_remove_root_with_two_children() {
    let mut map = TreeMap::new();
    map.insert(5, "e");
    map.insert(2, "b");
    map.insert(8, "h");
    map.insert(1, "a");
    map.insert(3, "c");
    assert_eq!(map.remove(&5), Some("e"));
    assert_eq!(map.len(), 4);
    assert_eq!(map.get(&1), Some(&"a"));
    assert_eq!(map.get(&2), Some(&"b"));
    assert_eq!(map.get(&3), Some(&"c"));
    assert_eq!(map.get(&5), None);
    assert_eq!(map.get(&8), Some(&"h"));
}

#[test]
fn map_negative_keys() {
    let mut map = TreeMap::new();
    map.insert(-4, "low");
    map.insert(0, "zero");
    map.insert(4, "high");
    assert_eq!(map.get(&-4), Some(&"low"));
    assert_eq!(map.contains_key(&-4), true);
    assert_eq!(map.remove(&-4), Some("low"));
    assert_eq!(map.contains_key(&-4), false);
    assert_eq!(map.len(), 2);
}

#[test]
fn map_iter() {
    let mut map = TreeMap::new();
    map.insert(3, "c");
    map.insert(2, "b");
    map.insert(1, "a");

    for (key, value) in map.iter() {
        println!("{}: {}", key, value);
    }

    let pairs = map.iter();
    let (first_key, first_value) = pairs[0];
    assert_eq!((*first_key, *first_value), (1, "a"));
}

#[test]
fn keys() {
    let mut a = TreeMap::new();
    a.insert(2, "b");
    a.insert(1, "a");

    let keys: Vec<_> = a.keys();
    assert_eq!(keys, [1, 2]);
}

#[test]
fn values() {
    let mut a = TreeMap::new();
    a.insert(1, "hello");
    a.insert(2, "goodbye");

    let values: Vec<&str> = a.values();
    assert_eq!(values, ["hello", "goodbye"]);
}
