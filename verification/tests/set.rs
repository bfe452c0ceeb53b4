use bred::TreeSet;

#[test]
fn set_clear() {
    let mut v = TreeSet::new();
    v.insert(1);
    v.clear();
    assert!(v.is_empty());
}

#[test]
fn contains() {
    let mut set = TreeSet::new();
    set.insert(1);
    set.insert(2);
    set.insert(3);
    assert_eq!(set.contains(&1), true);
    assert_eq!(set.contains(&4), false);
}

#[test]
fn set_get() {
    let mut set = TreeSet::new();
    set.insert(1);
    set.insert(2);
    set.insert(3);
    assert_eq!(set.get(&2), Some(&2));
    assert_eq!(set.get(&4), None);
}

#[test]
fn set_insert() {
    let mut set = TreeSet::new();

    assert_eq!(set.insert(2), true);
    assert_eq!(set.insert(2), false);
    assert_eq!(set.len(), 1);
}

#[test]
fn set_remove() {
    let mut set = TreeSet::new();

    set.insert(2);
    assert_eq!(set.remove(&2), true);
    assert_eq!(set.remove(&2), false);
}

#[test]
fn take() {
    let mut set = TreeSet::new();
    set.insert(1);
    set.insert(2);
    set.insert(3);
    assert_eq!(set.take(&2), Some(2));
    assert_eq!(set.take(&2), None);
}

#[test]
fn set_len() {
    let mut v = TreeSet::new();
    assert_eq!(v.len(), 0);
    v.insert(1);
    assert_eq!(v.len(), 1);
}

#[test]
fn set_is_empty() {
    let mut v = TreeSet::new();
    assert!(v.is_empty());
    v.insert(1);
    assert!(!v.is_empty());
}

#[test]
fn set_usize_values() {
    let mut set: TreeSet<usize> = TreeSet::new();
    set.insert(10);
    set.insert(7);
    assert_eq!(set.contains(&7), true);
    assert_eq!(set.take(&10), Some(10));
    assert_eq!(set.len(), 1);
}

#[test]
fn set_iter() {
    let mut set: TreeSet<usize> = TreeSet::new();
    set.insert(3);
    set.insert(1);
    set.insert(2);
    let items = set.iter();
    assert_eq!(items[0], &1);
    assert_eq!(items[1], &2);
    assert_eq!(items[2], &3);
    assert_eq!(items.len(), 3);
}
