use flatmap::{FlatMap, FlatMapEntry, FlatSet};

#[test]
fn test_empty_collections() {
    let map = FlatMap::<&str, i32>::new();
    assert_eq!(map.iter().count(), 0);

    let set = FlatSet::<i32>::new();
    assert_eq!(set.iter().count(), 0);
}

#[test]
fn test_capacity_hint() {
    let map = FlatMap::<&str, i32>::with_capacity(10);
    let set = FlatSet::<i32>::with_capacity(10);

    assert_eq!(map.iter().count(), 0);
    assert_eq!(set.iter().count(), 0);
}

#[test]
fn test_shrink_to_fit() {
    let mut map = FlatMap::with_capacity(100);
    map.insert("key", 42);
    map.shrink_to_fit();
    assert_eq!(map.get(&"key"), Some(&42));

    let mut set = FlatSet::with_capacity(100);
    set.insert(42);
    set.shrink_to_fit();
    assert!(set.has(&42));
}

#[test]
fn test_unsafe_constructors() {
    let entries = vec![FlatMapEntry::new("a", 1), FlatMapEntry::new("b", 2)];
    let map = FlatMap::from_entries_unchecked(entries.into_iter());
    assert_eq!(map.get(&"a"), Some(&1));

    let items = vec![1, 2, 3];
    let set = FlatSet::from_iter_unchecked(items.into_iter());
    assert!(set.has(&2));
}

#[test]
fn empty_containers_hold_no_key() {
    let mut map = FlatMap::<&str, i32>::new();
    assert_eq!(map.get(&"a"), None);
    assert_eq!(map.delete(&"a"), None);
    assert_eq!(map.iter_mut().count(), 0);
    assert_eq!(map.into_iter().count(), 0);

    let mut set = FlatSet::<i32>::with_capacity(4);
    assert!(!set.has(&0));
    assert!(!set.delete(&0));
    assert_eq!(set.into_iter().count(), 0);

    let none: Vec<FlatMapEntry<u8, u8>> = Vec::new();
    assert_eq!(FlatMap::from_entries(none.into_iter()).iter().count(), 0);
    let none: Vec<u8> = Vec::new();
    assert_eq!(FlatSet::from_iter(none.into_iter()).iter().count(), 0);
}
