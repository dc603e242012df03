use flatmap::{ConstantFlatSet, FlatSet};

#[test]
fn test_flatset_basic_operations() {
    let mut set = FlatSet::new();

    assert!(!set.has(&"item"));
    assert!(!set.insert("item"));
    assert!(set.has(&"item"));
    assert!(set.insert("item")); // already exists

    assert!(set.delete(&"item"));
    assert!(!set.has(&"item"));
    assert!(!set.delete(&"nonexistent"));
}

#[test]
fn test_flatset_from_iter() {
    let items = vec!["a", "b", "a"]; // duplicate
    let set = FlatSet::from_iter(items.into_iter());

    assert!(set.has(&"a"));
    assert!(set.has(&"b"));

    let count = set.iter().count();
    assert_eq!(count, 2); // duplicates removed
}

#[test]
fn test_flatset_from_iterator_trait() {
    let items = vec![1, 2, 3];
    let set: FlatSet<i32> = FlatSet::from_iter(items.into_iter());

    assert!(set.has(&1));
    assert!(set.has(&2));
    assert!(set.has(&3));
    assert!(!set.has(&4));
}

#[test]
fn test_flatset_iteration() {
    let mut set = FlatSet::new();
    set.insert(10);
    set.insert(20);

    let mut sum = 0;
    for item in set.iter() {
        sum += item;
    }
    assert_eq!(sum, 30);

    let collected: Vec<_> = set.into_iter().collect();
    assert_eq!(collected.len(), 2);
}

#[test]
fn test_constant_flatset() {
    let set = ConstantFlatSet::from_entries_unchecked([1, 2, 3]);

    assert!(set.has(&1));
    assert!(set.has(&2));
    assert!(set.has(&3));
    assert!(!set.has(&4));
}

#[test]
fn test_constant_flatset_duplicate_detection() {
    let result = ConstantFlatSet::from_entries([1, 2, 1]); // duplicate
    assert!(result.is_err());
    if let Err(err) = result {
        assert_eq!(err, (0, 2));
    }
}

#[test]
fn test_constant_flatset_iteration() {
    let set = ConstantFlatSet::from_entries_unchecked(["x", "y", "z"]);

    let count = set.iter().count();
    assert_eq!(count, 3);

    let mut items: Vec<_> = set.iter().collect();
    items.sort();
    assert_eq!(items, vec![&"x", &"y", &"z"]);
}

fn keys_in_order(set: &FlatSet<i32>) -> Vec<i32> {
    set.iter().map(|k| *k).collect()
}

#[test]
fn flatset_from_iter_keeps_first_occurrences_in_order() {
    let set = FlatSet::from_iter(vec![3, 1, 3, 2, 1, 3].into_iter());
    assert_eq!(keys_in_order(&set), vec![3, 1, 2]);
}

#[test]
fn flatset_insert_returns_whether_the_key_was_there() {
    let mut set = FlatSet::new();
    assert!(!set.insert(5));
    assert!(!set.insert(6));
    assert!(set.insert(5));
    assert_eq!(keys_in_order(&set), vec![5, 6]);
}

#[test]
fn flatset_delete_moves_last_key_into_the_slot() {
    let mut set = FlatSet::from_iter(vec![1, 2, 3, 4].into_iter());
    assert!(set.delete(&1));
    assert!(!set.has(&1));
    assert_eq!(keys_in_order(&set), vec![4, 2, 3]);
    assert!(set.delete(&3));
    assert_eq!(keys_in_order(&set), vec![4, 2]);
    assert!(!set.delete(&3));
    assert_eq!(keys_in_order(&set), vec![4, 2]);
}

#[test]
fn flatset_unchecked_keeps_duplicates() {
    let mut set = FlatSet::from_iter_unchecked(vec![1, 1, 2].into_iter());
    assert_eq!(keys_in_order(&set), vec![1, 1, 2]);
    assert!(set.delete(&1));
    assert_eq!(keys_in_order(&set), vec![2, 1]);
    assert!(set.has(&1));
}

#[test]
fn flatset_shrink_to_fit_keeps_keys_and_order() {
    let mut set = FlatSet::with_capacity(32);
    set.insert(2);
    set.insert(1);
    set.shrink_to_fit();
    assert_eq!(keys_in_order(&set), vec![2, 1]);
}

#[test]
fn flatset_into_iter_hands_the_keys_over_in_order() {
    let set = FlatSet::from_iter(vec!["b", "a", "b"].into_iter());
    let keys: Vec<&str> = set.into_iter().collect();
    assert_eq!(keys, vec!["b", "a"]);
}

#[test]
fn constant_flatset_reports_the_first_collision() {
    match ConstantFlatSet::from_entries([5, 6, 7, 6, 5]) {
        Ok(_) => panic!("equal keys were accepted"),
        Err(pair) => assert_eq!(pair, (0, 4)),
    }
    match ConstantFlatSet::from_entries([5, 6, 6, 6]) {
        Ok(_) => panic!("equal keys were accepted"),
        Err(pair) => assert_eq!(pair, (1, 2)),
    }
}

#[test]
fn constant_flatset_keeps_the_input_order() {
    let set = match ConstantFlatSet::from_entries(["c", "a", "b"]) {
        Ok(set) => set,
        Err(_) => panic!("distinct keys were refused"),
    };
    let seen: Vec<&str> = set.iter().map(|k| *k).collect();
    assert_eq!(seen, vec!["c", "a", "b"]);
    assert!(set.has(&"a"));
    assert!(!set.has(&"z"));
}

#[test]
fn constant_flatset_of_no_keys() {
    let keys: [u8; 0] = [];
    let set = match ConstantFlatSet::from_entries(keys) {
        Ok(set) => set,
        Err(_) => panic!("no keys were refused"),
    };
    assert_eq!(set.iter().count(), 0);
    assert!(!set.has(&0));
}
