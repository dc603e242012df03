use flatmap::{ConstantFlatMap, FlatMap, FlatMapEntry};

#[test]
fn test_flatmap_entry() {
    let entry = FlatMapEntry::new("key", 42);
    assert_eq!(entry.key(), &"key");
    assert_eq!(entry.value(), &42);

    let entry_from_tuple: FlatMapEntry<&str, i32> = ("key", 42).into();
    assert_eq!(entry_from_tuple.key(), &"key");
    assert_eq!(entry_from_tuple.value(), &42);

    let tuple: (&str, i32) = entry_from_tuple.into();
    assert_eq!(tuple, ("key", 42));
}

#[test]
fn test_flatmap_basic_operations() {
    let mut map = FlatMap::new();

    assert_eq!(map.get(&"key"), None);
    assert_eq!(map.insert("key", 42), None);
    assert_eq!(map.get(&"key"), Some(&42));
    assert_eq!(map.insert("key", 100), Some(42));
    assert_eq!(map.get(&"key"), Some(&100));

    assert_eq!(map.delete(&"key"), Some(100));
    assert_eq!(map.get(&"key"), None);
    assert_eq!(map.delete(&"nonexistent"), None);
}

#[test]
fn test_flatmap_from_entries() {
    let entries = vec![
        FlatMapEntry::new("a", 1),
        FlatMapEntry::new("b", 2),
        FlatMapEntry::new("a", 3), // duplicate key
    ];

    let map = FlatMap::from_entries(entries.into_iter());
    assert_eq!(map.get(&"a"), Some(&3)); // last value wins
    assert_eq!(map.get(&"b"), Some(&2));
}

#[test]
fn test_flatmap_from_tuples() {
    let tuples = vec![("x", 10), ("y", 20)];
    let map: FlatMap<&str, i32> = FlatMap::from_pairs(tuples.into_iter());

    assert_eq!(map.get(&"x"), Some(&10));
    assert_eq!(map.get(&"y"), Some(&20));
}

#[test]
fn test_flatmap_iteration() {
    let mut map = FlatMap::new();
    map.insert("a", 1);
    map.insert("b", 2);

    let mut count = 0;
    for entry in map.iter() {
        count += 1;
        assert!(entry.key() == &"a" || entry.key() == &"b");
    }
    assert_eq!(count, 2);

    assert_eq!(map.get(&"a"), Some(&1));
    assert_eq!(map.get(&"b"), Some(&2));
}

#[test]
fn test_flatmap_into_iterator() {
    let mut map = FlatMap::new();
    map.insert("x", 100);
    map.insert("y", 200);

    let mut collected: Vec<_> = map.into_iter().collect();
    collected.sort_by_key(|entry| *entry.key());

    assert_eq!(collected.len(), 2);
    assert_eq!(collected[0].key(), &"x");
    assert_eq!(collected[0].value(), &100);
}

#[test]
fn test_constant_flatmap() {
    let entries = [FlatMapEntry::new("key1", 10), FlatMapEntry::new("key2", 20)];

    let map = ConstantFlatMap::from(entries);
    assert_eq!(map.get(&"key1"), Some(&10));
    assert_eq!(map.get(&"key2"), Some(&20));
    assert_eq!(map.get(&"nonexistent"), None);
}

#[test]
fn test_constant_flatmap_from_tuples() {
    let map = ConstantFlatMap::from([("a", 1), ("b", 2)]);
    assert_eq!(map.get(&"a"), Some(&1));
    assert_eq!(map.get(&"b"), Some(&2));
}

#[test]
fn test_constant_flatmap_duplicate_detection() {
    let entries = [
        FlatMapEntry::new("key", 10),
        FlatMapEntry::new("key", 20), // duplicate
    ];

    let result = ConstantFlatMap::from_entries(entries);
    assert!(result.is_err());
    if let Err(err) = result {
        assert_eq!(err, (0, 1));
    }
}

#[test]
fn test_constant_flatmap_iteration() {
    let mut map = ConstantFlatMap::from([("x", 1), ("y", 2)]);

    let count = map.iter().count();
    assert_eq!(count, 2);

    let count_mut = map.iter_mut().count();
    assert_eq!(count_mut, 2);
}

fn pairs_in_order(map: &FlatMap<&'static str, i32>) -> Vec<(&'static str, i32)> {
    map.iter().map(|e| (*e.key(), *e.value())).collect()
}

#[test]
fn flatmap_insert_sequence_keeps_one_entry_per_key() {
    let mut map = FlatMap::new();
    assert_eq!(map.insert("a", 1), None);
    assert_eq!(map.insert("b", 2), None);
    assert_eq!(map.insert("a", 3), Some(1));
    assert_eq!(map.get(&"a"), Some(&3));
    assert_eq!(map.get(&"b"), Some(&2));
    assert_eq!(map.iter().count(), 2);
    assert_eq!(pairs_in_order(&map), vec![("a", 3), ("b", 2)]);
}

#[test]
fn flatmap_insert_new_key_is_found_and_appended() {
    let mut map = FlatMap::new();
    map.insert("a", 1);
    map.insert("b", 2);
    assert_eq!(map.insert("c", 7), None);
    assert_eq!(map.get(&"c"), Some(&7));
    assert_eq!(pairs_in_order(&map), vec![("a", 1), ("b", 2), ("c", 7)]);
}

#[test]
fn flatmap_insert_existing_key_keeps_count() {
    let mut map = FlatMap::new();
    map.insert("a", 1);
    map.insert("b", 2);
    map.insert("c", 3);
    assert_eq!(map.insert("b", 20), Some(2));
    assert_eq!(map.iter().count(), 3);
    assert_eq!(pairs_in_order(&map), vec![("a", 1), ("b", 20), ("c", 3)]);
}

#[test]
fn flatmap_delete_moves_last_entry_into_the_slot() {
    let mut map = FlatMap::new();
    map.insert("a", 1);
    map.insert("b", 2);
    map.insert("c", 3);
    map.insert("d", 4);
    assert_eq!(map.delete(&"b"), Some(2));
    assert_eq!(map.get(&"b"), None);
    assert_eq!(pairs_in_order(&map), vec![("a", 1), ("d", 4), ("c", 3)]);
}

#[test]
fn flatmap_delete_last_entry_keeps_the_rest_in_place() {
    let mut map = FlatMap::new();
    map.insert("a", 1);
    map.insert("b", 2);
    assert_eq!(map.delete(&"b"), Some(2));
    assert_eq!(pairs_in_order(&map), vec![("a", 1)]);
    assert_eq!(map.delete(&"a"), Some(1));
    assert_eq!(map.iter().count(), 0);
    assert_eq!(map.delete(&"a"), None);
}

#[test]
fn flatmap_from_entries_last_value_wins_first_slot_stays() {
    let entries = vec![
        FlatMapEntry::new("a", 1),
        FlatMapEntry::new("b", 2),
        FlatMapEntry::new("a", 3),
        FlatMapEntry::new("c", 4),
        FlatMapEntry::new("b", 5),
    ];
    let map = FlatMap::from_entries(entries.into_iter());
    assert_eq!(pairs_in_order(&map), vec![("a", 3), ("b", 5), ("c", 4)]);
}

#[test]
fn flatmap_from_pairs_resolves_duplicates_like_from_entries() {
    let map = FlatMap::from_pairs(vec![("k", 1), ("k", 2), ("j", 3)].into_iter());
    assert_eq!(pairs_in_order(&map), vec![("k", 2), ("j", 3)]);
}

#[test]
fn flatmap_unchecked_keeps_duplicates_and_first_match_governs() {
    let entries = vec![
        FlatMapEntry::new("a", 1),
        FlatMapEntry::new("a", 2),
        FlatMapEntry::new("b", 3),
    ];
    let mut map = FlatMap::from_entries_unchecked(entries.into_iter());
    assert_eq!(map.iter().count(), 3);
    assert_eq!(map.get(&"a"), Some(&1));
    assert_eq!(map.insert("a", 9), Some(1));
    assert_eq!(pairs_in_order(&map), vec![("a", 9), ("a", 2), ("b", 3)]);
    assert_eq!(map.delete(&"a"), Some(9));
    assert_eq!(pairs_in_order(&map), vec![("b", 3), ("a", 2)]);
}

#[test]
fn flatmap_iter_mut_changes_values_in_place() {
    let mut map = FlatMap::new();
    map.insert("a", 1);
    map.insert("b", 2);
    for value in map.iter_mut() {
        *value += 10;
    }
    assert_eq!(pairs_in_order(&map), vec![("a", 11), ("b", 12)]);
}

#[test]
fn flatmap_shrink_to_fit_keeps_entries_and_order() {
    let mut map = FlatMap::with_capacity(64);
    map.insert("a", 1);
    map.insert("b", 2);
    map.shrink_to_fit();
    assert_eq!(pairs_in_order(&map), vec![("a", 1), ("b", 2)]);
}

#[test]
fn entry_value_mut_changes_the_value_only() {
    let mut entry = FlatMapEntry::new("k", 1);
    *entry.value_mut() = 5;
    assert_eq!(entry.key(), &"k");
    assert_eq!(entry.value(), &5);
}

#[test]
fn entry_round_trip_gives_the_pair_back() {
    let entry = FlatMapEntry::from((7u8, "seven"));
    let pair: (u8, &str) = entry.into();
    assert_eq!(pair, (7u8, "seven"));
}

#[test]
fn constant_flatmap_reports_the_first_collision() {
    let entries = [
        FlatMapEntry::new(1, 'a'),
        FlatMapEntry::new(2, 'b'),
        FlatMapEntry::new(3, 'c'),
        FlatMapEntry::new(2, 'd'),
        FlatMapEntry::new(1, 'e'),
    ];
    match ConstantFlatMap::from_entries(entries) {
        Ok(_) => panic!("equal keys were accepted"),
        Err(pair) => assert_eq!(pair, (0, 4)),
    }
    let entries = [
        FlatMapEntry::new(1, 'a'),
        FlatMapEntry::new(2, 'b'),
        FlatMapEntry::new(2, 'c'),
        FlatMapEntry::new(2, 'd'),
    ];
    match ConstantFlatMap::from_entries(entries) {
        Ok(_) => panic!("equal keys were accepted"),
        Err(pair) => assert_eq!(pair, (1, 2)),
    }
}

#[test]
fn constant_flatmap_keeps_the_input_order() {
    let entries = [
        FlatMapEntry::new("c", 3),
        FlatMapEntry::new("a", 1),
        FlatMapEntry::new("b", 2),
    ];
    let map = match ConstantFlatMap::from_entries(entries) {
        Ok(map) => map,
        Err(_) => panic!("distinct keys were refused"),
    };
    let seen: Vec<(&str, i32)> = map.iter().map(|e| (*e.key(), *e.value())).collect();
    assert_eq!(seen, vec![("c", 3), ("a", 1), ("b", 2)]);
    assert_eq!(map.get(&"a"), Some(&1));
    assert_eq!(map.get(&"z"), None);
}

#[test]
fn constant_flatmap_of_no_entries() {
    let entries: [FlatMapEntry<u8, u8>; 0] = [];
    let map = match ConstantFlatMap::from_entries(entries) {
        Ok(map) => map,
        Err(_) => panic!("no entries were refused"),
    };
    assert_eq!(map.iter().count(), 0);
    assert_eq!(map.get(&1), None);
}

#[test]
fn constant_flatmap_unchecked_first_match_governs() {
    let map = ConstantFlatMap::from_entries_unchecked([
        FlatMapEntry::new("k", 10),
        FlatMapEntry::new("k", 20),
    ]);
    assert_eq!(map.get(&"k"), Some(&10));
    assert_eq!(map.iter().count(), 2);
}

#[test]
fn constant_flatmap_iter_mut_changes_values_in_place() {
    let mut map = ConstantFlatMap::from([("x", 1), ("y", 2)]);
    for value in map.iter_mut() {
        *value *= 3;
    }
    assert_eq!(map.get(&"x"), Some(&3));
    assert_eq!(map.get(&"y"), Some(&6));
}

#[test]
fn flatmap_iter_mut_yields_values_in_storage_order_and_keeps_keys() {
    let mut map = FlatMap::new();
    map.insert("a", 1);
    map.insert("b", 2);
    map.insert("c", 3);
    map.delete(&"a");
    let seen: Vec<i32> = map.iter_mut().map(|v| *v).collect();
    assert_eq!(seen, vec![3, 2]);
    let mut values = map.iter_mut();
    if let Some(first) = values.next() {
        *first = 30;
    }
    assert_eq!(pairs_in_order(&map), vec![("c", 30), ("b", 2)]);
}
