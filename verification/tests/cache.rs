use treedb::pager::cache::Cache;

#[test]
fn test_basic_operations() {
    let mut cache = Cache::new(3);

    // Test insertion
    assert_eq!(cache.insert(1, "one"), None);
    assert_eq!(cache.insert(2, "two"), None);

    // Test get
    assert_eq!(cache.get(&1), Some(&"one"));
    assert_eq!(cache.get(&2), Some(&"two"));

    assert_eq!(cache.get(&3), None);
    assert_eq!(cache.insert(3, "three"), None);

    // Test eviction
    assert!(cache.evict().is_some());

    // Verify state after eviction
    assert_eq!(cache.get(&1), None);
    assert_eq!(cache.get(&2), Some(&"two"));
    assert_eq!(cache.get(&3), Some(&"three"));
}

#[test]
fn test_update_existing() {
    let mut cache = Cache::new(2);

    // A cache of two holds two: the third and fourth insert each hand
    // back the oldest entry.
    let mut handed_back = 0;
    for i in 0..4 {
        if cache.insert(i, format!("{}", i)).is_some() {
            handed_back += 1;
        }
    }
    assert_eq!(handed_back, 2);

    for i in 0..2 {
        assert!(cache.evict().is_some(), "{}", i);
    }

    assert!(cache.evict().is_none());

    for i in 0..4 {
        cache.insert(i, format!("{}", i));
    }
}

#[test]
fn cache_evicts_oldest_first() {
    let mut cache = Cache::new(3);
    assert_eq!(cache.insert(10, 'a'), None);
    assert_eq!(cache.insert(20, 'b'), None);
    assert_eq!(cache.insert(30, 'c'), None);
    assert_eq!(cache.len(), 3);
    assert_eq!(cache.insert(40, 'd'), Some((10, 'a')));
    assert_eq!(cache.len(), 3);
    assert_eq!(cache.insert(50, 'e'), Some((20, 'b')));
    assert_eq!(cache.evict(), Some((30, 'c')));
    assert_eq!(cache.evict(), Some((40, 'd')));
    assert_eq!(cache.evict(), Some((50, 'e')));
    assert_eq!(cache.evict(), None);
    assert_eq!(cache.len(), 0);
}

#[test]
fn cache_never_exceeds_capacity() {
    let mut cache = Cache::new(4);
    for i in 0..100u32 {
        let evicted = cache.insert(i, i * 2);
        if i < 4 {
            assert_eq!(evicted, None);
        } else {
            assert_eq!(evicted, Some((i - 4, (i - 4) * 2)));
        }
        assert!(cache.len() <= cache.capacity());
    }
    assert_eq!(cache.len(), 4);
}

#[test]
fn cache_of_nothing_hands_every_entry_back() {
    let mut cache = Cache::new(0);
    assert_eq!(cache.insert(1, "one"), Some((1, "one")));
    assert_eq!(cache.len(), 0);
    assert_eq!(cache.get(&1), None);
    assert_eq!(cache.evict(), None);
}

#[test]
fn cache_replace_keeps_the_place_in_line() {
    let mut cache = Cache::new(3);
    cache.insert(1, "one");
    cache.insert(2, "two");
    assert_eq!(cache.replace(1, "uno"), Ok("one"));
    assert_eq!(cache.replace(7, "seven"), Err("seven"));
    assert!(cache.contains_key(&1));
    assert!(!cache.contains_key(&7));
    assert_eq!(cache.get(&1), Some(&"uno"));
    assert_eq!(cache.evict(), Some((1, "uno")));
    assert_eq!(cache.evict(), Some((2, "two")));
}

#[test]
fn cache_get_mut_writes_in_place() {
    let mut cache = Cache::new(2);
    cache.insert(1, 10);
    cache.insert(2, 20);
    *cache.get_mut(&1).unwrap() += 5;
    assert_eq!(cache.get_mut(&3), None);
    assert_eq!(cache.get(&1), Some(&15));
    // The entry kept its place: it is still the oldest.
    assert_eq!(cache.evict(), Some((1, 15)));
    assert_eq!(cache.evict(), Some((2, 20)));
}

#[test]
fn cache_get_mut_of_a_missing_key_adds_nothing() {
    let mut cache = Cache::new(2);
    cache.insert(1, 10);
    assert_eq!(cache.get_mut(&7), None);
    assert_eq!(cache.len(), 1);
    assert!(!cache.contains_key(&7));
    // there is still room for one more without an eviction
    assert_eq!(cache.insert(2, 20), None);
    assert_eq!(cache.evict(), Some((1, 10)));
    assert_eq!(cache.evict(), Some((2, 20)));
    assert_eq!(cache.evict(), None);
}
