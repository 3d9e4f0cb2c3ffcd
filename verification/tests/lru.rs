use treedb::lru::Lru;

#[test]
fn lru_insert_returns_nothing_until_full() {
    let mut lru = Lru::new(3);
    assert_eq!(lru.insert(10, 0), None);
    assert_eq!(lru.insert(20, 1), None);
    assert_eq!(lru.insert(30, 2), None);
    assert_eq!(lru.len(), 3);
}

#[test]
fn lru_full_insert_returns_the_least_recently_used_index() {
    let mut lru = Lru::new(2);
    assert_eq!(lru.insert(10, 100), None);
    assert_eq!(lru.insert(20, 200), None);
    assert_eq!(lru.insert(30, 300), Some(100));
    assert_eq!(lru.insert(40, 400), Some(200));
    assert_eq!(lru.len(), 2);
    assert_eq!(lru.pop_lru(), Some((30, 300)));
    assert_eq!(lru.pop_lru(), Some((40, 400)));
    assert_eq!(lru.pop_lru(), None);
}

#[test]
fn lru_bump_makes_a_key_the_most_recent() {
    let mut lru = Lru::new(3);
    lru.insert(1, 11);
    lru.insert(2, 22);
    lru.insert(3, 33);
    lru.bump(&1);
    // 2 is now the least recently used
    assert_eq!(lru.insert(4, 44), Some(22));
    assert_eq!(lru.pop_lru(), Some((3, 33)));
    assert_eq!(lru.pop_lru(), Some((1, 11)));
    assert_eq!(lru.pop_lru(), Some((4, 44)));
    assert_eq!(lru.pop_lru(), None);
}

#[test]
fn lru_bump_of_a_missing_key_changes_nothing() {
    let mut lru = Lru::new(2);
    lru.insert(1, 11);
    lru.insert(2, 22);
    lru.bump(&9);
    assert_eq!(lru.len(), 2);
    assert_eq!(lru.pop_lru(), Some((1, 11)));
    assert_eq!(lru.pop_lru(), Some((2, 22)));
}

#[test]
fn lru_full_insert_of_a_held_key_still_gives_up_the_oldest() {
    let mut lru = Lru::new(2);
    lru.insert(1, 11);
    lru.insert(2, 22);
    // Full: the least recently used entry leaves first, then key 2 is updated.
    assert_eq!(lru.insert(2, 99), Some(11));
    assert_eq!(lru.len(), 1);
    assert_eq!(lru.pop_lru(), Some((2, 99)));
}

#[test]
fn lru_insert_of_a_held_key_updates_and_uses_it() {
    let mut lru = Lru::new(3);
    lru.insert(1, 11);
    lru.insert(2, 22);
    assert_eq!(lru.insert(1, 12), None);
    assert_eq!(lru.len(), 2);
    assert_eq!(lru.pop_lru(), Some((2, 22)));
    assert_eq!(lru.pop_lru(), Some((1, 12)));
}

#[test]
fn lru_of_nothing_holds_nothing() {
    let mut lru = Lru::new(0);
    assert_eq!(lru.insert(1, 11), None);
    assert_eq!(lru.len(), 0);
    assert_eq!(lru.pop_lru(), None);
}
