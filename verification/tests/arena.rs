use treedb::pager::arena::{Arena, ArenaError, ARENA_ALIGN};

#[test]
fn test_arena_creation() {
    let arena = Arena::new(4096, 4).unwrap();
    assert_eq!(arena.page_size(), 4096);
    assert_eq!(arena.num_pages(), 4);
    assert_eq!(arena.len(), 0);
}

#[test]
#[should_panic]
fn test_arena_invalid_page_size() {
    // Not a power of two
    Arena::new(4095, 4).unwrap();
}

#[test]
#[should_panic]
fn test_arena_invalid_num_pages() {
    // Not a power of two
    Arena::new(4096, 3).unwrap();
}

#[test]
fn test_arena_allocation() {
    let mut arena = Arena::new(4096, 4).unwrap();

    // First allocation should succeed
    let ptr1 = arena.alloc_slot().unwrap();
    assert_eq!(arena.len(), 1);

    // Second allocation should return a different slot
    let ptr2 = arena.alloc_slot().unwrap();
    assert_ne!(ptr1, ptr2);
    assert_eq!(arena.len(), 2);
}

#[test]
fn test_arena_allocation_exhaustion() {
    let mut arena = Arena::new(4096, 2).unwrap();

    // First two allocations should succeed
    arena.alloc_slot().unwrap();
    arena.alloc_slot().unwrap();

    // Third allocation should fail
    assert!(arena.alloc_slot().is_err());
}

#[test]
fn test_arena_as_allocator() {
    let mut arena = Arena::new(8, 4).unwrap(); // Small pages for testing

    // Valid allocation
    let allocation = arena.allocate(8, 8);
    assert!(allocation.is_ok());

    // Wrong size
    let allocation = arena.allocate(16, 8);
    assert!(allocation.is_err());

    // Wrong alignment
    let allocation = arena.allocate(8, 16);
    assert!(allocation.is_err());
}

#[test]
fn test_load() {
    let mut arena = Arena::new(64, 1024).unwrap(); // 64 bytes * 1024 pages
    let mut allocations = Vec::new();

    // Allocate half the pages
    for _ in 0..512 {
        let ptr = arena.alloc_slot().unwrap();
        allocations.push(ptr);
    }

    assert_eq!(arena.len(), 512);

    // Verify all slots are different
    for i in 0..allocations.len() {
        for j in i + 1..allocations.len() {
            assert_ne!(allocations[i], allocations[j]);
        }
    }

    // Verify offset between consecutive allocations is equal to page_size
    for i in 0..allocations.len() - 1 {
        let addr1 = allocations[i];
        let addr2 = allocations[i + 1];
        assert_eq!(addr2 - addr1, arena.page_size());
    }
}

#[test]
fn arena_config_errors_are_reported() {
    assert_eq!(Arena::new(4095, 4).unwrap_err(), ArenaError::InvalidConfig);
    assert_eq!(Arena::new(4096, 3).unwrap_err(), ArenaError::InvalidConfig);
    assert_eq!(Arena::new(0, 4).unwrap_err(), ArenaError::InvalidConfig);
    assert_eq!(Arena::new(4096, 0).unwrap_err(), ArenaError::InvalidConfig);
    assert_eq!(Arena::new(usize::MAX / 2 + 1, 2).unwrap_err(), ArenaError::InvalidConfig);
    assert!(Arena::new(1, 1).is_ok());
}

#[test]
fn arena_slots_are_page_size_apart() {
    let mut arena = Arena::new(4096, 4).unwrap();
    assert_eq!(arena.alloc_slot(), Ok(0));
    assert_eq!(arena.alloc_slot(), Ok(4096));
    assert_eq!(arena.alloc_slot(), Ok(8192));
    assert_eq!(arena.alloc_slot(), Ok(12288));
}

#[test]
fn arena_fails_after_exactly_num_pages_allocations() {
    let mut arena = Arena::new(64, 16).unwrap();
    for i in 0..16 {
        assert_eq!(arena.alloc_slot(), Ok(i * 64));
    }
    assert_eq!(arena.alloc_slot(), Err(ArenaError::Exhausted));
    assert_eq!(arena.alloc_slot(), Err(ArenaError::Exhausted));
    assert_eq!(arena.len(), 16);
}

#[test]
fn arena_facade_tells_bad_layout_from_exhaustion() {
    let mut arena = Arena::new(8, 1).unwrap();
    assert_eq!(ARENA_ALIGN, 8);
    assert_eq!(arena.allocate(16, 8), Err(ArenaError::BadLayout));
    assert_eq!(arena.allocate(8, 4), Err(ArenaError::BadLayout));
    assert_eq!(arena.len(), 0);
    assert_eq!(arena.allocate(8, 8), Ok((0, 8)));
    assert_eq!(arena.allocate(8, 8), Err(ArenaError::Exhausted));
    assert_eq!(arena.allocate(16, 8), Err(ArenaError::BadLayout));
}
