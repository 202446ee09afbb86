use vistle::arena::{AllocError, ArenaError, SharedAllocator, SharedArena};
use vistle::object::{ObjectId, ObjectType};

#[test]
fn allocate_first_fit_and_coalesce() {
    let mut a = SharedAllocator::new(100);
    assert_eq!(a.allocate(10), Ok(0));
    assert_eq!(a.allocate(20), Ok(10));
    assert_eq!(a.allocate(30), Ok(30));
    assert_eq!(a.used(), 60);
    assert_eq!(a.free(), 40);
    assert_eq!(a.deallocate(10, 20), Ok(()));
    assert_eq!(a.used(), 40);
    assert_eq!(a.free(), 60);
    // first fit takes the hole at 10
    assert_eq!(a.allocate(5), Ok(10));
    assert_eq!(a.deallocate(0, 10), Ok(()));
    assert_eq!(a.deallocate(10, 5), Ok(()));
    assert_eq!(a.deallocate(30, 30), Ok(()));
    assert_eq!(a.used(), 0);
    assert_eq!(a.free(), 100);
    // everything merged back into one extent
    assert_eq!(a.allocate(100), Ok(0));
}

#[test]
fn allocator_errors() {
    let mut a = SharedAllocator::new(16);
    assert_eq!(a.allocate(0), Err(AllocError::ZeroSize));
    assert_eq!(a.allocate(17), Err(AllocError::OutOfMemory));
    assert_eq!(a.deallocate(0, 4), Err(AllocError::InvalidDeallocation));
    assert_eq!(a.allocate(8), Ok(0));
    assert_eq!(a.deallocate(0, 4), Err(AllocError::InvalidDeallocation));
}

#[test]
fn arena_store_locate_remove() {
    let mut arena = SharedArena::new(64);
    let id = ObjectId::from_u128(7);
    assert_eq!(arena.store_object(id, ObjectType::Points, 16), Ok(0));
    assert_eq!(arena.store_object(id, ObjectType::Points, 16), Err(ArenaError::AlreadyExists));
    assert_eq!(arena.locate(id), Some((0, 16)));
    let st = arena.stats();
    assert_eq!(st.used_size, 16);
    assert_eq!(st.free_size, 48);
    assert_eq!(st.object_count, 1);
    assert_eq!(arena.store_object(ObjectId::from_u128(8), ObjectType::Lines, 100), Err(ArenaError::OutOfMemory));
    assert_eq!(arena.remove_object(id), Ok(true));
    assert_eq!(arena.remove_object(id), Ok(false));
    assert_eq!(arena.locate(id), None);
    assert_eq!(arena.stats().free_size, 64);
}

#[test]
fn arena_stress_keeps_accounting() {
    let capacity = 64 * 1024 * 1024;
    let mut arena = SharedArena::new(capacity);
    let mut seed: u64 = 12345;
    let mut offsets = Vec::new();
    for i in 0..10_000u128 {
        seed = seed.wrapping_mul(6364136223846793005).wrapping_add(1442695040888963407);
        let size = 1 + ((seed >> 33) % 4096) as usize;
        let off = arena.store_object(ObjectId::from_u128(i), ObjectType::Points, size).unwrap();
        offsets.push((i, off, size));
    }
    for (i, _, _) in offsets.iter().filter(|(i, _, _)| i % 2 == 0) {
        assert_eq!(arena.remove_object(ObjectId::from_u128(*i)), Ok(true));
    }
    let st = arena.stats();
    assert_eq!(st.free_size, capacity - st.used_size);
    let used: usize = offsets.iter().filter(|(i, _, _)| i % 2 == 1).map(|(_, _, s)| *s).sum();
    assert_eq!(st.used_size, used);
    assert_eq!(st.object_count, 5_000);
    let free = arena.allocator_ref().free_extents();
    for w in free.windows(2) {
        assert!(w[0].0 + w[0].1 < w[1].0);
    }
    let free_sum: usize = free.iter().map(|e| e.1).sum();
    assert_eq!(free_sum, st.free_size);
}

#[test]
fn freed_extent_is_gone() {
    let mut a = SharedAllocator::new(32);
    assert_eq!(a.allocate(8), Ok(0));
    assert_eq!(a.allocate(8), Ok(8));
    assert_eq!(a.deallocate(0, 8), Ok(()));
    assert_eq!(a.deallocate(0, 8), Err(AllocError::InvalidDeallocation));
    assert_eq!(a.free_extents(), &vec![(0, 8), (16, 16)]);
}
