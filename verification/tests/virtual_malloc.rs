use suballoc::virtual_malloc::{
    MallocError, SimpleAllocation, SimpleAllocationRequest, VMallocFirstFit, VirtualMalloc,
};

fn request(size: usize) -> SimpleAllocationRequest {
    SimpleAllocationRequest { size }
}

#[test]
fn pool_starts_with_all_of_the_arena_free() {
    let pool = VMallocFirstFit::new(100, 1000);
    assert_eq!(pool.arena_size, 100);
    assert_eq!(pool.arena_offset, 1000);
    assert_eq!(pool.total_size(), 100);
    assert_eq!(pool.available_size(), 100);
    assert_eq!(pool.available_count(), 1);
    assert_eq!(pool.used_size(), 0);
    assert_eq!(pool.used_count(), 0);
}

#[test]
fn pool_hands_out_offsets_from_the_arena_offset_on() {
    let mut pool = VMallocFirstFit::new(100, 1000);
    let a = pool.allocate(request(10)).unwrap();
    assert_eq!(a, SimpleAllocation { offset: 1000 });
    let b = pool.allocate(request(30)).unwrap();
    assert_eq!(b.offset, 1010);
    assert_eq!(pool.available_size(), 60);
    assert_eq!(pool.used_size(), 40);
    assert_eq!(pool.used_count(), 2);
    assert_eq!(pool.available_count(), 1);
}

#[test]
fn pool_refuses_what_no_free_block_holds() {
    let mut pool = VMallocFirstFit::new(16, 0);
    assert_eq!(pool.allocate(request(17)), Err(MallocError::OutOfMemory));
    assert_eq!(pool.available_size(), 16);
    assert!(pool.allocate(request(16)).is_ok());
    assert_eq!(pool.allocate(request(1)), Err(MallocError::OutOfMemory));
    assert_eq!(pool.available_count(), 0);
}

#[test]
fn pool_refuses_to_free_what_is_not_allocated() {
    let mut pool = VMallocFirstFit::new(16, 8);
    let a = pool.allocate(request(4)).unwrap();
    assert_eq!(pool.free(SimpleAllocation { offset: 9 }), Err(MallocError::InvalidAllocation));
    assert_eq!(pool.free(SimpleAllocation { offset: 0 }), Err(MallocError::InvalidAllocation));
    assert_eq!(pool.free(a), Ok(()));
    assert_eq!(pool.free(a), Err(MallocError::InvalidAllocation));
    assert_eq!(pool.available_size(), 16);
}

#[test]
fn pool_merges_free_neighbours() {
    let mut pool = VMallocFirstFit::new(30, 50);
    let a = pool.allocate(request(10)).unwrap();
    let b = pool.allocate(request(10)).unwrap();
    let c = pool.allocate(request(10)).unwrap();
    assert_eq!((a.offset, b.offset, c.offset), (50, 60, 70));
    pool.free(a).unwrap();
    pool.free(c).unwrap();
    assert_eq!(pool.available_count(), 2);
    assert_eq!(pool.available_size(), 20);
    pool.free(b).unwrap();
    assert_eq!(pool.available_count(), 1);
    assert_eq!(pool.available_size(), 30);
    assert_eq!(pool.used_count(), 0);
    assert_eq!(pool.allocate(request(30)).unwrap().offset, 50);
}

#[test]
fn pool_merges_with_the_block_before_only() {
    let mut pool = VMallocFirstFit::new(30, 0);
    let a = pool.allocate(request(10)).unwrap();
    let b = pool.allocate(request(10)).unwrap();
    let _c = pool.allocate(request(10)).unwrap();
    pool.free(a).unwrap();
    pool.free(b).unwrap();
    assert_eq!(pool.available_count(), 1);
    assert_eq!(pool.available_size(), 20);
    assert_eq!(pool.allocate(request(20)).unwrap().offset, 0);
}

#[test]
fn pool_forgets_everything_when_cleared() {
    let mut pool = VMallocFirstFit::new(30, 0);
    let a = pool.allocate(request(10)).unwrap();
    pool.clear();
    assert_eq!(pool.total_size(), 30);
    assert_eq!(pool.available_size(), 0);
    assert_eq!(pool.available_count(), 0);
    assert_eq!(pool.used_count(), 0);
    assert_eq!(pool.allocate(request(1)), Err(MallocError::OutOfMemory));
    assert_eq!(pool.free(a), Err(MallocError::InvalidAllocation));
}

#[test]
fn pool_serves_mixed_operations() {
    let mut pool = VMallocFirstFit::new(1000, 4096);
    let mut live: Vec<(SimpleAllocation, usize)> = Vec::new();
    let mut state = 3u64;
    for _ in 0..500 {
        state = state.wrapping_mul(6364136223846793005).wrapping_add(1442695040888963407);
        let r = (state >> 33) as usize;
        if r % 3 != 0 || live.is_empty() {
            let size = 1 + r % 50;
            if let Ok(a) = pool.allocate(request(size)) {
                assert!(a.offset >= 4096 && a.offset + size <= 5096);
                for (other, other_size) in &live {
                    assert!(a.offset + size <= other.offset || other.offset + other_size <= a.offset);
                }
                live.push((a, size));
            }
        } else {
            let (a, _) = live.swap_remove(r % live.len());
            pool.free(a).unwrap();
        }
        let used: usize = live.iter().map(|l| l.1).sum();
        assert_eq!(pool.used_size(), used);
        assert_eq!(pool.available_size(), 1000 - used);
        assert_eq!(pool.used_count(), live.len());
    }
    for (a, _) in live {
        pool.free(a).unwrap();
    }
    assert_eq!(pool.available_count(), 1);
    assert_eq!(pool.available_size(), 1000);
}
