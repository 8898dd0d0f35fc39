use suballoc::simple::{MemBlock, SubAllocator, SubAllocatorError};

fn check(sa: &SubAllocator) {
    let cap = sa.capacity();
    let mut free = 0;
    for (i, idx) in sa.free_blocks_indices.iter().enumerate() {
        let block = sa.free_blocks[*idx].expect("listed offset holds no free block");
        assert!(block.size > 0);
        assert!(idx + block.size <= cap);
        assert!(!sa.free_blocks_indices[..i].contains(idx));
        free += block.size;
        // the block after a free block is allocated and knows the space
        if idx + block.size < cap {
            assert!(sa.free_blocks[idx + block.size].is_none());
            assert_eq!(sa.used_blocks[idx + block.size].prev_space, block.size);
        }
    }
    let listed = sa.free_blocks.iter().filter(|b| b.is_some()).count();
    assert_eq!(listed, sa.free_blocks_indices.len());
    assert_eq!(sa.free(), free);
    assert_eq!(sa.used(), cap - free);
    assert_eq!(sa.fragment_count(), sa.free_blocks_indices.len());
}

#[test]
fn mem_block_starts_without_space_before_it() {
    let b = MemBlock::new(12);
    assert_eq!(b, MemBlock { size: 12, prev_space: 0 });
    assert_eq!(MemBlock::default(), MemBlock { size: 0, prev_space: 0 });
}

#[test]
fn first_fit_fresh_arena() {
    let sa = SubAllocator::new(10);
    assert_eq!(sa.capacity(), 10);
    assert_eq!(sa.free(), 10);
    assert_eq!(sa.used(), 0);
    assert_eq!(sa.fragment_count(), 1);
    check(&sa);
}

#[test]
fn first_fit_allocates_from_the_front() {
    let mut sa = SubAllocator::new(10);
    assert_eq!(sa.allocate(2), Ok(0));
    assert_eq!(sa.allocate(3), Ok(2));
    assert_eq!(sa.allocate(5), Ok(5));
    assert_eq!(sa.free(), 0);
    assert_eq!(sa.fragment_count(), 0);
    assert_eq!(sa.allocate(1), Err(SubAllocatorError::OutOfMemory));
    check(&sa);
}

#[test]
fn first_fit_refuses_what_no_block_holds() {
    let mut sa = SubAllocator::new(10);
    assert_eq!(sa.allocate(11), Err(SubAllocatorError::OutOfMemory));
    assert_eq!(sa.allocate(10), Ok(0));
    assert_eq!(sa.allocate(1), Err(SubAllocatorError::OutOfMemory));
}

#[test]
fn first_fit_merges_with_the_free_block_before() {
    let mut sa = SubAllocator::new(4);
    let a = sa.allocate(2).unwrap();
    let b = sa.allocate(2).unwrap();
    sa.deallocate(a);
    check(&sa);
    assert_eq!(sa.used_blocks[b].prev_space, 2);
    sa.deallocate(b);
    check(&sa);
    assert_eq!(sa.free(), 4);
    assert_eq!(sa.fragment_count(), 1);
    assert_eq!(sa.free_blocks[0], Some(MemBlock { size: 4, prev_space: 0 }));
    assert_eq!(sa.allocate(4), Ok(0));
}

#[test]
fn first_fit_merges_with_the_free_block_after() {
    let mut sa = SubAllocator::new(10);
    let a = sa.allocate(2).unwrap();
    let b = sa.allocate(2).unwrap();
    sa.deallocate(b);
    check(&sa);
    assert_eq!(sa.fragment_count(), 1);
    assert_eq!(sa.free_blocks[2], Some(MemBlock { size: 8, prev_space: 0 }));
    sa.deallocate(a);
    check(&sa);
    assert_eq!(sa.free_blocks[0], Some(MemBlock { size: 10, prev_space: 0 }));
    assert_eq!(sa.free_blocks_indices, vec![0]);
}

#[test]
fn first_fit_merges_on_both_sides() {
    let mut sa = SubAllocator::new(12);
    let a = sa.allocate(4).unwrap();
    let b = sa.allocate(4).unwrap();
    let c = sa.allocate(4).unwrap();
    sa.deallocate(a);
    sa.deallocate(c);
    check(&sa);
    assert_eq!(sa.fragment_count(), 2);
    sa.deallocate(b);
    check(&sa);
    assert_eq!(sa.fragment_count(), 1);
    assert_eq!(sa.free(), 12);
}

#[test]
fn first_fit_takes_the_first_block_in_the_order() {
    let mut sa = SubAllocator::new(20);
    let a = sa.allocate(4).unwrap();
    let _b = sa.allocate(4).unwrap();
    let c = sa.allocate(6).unwrap();
    let _d = sa.allocate(6).unwrap();
    sa.deallocate(c);
    sa.deallocate(a);
    assert_eq!(sa.free_blocks_indices, vec![8, 0]);
    // the block of six stands first and is taken, though four would do
    assert_eq!(sa.allocate(3), Ok(8));
    assert_eq!(sa.free_blocks_indices, vec![11, 0]);
    assert_eq!(sa.allocate(4), Ok(0));
    assert_eq!(sa.free_blocks_indices, vec![11]);
    check(&sa);
}

#[test]
fn first_fit_keeps_its_tables_over_mixed_operations() {
    let mut state = 7u64;
    let mut sa = SubAllocator::new(500);
    let mut live: Vec<usize> = Vec::new();
    for _ in 0..400 {
        state = state.wrapping_mul(6364136223846793005).wrapping_add(1442695040888963407);
        let r = (state >> 33) as usize;
        if r % 3 != 0 || live.is_empty() {
            if let Ok(offset) = sa.allocate(1 + r % 40) {
                live.push(offset);
            }
        } else {
            let offset = live.swap_remove(r % live.len());
            sa.deallocate(offset);
        }
        check(&sa);
    }
    for offset in live {
        sa.deallocate(offset);
    }
    check(&sa);
    assert_eq!(sa.free(), 500);
    assert_eq!(sa.fragment_count(), 1);
}

#[test]
fn first_fit_tells_live_offsets() {
    let mut sa = SubAllocator::new(20);
    let a = sa.allocate(4).unwrap();
    let b = sa.allocate(6).unwrap();
    assert!(sa.is_allocated(a));
    assert!(sa.is_allocated(b));
    assert!(!sa.is_allocated(2));
    assert!(!sa.is_allocated(10));
    assert!(!sa.is_allocated(20));
    assert!(!sa.is_allocated(500));
    sa.deallocate(a);
    assert!(!sa.is_allocated(a));
    assert!(sa.is_allocated(b));
}
