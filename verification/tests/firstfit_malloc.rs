use suballoc::firstfit::{Malloc, MallocError, MemBlock};

#[test]
fn malloc_block_keeps_what_it_is_given() {
    assert_eq!(MemBlock::new(7, 3), MemBlock { size: 7, prev_space: 3 });
}

#[test]
fn malloc_starts_with_one_free_block() {
    let m = Malloc::new(10);
    assert_eq!(m.capacity(), 10);
    assert_eq!(m.free_offsets(), &vec![0]);
    assert_eq!(m.free_block(0), MemBlock::new(10, 0));
    assert_eq!(m.free_block(1), MemBlock::new(0, 0));
    assert_eq!(m.used_block(0), MemBlock::new(0, 0));
}

#[test]
fn malloc_allocates_from_the_first_listed_block() {
    let mut m = Malloc::new(10);
    assert_eq!(m.allocate(2), Ok((0, MemBlock::new(2, 0))));
    assert_eq!(m.free_offsets(), &vec![2]);
    assert_eq!(m.free_block(2), MemBlock::new(8, 0));
    assert_eq!(m.allocate(3), Ok((2, MemBlock::new(3, 0))));
    assert_eq!(m.free_offsets(), &vec![5]);
    assert_eq!(m.used_block(2), MemBlock::new(3, 0));
    assert_eq!(m.allocate(6), Err(MallocError::OutOfMemory));
    assert_eq!(m.allocate(5), Ok((5, MemBlock::new(5, 0))));
    assert!(m.free_offsets().is_empty());
    assert_eq!(m.allocate(1), Err(MallocError::OutOfMemory));
}

#[test]
fn malloc_tells_the_next_block_the_whole_free_size() {
    let mut m = Malloc::new(12);
    let (a, _) = m.allocate(4).unwrap();
    let (b, _) = m.allocate(8).unwrap();
    assert!(m.can_free(b));
    m.free(b).unwrap();
    assert!(m.can_free(a));
    m.free(a).unwrap();
    assert_eq!(m.free_offsets(), &vec![0]);
    assert_eq!(m.free_block(0), MemBlock::new(12, 0));
    // the block after a free block of 12 that gives 4 bytes is told 12
    let (c, _) = m.allocate(12).unwrap();
    assert_eq!(c, 0);
    m.free(c).unwrap();
    let _ = m.allocate(4).unwrap();
    let _ = m.allocate(2).unwrap();
    assert_eq!(m.used_block(4).size, 2);
}

#[test]
fn malloc_frees_the_last_block_of_the_arena() {
    let mut m = Malloc::new(8);
    let (a, _) = m.allocate(8).unwrap();
    assert!(m.can_free(a));
    assert_eq!(m.free(a), Ok(()));
    assert_eq!(m.free_offsets(), &vec![0]);
    assert_eq!(m.free_block(0), MemBlock::new(8, 0));
}

#[test]
fn malloc_merges_with_the_free_block_after() {
    let mut m = Malloc::new(10);
    let (a, _) = m.allocate(3).unwrap();
    assert_eq!(m.free_offsets(), &vec![3]);
    assert!(m.can_free(a));
    m.free(a).unwrap();
    assert_eq!(m.free_offsets(), &vec![0]);
    assert_eq!(m.free_block(0), MemBlock::new(10, 0));
}

#[test]
fn malloc_cannot_free_before_an_allocated_block() {
    let mut m = Malloc::new(10);
    let (a, _) = m.allocate(3).unwrap();
    let (_b, _) = m.allocate(3).unwrap();
    assert!(!m.can_free(a));
    assert!(!m.can_free(10));
    assert!(!m.can_free(400));
}

#[test]
fn malloc_serves_a_request_of_nothing_from_the_first_block() {
    let mut m = Malloc::new(10);
    assert_eq!(m.allocate(0), Ok((0, MemBlock::new(0, 0))));
    assert_eq!(m.free_offsets(), &vec![0]);
    assert_eq!(m.free_block(0), MemBlock::new(10, 0));
    assert_eq!(m.used_block(0), MemBlock::new(0, 0));
}

#[test]
fn malloc_records_the_whole_free_size_behind_a_cut_block() {
    let mut m = Malloc::new(10);
    let (a, _) = m.allocate(4).unwrap();
    let (b, _) = m.allocate(6).unwrap();
    assert_eq!((a, b), (0, 4));
    m.free(b).unwrap();
    // the free block of six gives two bytes; nothing follows it
    let (c, _) = m.allocate(2).unwrap();
    assert_eq!(c, 4);
    assert_eq!(m.free_offsets(), &vec![6]);
    assert_eq!(m.free_block(6), MemBlock::new(4, 0));
    m.free(c).unwrap();
    assert_eq!(m.free_offsets(), &vec![4]);
    assert_eq!(m.free_block(4), MemBlock::new(6, 0));
}
