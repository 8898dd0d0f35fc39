use suballoc::tlsf::{AllocError, SubAllocator};

#[test]
fn fresh_arena_is_one_free_block() {
    let sa = SubAllocator::new(256);
    assert_eq!(sa.free(), 248);
    assert_eq!(sa.capacity(), 256);
}

#[test]
fn first_allocation_is_at_offset_zero() {
    let mut sa = SubAllocator::new(256);
    let a = sa.allocate(8).unwrap();
    assert_eq!(a, 0);
}

#[test]
fn three_allocations_are_contiguous() {
    let mut sa = SubAllocator::new(256);
    let a = sa.allocate(8).unwrap();
    let b = sa.allocate(16).unwrap();
    let c = sa.allocate(24).unwrap();
    assert_eq!(a, 0);
    assert_eq!(b, 16);
    assert_eq!(c, 40);
    assert_eq!(sa.free(), 256 - 72 - 8);
}

#[test]
fn freeing_everything_recombines_the_arena() {
    let mut sa = SubAllocator::new(256);
    let a = sa.allocate(8).unwrap();
    let b = sa.allocate(16).unwrap();
    let c = sa.allocate(24).unwrap();
    sa.deallocate(b).unwrap();
    assert_eq!(sa.free(), 16 + 176);
    sa.deallocate(a).unwrap();
    assert_eq!(sa.free(), 32 + 176);
    sa.deallocate(c).unwrap();
    assert_eq!(sa.free(), 248);
    assert_eq!(sa.fl_bitmap().count_ones(), 1);
    assert_eq!(sa.fl_bitmap(), 1 << 7);
    assert_eq!(sa.sl_bitmap(7), 1 << 7);
    assert_eq!(sa.free_head(7, 7), 0);
    assert_eq!(sa.head_tag(0), 248 | 0b110);
    assert_eq!(sa.tail_tag(0), 248 | 0b110);
}

#[test]
fn smallest_requests_until_out_of_memory() {
    let mut sa = SubAllocator::new(256);
    let mut count = 0;
    let mut offsets = Vec::new();
    loop {
        match sa.allocate(8) {
            Ok(offset) => {
                offsets.push(offset);
                count += 1;
            }
            Err(e) => {
                assert_eq!(e, AllocError::OutOfMemory);
                break;
            }
        }
    }
    // Fifteen blocks of sixteen bytes; the last eight-byte payload lies in
    // the bucket of the request itself, which the search passes over.
    assert_eq!(count, 15);
    for (i, offset) in offsets.iter().enumerate() {
        assert_eq!(*offset, 16 * i as u32);
    }
    assert_eq!(sa.free(), 8);
}

#[test]
fn freed_slot_is_served_again() {
    let mut sa = SubAllocator::new(1024);
    let offsets: Vec<u32> = [100u32, 50, 200, 8].iter().map(|s| sa.allocate(*s).unwrap()).collect();
    assert_eq!(offsets, vec![0, 112, 176, 384]);
    sa.deallocate(offsets[1]).unwrap();
    let again = sa.allocate(48).unwrap();
    assert_eq!(again, offsets[1]);
    // The eight bytes left over are too few for a block: they stay with the
    // allocation.
    assert_eq!(sa.head_tag(again) & !7, 56);
}

#[test]
fn remainder_of_a_whole_block_is_split_off() {
    let mut sa = SubAllocator::new(64);
    // 56 bytes of payload; 56 - 40 = 16 is a whole block.
    let a = sa.allocate(40).unwrap();
    assert_eq!(a, 0);
    assert_eq!(sa.head_tag(0), 40 | 0b011);
    assert_eq!(sa.head_tag(48), 8 | 0b110);
    assert_eq!(sa.free(), 8);
}

#[test]
fn remainder_below_a_block_is_absorbed() {
    let mut sa = SubAllocator::new(64);
    // 56 - 48 = 8 is less than a block.
    let a = sa.allocate(48).unwrap();
    assert_eq!(a, 0);
    assert_eq!(sa.head_tag(0), 56 | 0b111);
    assert_eq!(sa.free(), 0);
    assert_eq!(sa.fl_bitmap(), 0);
}

#[test]
fn request_in_the_bucket_of_the_only_block_is_refused() {
    let mut sa = SubAllocator::new(256);
    // 240 and 248 share bucket (7, 7).
    assert_eq!(sa.allocate(240), Err(AllocError::OutOfMemory));
    assert_eq!(sa.free(), 248);
    assert_eq!(sa.allocate(232), Ok(0));
}

#[test]
fn refused_allocation_changes_nothing() {
    let mut sa = SubAllocator::new(128);
    let a = sa.allocate(16).unwrap();
    let before = (sa.free(), sa.fl_bitmap(), sa.head_tag(a), sa.head_tag(24));
    assert_eq!(sa.allocate(4000), Err(AllocError::OutOfMemory));
    assert_eq!(sa.allocate(u32::MAX), Err(AllocError::OutOfMemory));
    assert_eq!(sa.allocate(u32::MAX - 7), Err(AllocError::OutOfMemory));
    let after = (sa.free(), sa.fl_bitmap(), sa.head_tag(a), sa.head_tag(24));
    assert_eq!(before, after);
}

#[test]
fn smallest_arena_holds_one_block() {
    let mut sa = SubAllocator::new(16);
    assert_eq!(sa.free(), 8);
    assert_eq!(sa.head_tag(0), 8 | 0b110);
    assert_eq!(sa.allocate(1), Err(AllocError::OutOfMemory));
}

#[test]
fn list_serves_the_block_freed_last() {
    let mut sa = SubAllocator::new(1024);
    let a = sa.allocate(24).unwrap();
    let _w1 = sa.allocate(8).unwrap();
    let b = sa.allocate(24).unwrap();
    let _w2 = sa.allocate(8).unwrap();
    let c = sa.allocate(24).unwrap();
    let _w3 = sa.allocate(8).unwrap();
    sa.deallocate(a).unwrap();
    sa.deallocate(b).unwrap();
    sa.deallocate(c).unwrap();
    // All three lie in bucket (4, 4); the head is the one freed last.
    assert_eq!(sa.free_head(4, 4), c);
    assert_eq!(sa.links(c), (u32::MAX, b));
    assert_eq!(sa.links(b), (c, a));
    assert_eq!(sa.links(a), (b, u32::MAX));
    assert_eq!(sa.allocate(16), Ok(c));
    assert_eq!(sa.allocate(16), Ok(b));
    assert_eq!(sa.allocate(16), Ok(a));
}

#[test]
fn block_in_the_middle_of_a_list_is_unlinked() {
    let mut sa = SubAllocator::new(1024);
    let a = sa.allocate(24).unwrap();
    let _w1 = sa.allocate(8).unwrap();
    let b = sa.allocate(24).unwrap();
    let w2 = sa.allocate(8).unwrap();
    let c = sa.allocate(24).unwrap();
    let _w3 = sa.allocate(8).unwrap();
    sa.deallocate(a).unwrap();
    sa.deallocate(b).unwrap();
    sa.deallocate(c).unwrap();
    // Freeing the block between `b` and `c` merges all three: `b` leaves the
    // middle of the list and `c` its head.
    sa.deallocate(w2).unwrap();
    assert_eq!(sa.free_head(4, 4), a);
    assert_eq!(sa.links(a), (u32::MAX, u32::MAX));
    assert_eq!(sa.head_tag(b) & !7, 24 + 8 + 8 + 8 + 24);
    assert_eq!(sa.head_tag(b) & 7, 0b110);
}

#[test]
fn is_allocated_tells_live_offsets() {
    let mut sa = SubAllocator::new(256);
    let a = sa.allocate(8).unwrap();
    let b = sa.allocate(16).unwrap();
    assert!(sa.is_allocated(a));
    assert!(sa.is_allocated(b));
    assert!(!sa.is_allocated(8));
    assert!(!sa.is_allocated(40));
    assert!(!sa.is_allocated(256));
    assert!(!sa.is_allocated(4000));
    sa.deallocate(a).unwrap();
    assert!(!sa.is_allocated(a));
    assert!(sa.is_allocated(b));
}

#[test]
fn deallocate_clears_the_flags_of_allocated_neighbours() {
    let mut sa = SubAllocator::new(256);
    let a = sa.allocate(8).unwrap();
    let b = sa.allocate(8).unwrap();
    let c = sa.allocate(8).unwrap();
    assert_eq!(sa.head_tag(a), 8 | 0b111);
    assert_eq!(sa.head_tag(b), 8 | 0b111);
    sa.deallocate(b).unwrap();
    assert_eq!(sa.head_tag(a), 8 | 0b011);
    assert_eq!(sa.tail_tag(a), 8 | 0b011);
    assert_eq!(sa.head_tag(b), 8 | 0b110);
    // `c` stands before the free rest of the arena
    assert_eq!(sa.head_tag(c), 8 | 0b001);
    assert_eq!(sa.tail_tag(c), 8 | 0b001);
}
