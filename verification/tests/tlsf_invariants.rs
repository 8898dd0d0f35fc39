use suballoc::mapping::mapping_insert;
use suballoc::tlsf::SubAllocator;

const NONE: u32 = u32::MAX;

/// Walks the arena from head to tail and every list from its head, and holds
/// what it finds against the invariants. Returns the blocks as
/// `(offset, payload, used)`.
fn walk(sa: &SubAllocator) -> Vec<(u32, u32, bool)> {
    let cap = sa.capacity();
    let mut blocks = Vec::new();
    let mut at = 0u32;
    let mut prev_used = true;
    let mut payload = 0u64;
    while at < cap {
        let head = sa.head_tag(at);
        let size = head & !7;
        assert!(size >= 8);
        assert!(at as u64 + 8 + size as u64 <= cap as u64, "block overruns the arena");
        assert_eq!(head, sa.tail_tag(at), "head and tail differ at {}", at);
        let used = head & 1 != 0;
        assert_eq!(head & 2 != 0, prev_used, "stale PREV_USED at {}", at);
        assert!(used || prev_used, "two free blocks touch at {}", at);
        let next = at + 8 + size;
        let next_used = if next == cap { true } else { sa.head_tag(next) & 1 != 0 };
        assert_eq!(head & 4 != 0, next_used, "stale NEXT_USED at {}", at);
        blocks.push((at, size, used));
        payload += size as u64;
        prev_used = used;
        at = next;
    }
    assert_eq!(at, cap, "the walk does not end at the capacity");
    assert_eq!(payload + 8 * blocks.len() as u64, cap as u64);

    let mut listed = Vec::new();
    for fl in 0..32u32 {
        let row = sa.sl_bitmap(fl);
        assert_eq!(sa.fl_bitmap() >> fl & 1 == 1, row != 0);
        assert_eq!(row >> 8, 0);
        for sl in 0..8u32 {
            let mut link = sa.free_head(fl, sl);
            assert_eq!(row >> sl & 1 == 1, link != NONE);
            let mut prev = NONE;
            while link != NONE {
                let found = blocks.iter().find(|b| b.0 == link).expect("listed offset is no block");
                assert!(!found.2, "an allocated block is listed");
                assert_eq!(mapping_insert(found.1), (fl, sl));
                let (p, n) = sa.links(link);
                assert_eq!(p, prev);
                assert!(!listed.contains(&link), "a block is listed twice");
                listed.push(link);
                prev = link;
                link = n;
            }
        }
    }
    let free: Vec<u32> = blocks.iter().filter(|b| !b.2).map(|b| b.0).collect();
    assert_eq!(listed.len(), free.len(), "a free block is in no list");
    let free_sum: u32 = blocks.iter().filter(|b| !b.2).map(|b| b.1).sum();
    assert_eq!(sa.free(), free_sum);
    blocks
}

fn next_random(state: &mut u64) -> u64 {
    *state = state.wrapping_mul(6364136223846793005).wrapping_add(1442695040888963407);
    *state >> 33
}

#[test]
fn invariants_hold_on_a_fresh_arena() {
    for cap in [16u32, 24, 64, 256, 1024, 4096] {
        let sa = SubAllocator::new(cap);
        let blocks = walk(&sa);
        assert_eq!(blocks, vec![(0, cap - 8, false)]);
    }
}

#[test]
fn invariants_hold_after_each_allocation() {
    let mut sa = SubAllocator::new(2048);
    for size in [1u32, 8, 9, 100, 16, 24, 300, 7, 64, 500, 40] {
        let before = walk(&sa);
        match sa.allocate(size) {
            Ok(offset) => {
                let after = walk(&sa);
                let block = after.iter().find(|b| b.0 == offset).unwrap();
                assert!(block.2);
                assert!(block.1 >= (size + 7) / 8 * 8);
            }
            Err(_) => assert_eq!(walk(&sa), before),
        }
    }
}

#[test]
fn invariants_hold_after_each_deallocation() {
    let mut sa = SubAllocator::new(4096);
    let mut live = Vec::new();
    for size in [8u32, 16, 24, 32, 40, 48, 56, 64, 72, 80, 88, 96] {
        live.push(sa.allocate(size).unwrap());
    }
    for i in [3usize, 5, 4, 0, 11, 10, 1, 2, 7, 9, 8, 6] {
        sa.deallocate(live[i]).unwrap();
        walk(&sa);
    }
    assert_eq!(walk(&sa), vec![(0, 4088, false)]);
}

#[test]
fn invariants_hold_over_mixed_operations() {
    let mut state = 0x5eed_u64;
    for cap in [256u32, 1024, 8192] {
        let mut sa = SubAllocator::new(cap);
        let mut live: Vec<u32> = Vec::new();
        for step in 0..600 {
            let r = next_random(&mut state);
            if r % 5 < 3 || live.is_empty() {
                let size = 1 + (next_random(&mut state) % (cap as u64 / 8)) as u32;
                if let Ok(offset) = sa.allocate(size) {
                    assert!(!live.contains(&offset));
                    assert!(sa.is_allocated(offset));
                    live.push(offset);
                }
            } else {
                let i = (next_random(&mut state) % live.len() as u64) as usize;
                let offset = live.swap_remove(i);
                sa.deallocate(offset).unwrap();
                assert!(!sa.is_allocated(offset));
            }
            if step % 7 == 0 {
                let blocks = walk(&sa);
                let used: Vec<u32> = blocks.iter().filter(|b| b.2).map(|b| b.0).collect();
                let mut sorted = live.clone();
                sorted.sort();
                assert_eq!(used, sorted);
            }
        }
        for offset in live {
            sa.deallocate(offset).unwrap();
        }
        assert_eq!(walk(&sa), vec![(0, cap - 8, false)]);
    }
}

#[test]
fn chosen_block_is_from_the_lowest_bucket_above_the_request() {
    let mut sa = SubAllocator::new(4096);
    let a = sa.allocate(56).unwrap();
    let _w1 = sa.allocate(8).unwrap();
    let b = sa.allocate(64).unwrap();
    let _w2 = sa.allocate(8).unwrap();
    let c = sa.allocate(200).unwrap();
    let _w3 = sa.allocate(8).unwrap();
    sa.deallocate(a).unwrap();
    sa.deallocate(b).unwrap();
    sa.deallocate(c).unwrap();
    // Free: 56 in bucket (5, 6), 64 in (6, 0), 200 in (7, 4) and the rest.
    // A request of 56 passes over its own bucket and takes the block of 64.
    assert_eq!(mapping_insert(56), (5, 6));
    assert_eq!(mapping_insert(64), (6, 0));
    assert_eq!(sa.allocate(56), Ok(b));
    // A request of 48 lies in (5, 4): the block of 56 is the lowest above.
    assert_eq!(mapping_insert(48), (5, 4));
    assert_eq!(sa.allocate(48), Ok(a));
    walk(&sa);
}

#[test]
fn allocations_that_fit_one_after_another_all_succeed() {
    let mut sa = SubAllocator::new(1024);
    let sizes = [100u32, 50, 200, 8, 16, 120, 1, 33];
    let mut expected = 0u32;
    for size in sizes {
        let offset = sa.allocate(size).unwrap();
        assert_eq!(offset, expected);
        expected += (size + 7) / 8 * 8 + 8;
    }
    assert!(expected <= 1024);
    walk(&sa);
}

#[test]
fn payloads_of_allocated_blocks_are_left_alone() {
    let mut state = 99u64;
    let mut sa = SubAllocator::new(2048);
    let mut live: Vec<(u32, u32, Vec<u8>)> = Vec::new();
    for _ in 0..300 {
        let r = next_random(&mut state);
        if r % 2 == 0 || live.is_empty() {
            let size = 1 + (next_random(&mut state) % 120) as u32;
            if let Ok(offset) = sa.allocate(size) {
                let payload = sa.head_tag(offset) & !7;
                let from = offset as usize + 4;
                let bytes = sa.bytes()[from..from + payload as usize].to_vec();
                live.push((offset, payload, bytes));
            }
        } else {
            let i = (next_random(&mut state) % live.len() as u64) as usize;
            let (offset, _, _) = live.swap_remove(i);
            sa.deallocate(offset).unwrap();
        }
        for (offset, payload, bytes) in &live {
            let from = *offset as usize + 4;
            assert_eq!(&sa.bytes()[from..from + *payload as usize], &bytes[..]);
        }
    }
    assert_eq!(sa.bytes().len(), 2048);
}
