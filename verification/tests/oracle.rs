use suballoc::simple::SubAllocator as FirstFit;
use suballoc::tlsf::SubAllocator;

#[test]
fn both_allocators_serve_a_light_load() {
    let mut tlsf = SubAllocator::new(1 << 16);
    let mut oracle = FirstFit::new(1 << 16);
    let mut live: Vec<(u32, usize)> = Vec::new();
    let mut state = 11u64;
    for _ in 0..500 {
        state = state.wrapping_mul(6364136223846793005).wrapping_add(1442695040888963407);
        let r = (state >> 33) as u32;
        if r % 2 == 0 || live.is_empty() {
            let size = 1 + r % 96;
            let b = oracle.allocate(size as usize);
            let a = tlsf.allocate(size);
            assert!(b.is_ok());
            assert!(a.is_ok());
            live.push((a.unwrap(), b.unwrap()));
        } else {
            let (a, b) = live.swap_remove(r as usize % live.len());
            tlsf.deallocate(a).unwrap();
            oracle.deallocate(b);
        }
    }
}

#[test]
fn first_fit_serves_what_tags_leave_no_room_for() {
    let mut tlsf = SubAllocator::new(16);
    let mut oracle = FirstFit::new(16);
    assert!(oracle.allocate(16).is_ok());
    assert!(tlsf.allocate(16).is_err());
}
