use suballoc::arena::{clear_or_flags, or_flags, read_word, write_tags, write_word};
use suballoc::block::{
    FreeBlockHead, BLOCK_META_SIZE, MIN_BLOCK, NEXT_USED, PACKED_NONE_DOUBLE_PTR, PACKED_NONE_PTR,
    PREV_USED, SIZE_MASK, USED,
};
use suballoc::index::{load_free_head, store_links, FreeIndex};
use suballoc::mapping::{calc_sl_index_for_fl, mapping_insert};
use suballoc::meta::{
    align_up, left_mask_from, size_between_meta, strip_meta, with_head, with_meta, with_tail,
};

#[test]
fn constants_fit_together() {
    assert_eq!(BLOCK_META_SIZE, 8);
    assert_eq!(MIN_BLOCK, 16);
    assert_eq!(USED | PREV_USED | NEXT_USED, 7);
    assert_eq!(SIZE_MASK, !7);
    assert_eq!(PACKED_NONE_PTR, u32::MAX);
    assert_eq!(PACKED_NONE_DOUBLE_PTR, u64::MAX);
}

#[test]
fn align_up_rounds_to_the_next_multiple() {
    assert_eq!(align_up(1, 8), 8);
    assert_eq!(align_up(8, 8), 8);
    assert_eq!(align_up(9, 8), 16);
    assert_eq!(align_up(0, 8), 0);
    assert_eq!(align_up(50, 8), 56);
    assert_eq!(align_up(100, 8), 104);
    assert_eq!(align_up(u32::MAX - 7, 8), u32::MAX - 7);
    assert_eq!(align_up(5, 4), 8);
    assert_eq!(align_up(5, 1), 5);
    assert_eq!(align_up(17, 16), 32);
}

#[test]
fn left_mask_sets_the_bits_from_the_index_up() {
    assert_eq!(left_mask_from(0), u32::MAX);
    assert_eq!(left_mask_from(1), 0xFFFF_FFFE);
    assert_eq!(left_mask_from(8), 0xFFFF_FF00);
    assert_eq!(left_mask_from(31), 0x8000_0000);
}

#[test]
fn meta_sizes_add_and_strip() {
    assert_eq!(strip_meta(256), 248);
    assert_eq!(strip_meta(8), 0);
    assert_eq!(with_meta(248), 256);
    assert_eq!(with_head(8), 12);
    assert_eq!(with_tail(8), 12);
    assert_eq!(size_between_meta(16, 44), 24);
    assert_eq!(size_between_meta(0, 4), 0);
}

#[test]
fn mapping_insert_gives_the_bucket_of_a_size() {
    assert_eq!(mapping_insert(8), (3, 0));
    assert_eq!(mapping_insert(15), (3, 7));
    assert_eq!(mapping_insert(16), (4, 0));
    assert_eq!(mapping_insert(24), (4, 4));
    assert_eq!(mapping_insert(48), (5, 4));
    assert_eq!(mapping_insert(56), (5, 6));
    assert_eq!(mapping_insert(232), (7, 6));
    assert_eq!(mapping_insert(248), (7, 7));
    assert_eq!(mapping_insert(1016), (9, 7));
    assert_eq!(mapping_insert(1), (0, 0));
    assert_eq!(mapping_insert(3), (1, 4));
    assert_eq!(mapping_insert(1 << 31), (31, 0));
    assert_eq!(mapping_insert(u32::MAX), (31, 7));
    assert_eq!(mapping_insert(0xE000_0000), (31, 6));
    assert_eq!(mapping_insert((1 << 29) + (1 << 26)), (29, 1));
}

#[test]
fn second_level_index_divides_the_class_in_eight() {
    assert_eq!(calc_sl_index_for_fl(128, 7), 0);
    assert_eq!(calc_sl_index_for_fl(143, 7), 0);
    assert_eq!(calc_sl_index_for_fl(144, 7), 1);
    assert_eq!(calc_sl_index_for_fl(255, 7), 7);
}

#[test]
fn mapping_never_puts_a_larger_size_in_a_lower_bucket() {
    let mut last = (0u32, 0u32);
    for size in (8..20000u32).step_by(8) {
        let bucket = mapping_insert(size);
        assert!(bucket >= last);
        last = bucket;
    }
}

#[test]
fn words_are_read_as_they_were_written() {
    let mut mem = vec![0u8; 32];
    write_word(&mut mem, 4, 0x1122_3344);
    assert_eq!(read_word(&mem, 4), 0x1122_3344);
    assert_eq!(&mem[4..8], &[0x44, 0x33, 0x22, 0x11]);
    assert_eq!(read_word(&mem, 0), 0);
    assert_eq!(read_word(&mem, 8), 0);
    write_word(&mut mem, 28, u32::MAX);
    assert_eq!(read_word(&mem, 28), u32::MAX);
    assert_eq!(read_word(&mem, 24), 0);
}

#[test]
fn tags_are_written_to_head_and_tail() {
    let mut mem = vec![0u8; 48];
    write_tags(&mut mem, 8, 16, PREV_USED | NEXT_USED);
    assert_eq!(read_word(&mem, 8), 16 | 6);
    assert_eq!(read_word(&mem, 8 + 4 + 16), 16 | 6);
    or_flags(&mut mem, 8, USED);
    assert_eq!(read_word(&mem, 8), 16 | 7);
    assert_eq!(read_word(&mem, 28), 16 | 7);
    clear_or_flags(&mut mem, 8, PREV_USED);
    assert_eq!(read_word(&mem, 8), 16 | 5);
    assert_eq!(read_word(&mem, 28), 16 | 5);
    assert_eq!(read_word(&mem, 12), 0);
    assert_eq!(read_word(&mem, 32), 0);
}

#[test]
fn free_head_keeps_two_links() {
    let mut head = FreeBlockHead::new(24 | 6, PACKED_NONE_DOUBLE_PTR);
    assert_eq!(head.link_offsets(), (PACKED_NONE_PTR, PACKED_NONE_PTR));
    head.set_prev_link(16);
    assert_eq!(head.link_offsets(), (16, PACKED_NONE_PTR));
    head.set_next_link(48);
    assert_eq!(head.link_offsets(), (16, 48));
    assert_eq!(head.links, (16u64 << 32) | 48);
    head.set_prev_link(0);
    assert_eq!(head.link_offsets(), (0, 48));
    head.set_links(PACKED_NONE_DOUBLE_PTR);
    assert_eq!(head.link_offsets(), (PACKED_NONE_PTR, PACKED_NONE_PTR));
    assert_eq!(head.size_and_flags, 24 | 6);
}

#[test]
fn links_are_stored_behind_the_head() {
    let mut mem = vec![0u8; 32];
    write_tags(&mut mem, 0, 24, PREV_USED | NEXT_USED);
    let mut head = load_free_head(&mem, 0);
    assert_eq!(head.size_and_flags, 24 | 6);
    assert_eq!(head.link_offsets(), (0, 0));
    head.set_prev_link(40);
    head.set_next_link(80);
    store_links(&mut mem, 0, &head);
    assert_eq!(read_word(&mem, 4), 40);
    assert_eq!(read_word(&mem, 8), 80);
    assert_eq!(read_word(&mem, 0), 24 | 6);
    assert_eq!(load_free_head(&mem, 0).link_offsets(), (40, 80));
}

#[test]
fn index_pushes_pops_and_removes() {
    let mut mem = vec![0u8; 256];
    let mut index = FreeIndex::new();
    assert_eq!(index.search(8), None);
    // three blocks of 24 bytes of payload, apart from each other
    for h in [0u32, 64, 128] {
        write_tags(&mut mem, h, 24, PREV_USED | NEXT_USED);
        index.push_front(&mut mem, h);
    }
    assert_eq!(index.fl_bitmap, 1 << 4);
    assert_eq!(index.sl_bitmaps[4], 1 << 4);
    assert_eq!(index.free_heads[4][4], 128);
    assert_eq!(index.search(16), Some((4, 4)));
    assert_eq!(index.search(24), None);
    index.remove(&mut mem, 64);
    assert_eq!(load_free_head(&mem, 128).link_offsets(), (PACKED_NONE_PTR, 0));
    assert_eq!(load_free_head(&mem, 0).link_offsets(), (128, PACKED_NONE_PTR));
    assert_eq!(index.pop_front(&mut mem, 4, 4), 128);
    assert_eq!(index.free_heads[4][4], 0);
    assert_eq!(load_free_head(&mem, 0).link_offsets(), (PACKED_NONE_PTR, PACKED_NONE_PTR));
    assert_eq!(index.pop_front(&mut mem, 4, 4), 0);
    assert_eq!(index.fl_bitmap, 0);
    assert_eq!(index.sl_bitmaps[4], 0);
    assert_eq!(index.free_heads[4][4], PACKED_NONE_PTR);
}

#[test]
fn index_search_goes_to_the_next_class() {
    let mut mem = vec![0u8; 1024];
    let mut index = FreeIndex::new();
    write_tags(&mut mem, 0, 24, PREV_USED | NEXT_USED);
    index.push_front(&mut mem, 0);
    write_tags(&mut mem, 64, 200, PREV_USED | NEXT_USED);
    index.push_front(&mut mem, 64);
    write_tags(&mut mem, 512, 136, PREV_USED | NEXT_USED);
    index.push_front(&mut mem, 512);
    assert_eq!(index.search(8), Some((4, 4)));
    assert_eq!(index.search(24), Some((7, 0)));
    assert_eq!(index.search(128), Some((7, 4)));
    assert_eq!(index.search(136), Some((7, 4)));
    assert_eq!(index.search(200), None);
    assert_eq!(index.search(u32::MAX), None);
    index.set_bitmap_index_empty(7, 0);
    assert_eq!(index.search(24), Some((7, 4)));
    index.set_bitmap_index_available(7, 0);
    assert_eq!(index.search(24), Some((7, 0)));
}
