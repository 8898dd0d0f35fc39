//! The two-level segregated-fit allocator: construction, allocation with
//! splitting, and deallocation with merging of free neighbours.

use vstd::prelude::*;

use crate::arena::{
    apart_from, bytes_kept, clear_or_flags, or_flags, read_word, word_at, write_tags,
};
use crate::block::{
    lemma_make_tag, lemma_pack_links, tag_next_used, tag_prev_used, tag_size, tag_used,
    BLOCK_ALIGNMENT, BLOCK_HEAD_SIZE, BLOCK_META_SIZE, BLOCK_TAIL_SIZE, MIN_BLOCK, NEXT_USED,
    PACKED_NONE_PTR, PREV_USED, SIZE_MASK, USED,
};
use crate::index::{first_above, link_range, load_free_head, spaced, FreeIndex};
use crate::layout::{
    apart, block_ok, entries_free, free_listed, lemma_absorb, lemma_before_is_pred,
    lemma_link_writes_keep_tags, lemma_links_keep_tags, lemma_merge_tiling, lemma_merged_state,
    lemma_meta_keeps_payloads, lemma_payloads_kept_on, lemma_pop_detaches, lemma_push_lists,
    lemma_remove_lists, lemma_run_keeps_index, lemma_split, lemma_tag_fields,
    lemma_tag_write_frame, listed_at, merged_away, merged_blocks, merged_end, merged_pred,
    merged_start, merges_next, merges_prev, next_used, prev_used, same_tags, split_blocks,
    split_pred, tag_of, tags_ok, tiling,
};
use crate::mapping::{bucket_of, fl_index, lemma_bucket_monotone, lemma_fl_index};
use crate::measure::{lemma_weight_bounded, packed, weight};
use crate::meta::{align_up, bit_set, size_between_meta, strip_meta, with_head, with_meta};
use crate::model::{
    empty_buckets, fl_of, list_bytes, payloads_kept, pushed, removed, row_bytes, rows_bytes, sl_of,
    Block, State,
};

verus! {

/// An offset into the arena, a size, or a tag word.
pub type Word = u32;

/// What a call of the allocator returns.
pub type AllocResult<T> = Result<T, AllocError>;

/// Why an allocation was refused.
#[derive(Debug, Clone, Copy, PartialEq, Eq, Structural)]
pub enum AllocError {
    OutOfMemory,
    InvalidAllocation,
}

/// A sub-allocator over one arena of `capacity` bytes.
pub struct SubAllocator {
    capacity: u32,
    mem: Vec<u8>,
    index: FreeIndex,
    blocks: Ghost<Map<int, Block>>,
    pred: Ghost<Map<int, int>>,
}

impl SubAllocator {
    /// The arena is tiled by blocks whose tags and lists agree with the model.
    pub closed spec fn wf(&self) -> bool {
        &&& self.mem@.len() == self.capacity
        &&& tiling(self.capacity as int, self.blocks@, self.pred@)
        &&& tags_ok(self.mem@, self.capacity as int, self.blocks@, self.pred@)
        &&& self.index.wf(self.mem@)
        &&& entries_free(self.index, self.blocks@)
        &&& free_listed(self.index, self.blocks@, Set::empty())
    }

    /// The allocator's state.
    pub closed spec fn view(&self) -> State {
        State {
            capacity: self.capacity as int,
            blocks: self.blocks@,
            buckets: self.index.lists@,
        }
    }

    /// An allocator over a new arena of `capacity` bytes, all of it one free
    /// block.
    pub fn new(capacity: Word) -> (r: Self)
        requires
            capacity >= MIN_BLOCK,
            capacity % 8 == 0,
        ensures
            r.wf(),
            r@ == State::fresh(capacity as int),
            r@.valid(),
    {
        let mut mem = Self::init_mem(capacity);
        let ghost user_size = (capacity - 8) as u32;
        let mut index = FreeIndex::new();
        let ghost blocks = Map::<int, Block>::empty().insert(
            0,
            Block { size: user_size as int, used: false },
        );
        let ghost pred = Map::<int, int>::empty();
        proof {
            lemma_make_tag(user_size, false, true, true);
            assert(PREV_USED | NEXT_USED == crate::block::flag_bits(false, true, true))
                by (bit_vector);
            assert(index.unlisted(0)) by {
                assert forall|fl: int, sl: int, k: int| #[trigger]
                    index.is_entry(fl, sl, k) implies spaced(index.lists@[fl][sl][k], 0) by {
                    assert(index.bucket(fl, sl).len() == 0);
                }
            }
            assert(index.lists@ =~= empty_buckets()) by {
                assert forall|fl: int| 0 <= fl < 32 implies #[trigger] index.lists@[fl]
                    =~= empty_buckets()[fl] by {
                    assert forall|sl: int| 0 <= sl < 8 implies #[trigger] index.lists@[fl][sl]
                        =~= empty_buckets()[fl][sl] by {
                        assert(index.bucket(fl, sl).len() == 0);
                    }
                }
            }
        }
        let ghost mem0 = mem@;
        index.push_front(&mut mem, 0);
        let r = SubAllocator { capacity, mem, index, blocks: Ghost(blocks), pred: Ghost(pred) };
        proof {
            lemma_fl_index(user_size);
            crate::mapping::lemma_sl_index(user_size, fl_index(user_size));
            assert(word_at(r.mem@, 0) == word_at(mem0, 0));
            assert(word_at(r.mem@, 4 + user_size) == word_at(mem0, 4 + user_size));
            assert(r.index.lists@[fl_of(user_size as int)][sl_of(user_size as int)][0] == 0);
            assert(listed_at(r.index, 0, fl_of(user_size as int), sl_of(user_size as int)));
            r.lemma_valid();
        }
        r
    }

    /// A new arena of `capacity` bytes with the tags of one free block over
    /// all of it.
    fn init_mem(capacity: u32) -> (mem: Vec<u8>)
        requires
            capacity >= MIN_BLOCK,
        ensures
            mem@.len() == capacity,
            word_at(mem@, 0) == (capacity - 8) as u32 | (PREV_USED | NEXT_USED),
            word_at(mem@, capacity - 4) == (capacity - 8) as u32 | (PREV_USED | NEXT_USED),
    {
        let mut mem: Vec<u8> = vec![0u8; capacity as usize];
        let user_size = strip_meta(capacity);
        let size_flags: u32 = PREV_USED | NEXT_USED;
        write_tags(&mut mem, 0, user_size, size_flags);
        mem
    }

    /// The offsets of the head and of the tail of the block after the block
    /// at `h` with payload `size`.
    fn next_block_meta(&self, h: u32, size: u32) -> (r: (u32, u32))
        requires
            self.mem@.len() == self.capacity,
            h + 8 + size < self.capacity,
            (h + 8 + size) + 8 + tag_size(word_at(self.mem@, h + 8 + size)) <= self.capacity,
        ensures
            r.0 == h + 8 + size,
            r.1 == r.0 + 4 + tag_size(word_at(self.mem@, r.0 as int)),
    {
        let next_head: u32 = h + with_meta(size);
        let next_size: u32 = read_word(&self.mem, next_head) & SIZE_MASK;
        let next_tail: u32 = next_head + with_head(next_size);
        (next_head, next_tail)
    }

    /// The offsets of the head and of the tail of the block before the block
    /// at `h`.
    fn prev_block_meta(&self, h: u32) -> (r: (u32, u32))
        requires
            self.mem@.len() == self.capacity,
            4 <= h,
            h + 8 <= self.capacity,
            tag_size(word_at(self.mem@, h - 4)) + 8 <= h,
        ensures
            r.1 == h - 4,
            r.0 == h - 8 - tag_size(word_at(self.mem@, h - 4)),
    {
        let prev_tail: u32 = h - BLOCK_TAIL_SIZE;
        let prev_size: u32 = read_word(&self.mem, prev_tail) & SIZE_MASK;
        let prev_head: u32 = prev_tail - with_head(prev_size);
        (prev_head, prev_tail)
    }

    /// The arena's capacity in bytes.
    pub fn capacity(&self) -> (r: Word)
        ensures
            r == self@.capacity,
    {
        self.capacity
    }

    /// As `wf`, but the free block at `h` stands in no list.
    spec fn detached(&self, h: int) -> bool {
        &&& self.mem@.len() == self.capacity
        &&& tiling(self.capacity as int, self.blocks@, self.pred@)
        &&& tags_ok(self.mem@, self.capacity as int, self.blocks@, self.pred@)
        &&& self.index.wf(self.mem@)
        &&& entries_free(self.index, self.blocks@)
        &&& free_listed(self.index, self.blocks@, set![h])
        &&& self.blocks@.contains_key(h)
        &&& !self.blocks@[h].used
        &&& self.index.unlisted(h)
    }

    /// Whether the block at `h` is the first of the arena.
    fn is_block_first(&self, h: u32) -> (r: bool)
        ensures
            r == (h == 0),
    {
        h == 0
    }

    /// Whether the block at `h` with payload `size` is the last of the arena.
    fn is_block_last(&self, h: u32, size: u32) -> (r: bool)
        requires
            h + 8 + size <= self.capacity,
        ensures
            r == (h + 8 + size == self.capacity),
    {
        with_meta(h + size) == self.capacity
    }

    /// The bucket to take a block of at least `size` bytes from.
    fn mapping_search(&self, size: Word) -> (r: AllocResult<(Word, Word)>)
        requires
            self.index.shape_ok(),
            self.index.bitmaps_ok(),
            size > 0,
        ensures
            match r {
                Ok((fl, sl)) => first_above(self.index.lists@, bucket_of(size), fl, sl),
                Err(e) => e == AllocError::OutOfMemory && forall|f: u32, s: u32|
                    !#[trigger] crate::index::bucket_above(self.index.lists@, bucket_of(size), f, s),
            },
    {
        match self.index.search(size) {
            Some(bucket) => Ok(bucket),
            None => Err(AllocError::OutOfMemory),
        }
    }

    /// Tells the block after the one at `h` that the block before it is
    /// allocated.
    fn set_next_prev_used(&mut self, h: u32, size: u32)
        requires
            old(self).mem@.len() == old(self).capacity,
            h + 8 + size <= old(self).capacity,
            h + 8 + size < old(self).capacity ==> (h + 8 + size) + 8 + tag_size(
                word_at(old(self).mem@, h + 8 + size),
            ) <= old(self).capacity,
        ensures
            final(self).capacity == old(self).capacity,
            final(self).index == old(self).index,
            final(self).blocks == old(self).blocks,
            final(self).pred == old(self).pred,
            final(self).mem@.len() == old(self).mem@.len(),
            ({
                let n = h + 8 + size;
                let w = word_at(old(self).mem@, n);
                if n == old(self).capacity {
                    final(self).mem@ == old(self).mem@
                } else {
                    &&& word_at(final(self).mem@, n) == w | PREV_USED
                    &&& word_at(final(self).mem@, n + 4 + tag_size(w)) == w | PREV_USED
                    &&& bytes_kept(
                        old(self).mem@,
                        final(self).mem@,
                        n,
                        n + 4,
                        n + 4 + tag_size(w),
                        n + 8 + tag_size(w),
                    )
                    &&& forall|o: int|
                        0 <= o && o + 4 <= old(self).capacity && apart_from(o, n) && apart_from(
                            o,
                            n + 4 + tag_size(w),
                        ) ==> #[trigger] word_at(final(self).mem@, o) == word_at(old(self).mem@, o)
                }
            }),
    {
        if self.is_block_last(h, size) {
            return ;
        }
        let (next_head, _) = self.next_block_meta(h, size);
        or_flags(&mut self.mem, next_head, PREV_USED);
    }

    /// Tells the block before the one at `h` that the block after it is
    /// allocated.
    fn set_prev_next_used(&mut self, h: u32)
        requires
            old(self).mem@.len() == old(self).capacity,
            h + 8 <= old(self).capacity,
            h > 0 ==> {
                let size = tag_size(word_at(old(self).mem@, h - 4));
                let p = h - 8 - size;
                &&& h >= 4
                &&& p >= 0
                &&& tag_size(word_at(old(self).mem@, p)) == size
            },
        ensures
            final(self).capacity == old(self).capacity,
            final(self).index == old(self).index,
            final(self).blocks == old(self).blocks,
            final(self).pred == old(self).pred,
            final(self).mem@.len() == old(self).mem@.len(),
            ({
                let p = h - 8 - tag_size(word_at(old(self).mem@, h - 4));
                let w = word_at(old(self).mem@, p);
                if h == 0 {
                    final(self).mem@ == old(self).mem@
                } else {
                    &&& word_at(final(self).mem@, p) == w | NEXT_USED
                    &&& word_at(final(self).mem@, h - 4) == w | NEXT_USED
                    &&& bytes_kept(old(self).mem@, final(self).mem@, p, p + 4, h - 4, h as int)
                    &&& forall|o: int|
                        0 <= o && o + 4 <= old(self).capacity && apart_from(o, p) && apart_from(
                            o,
                            h - 4,
                        ) ==> #[trigger] word_at(final(self).mem@, o) == word_at(old(self).mem@, o)
                }
            }),
    {
        if self.is_block_first(h) {
            return ;
        }
        let (prev_head, _) = self.prev_block_meta(h);
        or_flags(&mut self.mem, prev_head, NEXT_USED);
    }

    /// Marks the detached free block at `h` as allocated with a payload of
    /// `used_size` bytes. A remainder of a whole block or more becomes a new
    /// free block; a smaller one stays with the allocation.
    fn set_block_used(&mut self, h: u32, used_size: u32)
        requires
            old(self).detached(h as int),
            8 <= used_size <= old(self).blocks@[h as int].size,
            used_size % 8 == 0,
        ensures
            final(self).wf(),
            final(self).capacity == old(self).capacity,
            payloads_kept(old(self).mem@, final(self).mem@, old(self).blocks@, -1),
            ({
                let total = old(self).blocks@[h as int].size;
                if total - used_size >= 16 {
                    &&& final(self).blocks@ == split_blocks(
                        old(self).blocks@,
                        h as int,
                        used_size as int,
                    )
                    &&& final(self).index.lists@ == pushed(
                        old(self).index.lists@,
                        h + 8 + used_size,
                        total - used_size - 8,
                    )
                } else {
                    &&& final(self).blocks@ == old(self).blocks@.insert(
                        h as int,
                        Block { size: total, used: true },
                    )
                    &&& final(self).index.lists@ == old(self).index.lists@
                }
            }),
    {
        let ghost cap = self.capacity as int;
        let ghost blocks = self.blocks@;
        let ghost pred = self.pred@;
        let ghost mem0 = self.mem@;
        let ghost index0 = self.index;
        let ghost total = blocks[h as int].size;
        let ghost n = h + 8 + total;
        let ghost p = pred[h as int];
        proof {
            lemma_tag_fields(mem0, cap, blocks, pred, h as int);
            if n < cap {
                lemma_tag_fields(mem0, cap, blocks, pred, n);
            }
            if h > 0 {
                lemma_tag_fields(mem0, cap, blocks, pred, p);
            }
            crate::block::lemma_written_tags(total as u32);
            crate::block::lemma_written_tags(used_size);
            if total - used_size >= 16 {
                crate::block::lemma_written_tags((total - used_size - 8) as u32);
            }
            assert forall|fl: int, sl: int, k: int| #[trigger]
                index0.is_entry(fl, sl, k) implies ({
                let e = index0.lists@[fl][sl][k];
                &&& blocks.contains_key(e)
                &&& e != h
                &&& (h > 0 ==> e != pred[h as int])
                &&& e != h + 8 + blocks[h as int].size
            }) by {}
        }
        let tag = read_word(&self.mem, h);
        let block_size: u32 = tag & SIZE_MASK;
        let leftover: u32 = block_size - used_size;
        if leftover < MIN_BLOCK {
            self.set_next_prev_used(h, block_size);
            let ghost mem1 = self.mem@;
            write_tags(&mut self.mem, h, block_size, USED | PREV_USED | NEXT_USED);
            let ghost mem2 = self.mem@;
            self.set_prev_next_used(h);
            proof {
                let nt = n + 4 + blocks[n].size;
                if n < cap {
                    lemma_meta_keeps_payloads(cap, blocks, pred, mem0, mem1, -1, n, n + 4, n, nt, nt + 4, n);
                } else {
                    lemma_meta_keeps_payloads(cap, blocks, pred, mem0, mem1, -1, 0, 0, 0, 0, 0, 0);
                }
                lemma_meta_keeps_payloads(
                    cap,
                    blocks,
                    pred,
                    mem1,
                    mem2,
                    -1,
                    h as int,
                    h + 4,
                    h as int,
                    h + 4 + total,
                    h + 8 + total,
                    h as int,
                );
                if h > 0 {
                    lemma_meta_keeps_payloads(cap, blocks, pred, mem2, self.mem@, -1, p, p + 4, p, h - 4, h as int, p);
                } else {
                    lemma_meta_keeps_payloads(cap, blocks, pred, mem2, self.mem@, -1, 0, 0, 0, 0, 0, 0);
                }
                lemma_payloads_kept_on(mem0, mem1, mem2, blocks, -1);
                lemma_payloads_kept_on(mem0, mem2, self.mem@, blocks, -1);
                self.blocks = Ghost(blocks.insert(h as int, Block { size: total, used: true }));
                lemma_absorb(cap, blocks, pred, mem0, self.mem@, h as int);
                lemma_run_keeps_index(cap, blocks, pred, index0, mem0, self.mem@, h as int);
                assert(entries_free(self.index, self.blocks@));
                assert(free_listed(self.index, self.blocks@, Set::empty()));
            }
        } else {
            let rest: u32 = h + BLOCK_META_SIZE + used_size;
            let rest_size: u32 = strip_meta(leftover);
            write_tags(&mut self.mem, rest, rest_size, PREV_USED | NEXT_USED);
            let ghost mem_a = self.mem@;
            write_tags(&mut self.mem, h, used_size, USED | PREV_USED);
            let ghost mem_b = self.mem@;
            self.set_prev_next_used(h);
            let ghost mem1 = self.mem@;
            proof {
                lemma_meta_keeps_payloads(
                    cap,
                    blocks,
                    pred,
                    mem0,
                    mem_a,
                    -1,
                    rest as int,
                    rest + 4,
                    h as int,
                    h + 4 + total,
                    h + 8 + total,
                    h as int,
                );
                lemma_meta_keeps_payloads(
                    cap,
                    blocks,
                    pred,
                    mem_a,
                    mem_b,
                    -1,
                    h as int,
                    h + 4,
                    h as int,
                    h + 4 + used_size,
                    h + 8 + used_size,
                    h as int,
                );
                if h > 0 {
                    lemma_meta_keeps_payloads(cap, blocks, pred, mem_b, mem1, -1, p, p + 4, p, h - 4, h as int, p);
                } else {
                    lemma_meta_keeps_payloads(cap, blocks, pred, mem_b, mem1, -1, 0, 0, 0, 0, 0, 0);
                }
                lemma_payloads_kept_on(mem0, mem_a, mem_b, blocks, -1);
                lemma_payloads_kept_on(mem0, mem_b, mem1, blocks, -1);
            }
            let ghost blocks2 = split_blocks(blocks, h as int, used_size as int);
            let ghost pred2 = split_pred(blocks, pred, h as int, used_size as int);
            proof {
                self.blocks = Ghost(blocks2);
                self.pred = Ghost(pred2);
                lemma_split(cap, blocks, pred, mem0, mem1, h as int, used_size as int);
                lemma_run_keeps_index(cap, blocks, pred, index0, mem0, mem1, h as int);
                lemma_make_tag(rest_size, false, true, true);
                lemma_fl_index(rest_size);
                crate::mapping::lemma_sl_index(rest_size, fl_index(rest_size));
                assert(index0.unlisted(rest as int)) by {
                    assert forall|fl: int, sl: int, k: int| #[trigger]
                        index0.is_entry(fl, sl, k) implies spaced(
                        index0.lists@[fl][sl][k],
                        rest as int,
                    ) by {
                        let e = index0.lists@[fl][sl][k];
                        assert(apart(blocks, e, h as int));
                        assert(block_ok(cap, blocks, pred, e));
                    }
                }
                assert(entries_free(index0, blocks2));
                assert(free_listed(index0, blocks2, set![rest as int])) by {
                    assert forall|g: int| #[trigger]
                        blocks2.contains_key(g) && !blocks2[g].used && !set![rest as int].contains(
                        g,
                    ) implies listed_at(
                        index0,
                        g,
                        fl_of(blocks2[g].size),
                        sl_of(blocks2[g].size),
                    ) by {
                        assert(blocks.contains_key(g));
                    }
                }
            }
            self.index.push_front(&mut self.mem, rest);
            proof {
                let list = index0.lists@[fl_of(rest_size as int)][sl_of(rest_size as int)];
                let e2 = if list.len() > 0 {
                    list[0]
                } else {
                    rest as int
                };
                if list.len() > 0 {
                    assert(index0.is_entry(fl_of(rest_size as int), sl_of(rest_size as int), 0));
                }
                lemma_link_writes_keep_tags(cap, blocks2, pred2, mem1, self.mem@, rest as int, e2);
                lemma_push_lists(blocks2, index0, self.index, rest as int);
                if list.len() > 0 {
                    assert(blocks.contains_key(e2) && !blocks[e2].used);
                    assert(block_ok(cap, blocks, pred, e2));
                }
                lemma_meta_keeps_payloads(
                    cap,
                    blocks,
                    pred,
                    mem1,
                    self.mem@,
                    -1,
                    rest + 4,
                    rest + 12,
                    h as int,
                    link_range(list, 0).0,
                    link_range(list, 0).1,
                    e2,
                );
                lemma_payloads_kept_on(mem0, mem1, self.mem@, blocks, -1);
            }
        }
    }

    /// Allocates `size` bytes: takes the first block of the lowest bucket
    /// above that of the aligned size, and returns the offset of its head.
    /// Refuses without any change when every such bucket is empty.
    pub fn allocate(&mut self, size: Word) -> (r: AllocResult<Word>)
        requires
            old(self).wf(),
            size > 0,
        ensures
            final(self).wf(),
            final(self)@.valid(),
            final(self)@ == old(self)@.allocate(size).0,
            payloads_kept(old(self).arena(), final(self).arena(), old(self)@.blocks, -1),
            match r {
                Ok(offset) => old(self)@.allocate(size).1 == Some(offset as int),
                Err(e) => e == AllocError::OutOfMemory && old(self)@.allocate(size).1.is_none()
                    && *final(self) == *old(self),
            },
    {
        proof {
            self.lemma_valid();
        }
        if size > u32::MAX - (BLOCK_ALIGNMENT - 1) {
            return Err(AllocError::OutOfMemory);
        }
        proof {
            assert(crate::meta::is_pow2(8)) by (bit_vector);
        }
        let aligned_size = align_up(size, BLOCK_ALIGNMENT);
        let ghost from = bucket_of(aligned_size);
        let (fli, sli) = match self.mapping_search(aligned_size) {
            Ok(bucket) => bucket,
            Err(e) => {
                proof {
                    assert(forall|f: u32, s: u32|
                        !#[trigger] crate::index::bucket_above(self.index.lists@, from, f, s));
                }
                return Err(e);
            },
        };
        let ghost cap = self.capacity as int;
        let ghost blocks = self.blocks@;
        let ghost pred = self.pred@;
        let ghost mem0 = self.mem@;
        let ghost index0 = self.index;
        let ghost list = index0.lists@[fli as int][sli as int];
        proof {
            crate::index::lemma_first_bucket_above(index0.lists@, from, fli, sli);
            assert(index0.is_entry(fli as int, sli as int, 0));
            if list.len() > 1 {
                assert(index0.is_entry(fli as int, sli as int, 1));
            }
        }
        let h = self.index.pop_front(&mut self.mem, fli, sli);
        proof {
            let e1 = if list.len() > 1 {
                list[1]
            } else {
                list[0]
            };
            lemma_link_writes_keep_tags(cap, blocks, pred, mem0, self.mem@, e1, e1);
            lemma_pop_detaches(blocks, index0, self.index, fli as int, sli as int);
            assert(blocks.contains_key(e1) && !blocks[e1].used);
            assert(block_ok(cap, blocks, pred, e1));
            lemma_meta_keeps_payloads(
                cap,
                blocks,
                pred,
                mem0,
                self.mem@,
                -1,
                link_range(list, 1).0,
                link_range(list, 1).1,
                e1,
                link_range(list, 1).0,
                link_range(list, 1).1,
                e1,
            );
            assert(block_ok(cap, blocks, pred, h as int));
            lemma_fl_index(aligned_size);
            lemma_fl_index(blocks[h as int].size as u32);
            if blocks[h as int].size < aligned_size {
                lemma_bucket_monotone(blocks[h as int].size as u32, aligned_size);
            }
        }
        let ghost mem1 = self.mem@;
        self.set_block_used(h, aligned_size);
        proof {
            lemma_payloads_kept_on(mem0, mem1, self.mem@, blocks, -1);
            self.lemma_valid();
        }
        Ok(h)
    }

    /// Deals with the block after the allocated block at `h`, which is being
    /// freed: a free one leaves its list, to be merged; an allocated one is
    /// told that the block before it is free. Returns the offset of the tail
    /// of the block that results.
    fn coalesce_next(&mut self, h: u32, size: u32, tag: u32) -> (tail: u32)
        requires
            old(self).wf(),
            old(self).blocks@.contains_key(h as int),
            old(self).blocks@[h as int].used,
            size == old(self).blocks@[h as int].size,
            tag == word_at(old(self).mem@, h as int),
            h + 8 + size < old(self).capacity,
        ensures
            final(self).capacity == old(self).capacity,
            final(self).blocks == old(self).blocks,
            final(self).pred == old(self).pred,
            final(self).mem@.len() == old(self).mem@.len(),
            final(self).index.wf(final(self).mem@),
            entries_free(final(self).index, final(self).blocks@),
            payloads_kept(old(self).mem@, final(self).mem@, old(self).blocks@, h as int),
            ({
                let n = h + 8 + size;
                let blocks = old(self).blocks@;
                if blocks[n].used {
                    &&& tail == h + 4 + size
                    &&& final(self).index == old(self).index
                    &&& word_at(final(self).mem@, n) == word_at(old(self).mem@, n) & !PREV_USED
                    &&& word_at(final(self).mem@, n + 4 + blocks[n].size) == word_at(
                        old(self).mem@,
                        n,
                    ) & !PREV_USED
                    &&& forall|g: int|
                        blocks.contains_key(g) && g != n ==> #[trigger] same_tags(
                            old(self).mem@,
                            final(self).mem@,
                            blocks,
                            g,
                        )
                    &&& free_listed(final(self).index, blocks, Set::empty())
                } else {
                    &&& tail == n + 4 + blocks[n].size
                    &&& final(self).index.lists@ == removed(
                        old(self).index.lists@,
                        n,
                        blocks[n].size,
                    )
                    &&& forall|g: int|
                        blocks.contains_key(g) ==> #[trigger] same_tags(
                            old(self).mem@,
                            final(self).mem@,
                            blocks,
                            g,
                        )
                    &&& free_listed(final(self).index, blocks, set![n])
                    &&& final(self).index.unlisted(n)
                }
            }),
    {
        let ghost cap = self.capacity as int;
        let ghost blocks = self.blocks@;
        let ghost pred = self.pred@;
        let ghost mem0 = self.mem@;
        let ghost index0 = self.index;
        let ghost n = h + 8 + size;
        proof {
            lemma_tag_fields(mem0, cap, blocks, pred, h as int);
            lemma_tag_fields(mem0, cap, blocks, pred, n);
        }
        let (next, next_tail) = self.next_block_meta(h, size);
        if tag & NEXT_USED != 0 {
            clear_or_flags(&mut self.mem, next, PREV_USED);
            proof {
                assert forall|fl: int, sl: int, k: int| #[trigger]
                    index0.is_entry(fl, sl, k) implies blocks.contains_key(
                    index0.lists@[fl][sl][k],
                ) by {}
                lemma_tag_write_frame(cap, blocks, pred, index0, mem0, self.mem@, n, n);
                let nt = n + 4 + blocks[n].size;
                lemma_meta_keeps_payloads(
                    cap,
                    blocks,
                    pred,
                    mem0,
                    self.mem@,
                    h as int,
                    n,
                    n + 4,
                    n,
                    nt,
                    nt + 4,
                    n,
                );
            }
            h + BLOCK_HEAD_SIZE + size
        } else {
            proof {
                assert(listed_at(index0, n, fl_of(blocks[n].size), sl_of(blocks[n].size)));
            }
            self.index.remove(&mut self.mem, next);
            proof {
                let list = index0.lists@[fl_of(blocks[n].size)][sl_of(blocks[n].size)];
                let k = list.index_of(n);
                let e1 = if k + 1 < list.len() {
                    list[k + 1]
                } else {
                    n
                };
                let e2 = if k > 0 {
                    list[k - 1]
                } else {
                    n
                };
                if k + 1 < list.len() {
                    assert(index0.is_entry(
                        fl_of(blocks[n].size),
                        sl_of(blocks[n].size),
                        k + 1,
                    ));
                }
                if k > 0 {
                    assert(index0.is_entry(
                        fl_of(blocks[n].size),
                        sl_of(blocks[n].size),
                        k - 1,
                    ));
                }
                lemma_links_keep_tags(cap, blocks, pred, mem0, self.mem@, e1, e2);
                lemma_remove_lists(blocks, index0, self.index, n, Set::empty(), n);
                assert(block_ok(cap, blocks, pred, e1));
                assert(block_ok(cap, blocks, pred, e2));
                lemma_meta_keeps_payloads(
                    cap,
                    blocks,
                    pred,
                    mem0,
                    self.mem@,
                    h as int,
                    link_range(list, k + 1).0,
                    link_range(list, k + 1).1,
                    e1,
                    link_range(list, k - 1).0,
                    link_range(list, k - 1).1,
                    e2,
                );
                assert(Set::<int>::empty().insert(n) =~= set![n]);
            }
            next_tail
        }
    }

    /// Deals with the block before the allocated block at `h`, which is being
    /// freed: a free one leaves its list, to be merged; an allocated one is
    /// told that the block after it is free. Returns the offset of the head
    /// of the block that results.
    fn coalesce_prev(&mut self, h: u32, tag: u32, Ghost(except): Ghost<Set<int>>, Ghost(y): Ghost<
        int,
    >) -> (head: u32)
        requires
            old(self).mem@.len() == old(self).capacity,
            tiling(old(self).capacity as int, old(self).blocks@, old(self).pred@),
            old(self).index.wf(old(self).mem@),
            entries_free(old(self).index, old(self).blocks@),
            free_listed(old(self).index, old(self).blocks@, except),
            old(self).blocks@.contains_key(h as int),
            old(self).blocks@[h as int].used,
            h > 0,
            ({
                let p = old(self).pred@[h as int];
                let blocks = old(self).blocks@;
                let t = tag_of(old(self).capacity as int, blocks, old(self).pred@, p);
                &&& tag_prev_used(tag) == blocks[p].used
                &&& word_at(old(self).mem@, p) == t
                &&& word_at(old(self).mem@, h - 4) == t
                &&& !except.contains(p)
            }),
        ensures
            final(self).capacity == old(self).capacity,
            final(self).blocks == old(self).blocks,
            final(self).pred == old(self).pred,
            final(self).mem@.len() == old(self).mem@.len(),
            final(self).index.wf(final(self).mem@),
            entries_free(final(self).index, final(self).blocks@),
            payloads_kept(old(self).mem@, final(self).mem@, old(self).blocks@, h as int),
            old(self).index.unlisted(y) ==> final(self).index.unlisted(y),
            ({
                let p = old(self).pred@[h as int];
                let blocks = old(self).blocks@;
                if blocks[p].used {
                    &&& head == h
                    &&& final(self).index == old(self).index
                    &&& word_at(final(self).mem@, p) == word_at(old(self).mem@, p) & !NEXT_USED
                    &&& word_at(final(self).mem@, h - 4) == word_at(old(self).mem@, p) & !NEXT_USED
                    &&& forall|g: int|
                        blocks.contains_key(g) && g != p ==> #[trigger] same_tags(
                            old(self).mem@,
                            final(self).mem@,
                            blocks,
                            g,
                        )
                    &&& free_listed(final(self).index, blocks, except)
                } else {
                    &&& head == p
                    &&& final(self).index.lists@ == removed(
                        old(self).index.lists@,
                        p,
                        blocks[p].size,
                    )
                    &&& forall|g: int|
                        blocks.contains_key(g) ==> #[trigger] same_tags(
                            old(self).mem@,
                            final(self).mem@,
                            blocks,
                            g,
                        )
                    &&& free_listed(final(self).index, blocks, except.insert(p))
                    &&& final(self).index.unlisted(p)
                }
            }),
    {
        let ghost cap = self.capacity as int;
        let ghost blocks = self.blocks@;
        let ghost pred = self.pred@;
        let ghost mem0 = self.mem@;
        let ghost index0 = self.index;
        let ghost p = pred[h as int];
        proof {
            assert(block_ok(cap, blocks, pred, h as int));
            assert(block_ok(cap, blocks, pred, p));
            lemma_make_tag(
                blocks[p].size as u32,
                blocks[p].used,
                prev_used(blocks, pred, p),
                next_used(cap, blocks, p),
            );
        }
        let (prev, _) = self.prev_block_meta(h);
        if tag & PREV_USED != 0 {
            clear_or_flags(&mut self.mem, prev, NEXT_USED);
            proof {
                assert forall|fl: int, sl: int, k: int| #[trigger]
                    index0.is_entry(fl, sl, k) implies blocks.contains_key(
                    index0.lists@[fl][sl][k],
                ) by {}
                lemma_tag_write_frame(cap, blocks, pred, index0, mem0, self.mem@, p, p);
                lemma_meta_keeps_payloads(
                    cap,
                    blocks,
                    pred,
                    mem0,
                    self.mem@,
                    h as int,
                    p,
                    p + 4,
                    p,
                    h - 4,
                    h as int,
                    p,
                );
            }
            h
        } else {
            proof {
                assert(listed_at(index0, p, fl_of(blocks[p].size), sl_of(blocks[p].size)));
            }
            self.index.remove(&mut self.mem, prev);
            proof {
                let list = index0.lists@[fl_of(blocks[p].size)][sl_of(blocks[p].size)];
                let k = list.index_of(p);
                let e1 = if k + 1 < list.len() {
                    list[k + 1]
                } else {
                    p
                };
                let e2 = if k > 0 {
                    list[k - 1]
                } else {
                    p
                };
                if k + 1 < list.len() {
                    assert(index0.is_entry(
                        fl_of(blocks[p].size),
                        sl_of(blocks[p].size),
                        k + 1,
                    ));
                }
                if k > 0 {
                    assert(index0.is_entry(
                        fl_of(blocks[p].size),
                        sl_of(blocks[p].size),
                        k - 1,
                    ));
                }
                lemma_links_keep_tags(cap, blocks, pred, mem0, self.mem@, e1, e2);
                lemma_remove_lists(blocks, index0, self.index, p, except, y);
                assert(block_ok(cap, blocks, pred, e1));
                assert(block_ok(cap, blocks, pred, e2));
                lemma_meta_keeps_payloads(
                    cap,
                    blocks,
                    pred,
                    mem0,
                    self.mem@,
                    h as int,
                    link_range(list, k + 1).0,
                    link_range(list, k + 1).1,
                    e1,
                    link_range(list, k - 1).0,
                    link_range(list, k - 1).1,
                    e2,
                );
            }
            prev
        }
    }

    /// What both neighbours of the allocated block at `h` look like once they
    /// are ready for `h` to be freed, against the arena `mem0` before:
    /// free ones are out of their lists, allocated ones have their flag
    /// towards `h` cleared, and nothing else has changed.
    spec fn neighbours_ready(&self, before: &Self, h: int) -> bool {
        let cap = self.capacity as int;
        let blocks = self.blocks@;
        let pred = self.pred@;
        let mem0 = before.mem@;
        let n = h + 8 + blocks[h].size;
        let p = pred[h];
        let lists1 = if merges_next(cap, blocks, h) {
            removed(before.index.lists@, n, blocks[n].size)
        } else {
            before.index.lists@
        };
        let lists2 = if merges_prev(blocks, pred, h) {
            removed(lists1, p, blocks[p].size)
        } else {
            lists1
        };
        &&& self.capacity == before.capacity
        &&& self.blocks == before.blocks
        &&& self.pred == before.pred
        &&& self.mem@.len() == cap
        &&& self.index.wf(self.mem@)
        &&& entries_free(self.index, blocks)
        &&& payloads_kept(mem0, self.mem@, blocks, h)
        &&& self.index.lists@ == lists2
        &&& free_listed(self.index, blocks, merged_away(cap, blocks, pred, h))
        &&& (merges_next(cap, blocks, h) ==> self.index.unlisted(n))
        &&& (merges_prev(blocks, pred, h) ==> self.index.unlisted(p))
        &&& (n < cap && blocks[n].used ==> word_at(self.mem@, n) == word_at(mem0, n) & !PREV_USED
            && word_at(self.mem@, n + 4 + blocks[n].size) == word_at(mem0, n) & !PREV_USED)
        &&& (h > 0 && blocks[p].used ==> word_at(self.mem@, p) == word_at(mem0, p) & !NEXT_USED
            && word_at(self.mem@, h - 4) == word_at(mem0, p) & !NEXT_USED)
        &&& forall|g: int|
            blocks.contains_key(g) && g != h && g != n && (h > 0 ==> g != p) ==> #[trigger] same_tags(
                mem0,
                self.mem@,
                blocks,
                g,
            )
    }

    /// Gets both neighbours of the allocated block at `addr` ready for it to
    /// be freed, and returns the offsets of the head and of the tail of the
    /// free block that is to be.
    fn coalesce(&mut self, addr: u32) -> (r: (u32, u32))
        requires
            old(self).wf(),
            old(self).blocks@.contains_key(addr as int),
            old(self).blocks@[addr as int].used,
        ensures
            final(self).neighbours_ready(old(self), addr as int),
            r.0 == merged_start(old(self).blocks@, old(self).pred@, addr as int),
            r.1 == merged_end(old(self).capacity as int, old(self).blocks@, addr as int) - 4,
    {
        let ghost cap = self.capacity as int;
        let ghost blocks = self.blocks@;
        let ghost pred = self.pred@;
        let ghost mem0 = self.mem@;
        let ghost h = addr as int;
        let ghost n = h + 8 + blocks[h].size;
        let ghost p = pred[h];
        proof {
            lemma_tag_fields(mem0, cap, blocks, pred, h);
            if n < cap {
                lemma_tag_fields(mem0, cap, blocks, pred, n);
            }
            if h > 0 {
                lemma_tag_fields(mem0, cap, blocks, pred, p);
            }
        }
        let tag = read_word(&self.mem, addr);
        let size: u32 = tag & SIZE_MASK;
        let tail: u32 = if self.is_block_last(addr, size) {
            addr + BLOCK_HEAD_SIZE + size
        } else {
            self.coalesce_next(addr, size, tag)
        };
        let ghost mem1 = self.mem@;
        let ghost except1: Set<int> = if merges_next(cap, blocks, h) {
            set![n]
        } else {
            Set::empty()
        };
        proof {
            if h > 0 && n < cap {
                assert(apart(blocks, p, n));
                assert(same_tags(mem0, mem1, blocks, p));
            }
        }
        let head: u32 = if self.is_block_first(addr) {
            addr
        } else {
            self.coalesce_prev(addr, tag, Ghost(except1), Ghost(n))
        };
        proof {
            let mem2 = self.mem@;
            if n >= cap {
                lemma_meta_keeps_payloads(cap, blocks, pred, mem0, mem1, h, 0, 0, 0, 0, 0, 0);
            }
            if h == 0 {
                lemma_meta_keeps_payloads(cap, blocks, pred, mem1, mem2, h, 0, 0, 0, 0, 0, 0);
            }
            lemma_payloads_kept_on(mem0, mem1, mem2, blocks, h);
            assert(merged_away(cap, blocks, pred, h) =~= (if merges_prev(blocks, pred, h) {
                except1.insert(p)
            } else {
                except1
            }));
            assert forall|g: int|
                blocks.contains_key(g) && g != h && g != n && (h > 0 ==> g != p) implies #[trigger] same_tags(
                mem0,
                mem2,
                blocks,
                g,
            ) by {
                assert(same_tags(mem0, mem1, blocks, g));
                assert(same_tags(mem1, mem2, blocks, g));
            }
            if n < cap && blocks[n].used {
                assert(same_tags(mem1, mem2, blocks, n));
            }
        }
        (head, tail)
    }

    /// Frees the allocated block at offset `addr`. It is merged with each
    /// neighbour that is free, and the free block that results goes in front
    /// of its bucket's list.
    pub fn deallocate(&mut self, addr: Word) -> (r: AllocResult<()>)
        requires
            old(self).wf(),
            old(self)@.is_block(addr as int),
            old(self)@.blocks[addr as int].used,
        ensures
            r.is_ok(),
            final(self).wf(),
            final(self)@.valid(),
            final(self)@ == old(self)@.deallocate(addr as int),
            payloads_kept(old(self).arena(), final(self).arena(), old(self)@.blocks, addr as int),
    {
        let ghost cap = self.capacity as int;
        let ghost blocks = self.blocks@;
        let ghost pred = self.pred@;
        let ghost mem0 = self.mem@;
        let ghost h = addr as int;
        let ghost start = merged_start(blocks, pred, h);
        let ghost end = merged_end(cap, blocks, h);
        let ghost blocks2 = merged_blocks(cap, blocks, pred, h);
        let ghost pred2 = merged_pred(cap, blocks, pred, h);
        let (head, tail) = self.coalesce(addr);
        let ghost mem2 = self.mem@;
        let ghost index2 = self.index;
        proof {
            lemma_merge_tiling(cap, blocks, pred, h);
            assert(block_ok(cap, blocks2, pred2, start));
        }
        let coalesced_size = size_between_meta(head, tail);
        write_tags(&mut self.mem, head, coalesced_size, PREV_USED | NEXT_USED);
        let ghost mem3 = self.mem@;
        proof {
            self.blocks = Ghost(blocks2);
            self.pred = Ghost(pred2);
            lemma_merged_state(cap, blocks, pred, index2, mem0, mem2, mem3, h);
            crate::block::lemma_written_tags(coalesced_size);
            lemma_make_tag(coalesced_size, false, true, true);
            lemma_fl_index(coalesced_size);
            crate::mapping::lemma_sl_index(coalesced_size, fl_index(coalesced_size));
        }
        self.index.push_front(&mut self.mem, head);
        proof {
            let list = index2.lists@[fl_of(coalesced_size as int)][sl_of(coalesced_size as int)];
            let e2 = if list.len() > 0 {
                list[0]
            } else {
                start
            };
            if list.len() > 0 {
                assert(index2.is_entry(
                    fl_of(coalesced_size as int),
                    sl_of(coalesced_size as int),
                    0,
                ));
            }
            lemma_link_writes_keep_tags(cap, blocks2, pred2, mem3, self.mem@, start, e2);
            lemma_push_lists(blocks2, index2, self.index, start);
            let last = if merges_next(cap, blocks, h) {
                h + 8 + blocks[h].size
            } else {
                h
            };
            assert(block_ok(cap, blocks, pred, h));
            assert(block_ok(cap, blocks, pred, start));
            assert(block_ok(cap, blocks, pred, last));
            lemma_meta_keeps_payloads(
                cap,
                blocks,
                pred,
                mem2,
                mem3,
                h,
                start,
                start + 4,
                start,
                end - 4,
                end,
                last,
            );
            if list.len() > 0 {
                assert(blocks.contains_key(e2) && !blocks[e2].used);
                assert(block_ok(cap, blocks, pred, e2));
            }
            lemma_meta_keeps_payloads(
                cap,
                blocks,
                pred,
                mem3,
                self.mem@,
                h,
                start + 4,
                start + 12,
                start,
                link_range(list, 0).0,
                link_range(list, 0).1,
                e2,
            );
            lemma_payloads_kept_on(mem0, mem2, mem3, blocks, h);
            lemma_payloads_kept_on(mem0, mem3, self.mem@, blocks, h);
            if h > 0 {
                lemma_before_is_pred(cap, blocks, pred, old(self).index.lists@, h);
            }
            assert(self@.blocks =~= old(self)@.deallocate(h).blocks);
            self.lemma_valid();
        }
        Ok(())
    }

    /// What the walk of `free` has seen so far: `seen[i]` is the listed block
    /// at position `at[i]`, every position lies before `(fl, sl, k)`, and no
    /// two blocks seen overlap.
    spec fn walked(
        &self,
        seen: Seq<int>,
        at: Seq<(int, int, int)>,
        fl: int,
        sl: int,
        k: int,
    ) -> bool {
        &&& at.len() == seen.len()
        &&& forall|i: int|
            0 <= i < seen.len() ==> {
                let (f, s, j) = #[trigger] at[i];
                &&& self.index.is_entry(f, s, j)
                &&& self.index.lists@[f][s][j] == seen[i]
                &&& (f < fl || (f == fl && s < sl) || (f == fl && s == sl && j < k))
            }
        &&& packed(self.capacity as int, self.blocks@, seen, 8)
    }

    /// The sum of the payloads of all free blocks, by a walk of every list.
    pub fn free(&self) -> (r: Word)
        requires
            self.wf(),
        ensures
            r == self@.free_bytes(),
    {
        let ghost cap = self.capacity as int;
        let ghost blocks = self.blocks@;
        let ghost lists = self.index.lists@;
        let mut total_free: u32 = 0;
        let ghost mut seen: Seq<int> = Seq::empty();
        let ghost mut at: Seq<(int, int, int)> = Seq::empty();
        let mut fl: usize = 0;
        while fl < 32
            invariant
                self.wf(),
                cap == self.capacity,
                blocks == self.blocks@,
                lists == self.index.lists@,
                fl <= 32,
                total_free + 8 * seen.len() == weight(blocks, seen, 8),
                total_free == rows_bytes(blocks, lists, fl as int),
                self.walked(seen, at, fl as int, 0, 0),
            decreases 32 - fl,
        {
            let mut sl: usize = 0;
            while sl < 8
                invariant
                    self.wf(),
                    cap == self.capacity,
                    blocks == self.blocks@,
                    lists == self.index.lists@,
                    fl < 32,
                    sl <= 8,
                    total_free + 8 * seen.len() == weight(blocks, seen, 8),
                    total_free == rows_bytes(blocks, lists, fl as int) + row_bytes(
                        blocks,
                        lists[fl as int],
                        sl as int,
                    ),
                    self.walked(seen, at, fl as int, sl as int, 0),
                decreases 8 - sl,
            {
                let ghost list = lists[fl as int][sl as int];
                let mut link = self.index.free_heads[fl][sl];
                let ghost mut k: int = 0;
                proof {
                    assert(list.subrange(0, 0) =~= Seq::<int>::empty());
                    if list.len() > 0 {
                        assert(self.index.is_entry(fl as int, sl as int, 0));
                        assert(self.index.entry_ok(self.mem@, fl as int, sl as int, 0));
                    }
                }
                while link != PACKED_NONE_PTR
                    invariant
                        self.wf(),
                        cap == self.capacity,
                        blocks == self.blocks@,
                        lists == self.index.lists@,
                        list == lists[fl as int][sl as int],
                        fl < 32,
                        sl < 8,
                        0 <= k <= list.len(),
                        link as int == (if k < list.len() {
                            list[k]
                        } else {
                            PACKED_NONE_PTR as int
                        }),
                        k < list.len() ==> list[k] + 16 <= cap,
                        total_free + 8 * seen.len() == weight(blocks, seen, 8),
                        total_free == rows_bytes(blocks, lists, fl as int) + row_bytes(
                            blocks,
                            lists[fl as int],
                            sl as int,
                        ) + list_bytes(blocks, list.subrange(0, k)),
                        self.walked(seen, at, fl as int, sl as int, k),
                    decreases list.len() - k,
                {
                    proof {
                        assert(self.index.is_entry(fl as int, sl as int, k));
                        assert(self.index.entry_ok(self.mem@, fl as int, sl as int, k));
                        lemma_tag_fields(self.mem@, cap, blocks, self.pred@, link as int);
                        lemma_pack_links(
                            word_at(self.mem@, link + 4),
                            word_at(self.mem@, link + 8));
                        if k + 1 < list.len() {
                            assert(self.index.is_entry(fl as int, sl as int, k + 1));
                            assert(self.index.entry_ok(self.mem@, fl as int, sl as int, k + 1));
                        }
                        self.lemma_walk_step(seen, at, fl as int, sl as int, k);
                        assert(seen.push(link as int).drop_last() =~= seen);
                        assert(list.subrange(0, k + 1).drop_last() =~= list.subrange(0, k));
                    }
                    let head = load_free_head(&self.mem, link);
                    let size: u32 = head.size_and_flags & SIZE_MASK;
                    total_free += size;
                    let (_, next_link) = head.link_offsets();
                    proof {
                        seen = seen.push(link as int);
                        at = at.push((fl as int, sl as int, k));
                        k = k + 1;
                    }
                    link = next_link;
                }
                proof {
                    assert(list.subrange(0, k) =~= list);
                    self.lemma_walk_on(seen, at, fl as int, sl as int, k, fl as int, sl + 1, 0);
                }
                sl += 1;
            }
            proof {
                self.lemma_walk_on(seen, at, fl as int, 8, 0, fl + 1, 0, 0);
            }
            fl += 1;
        }
        total_free
    }

    /// The next listed block does not overlap any block seen before it, and
    /// with it the blocks seen still weigh no more than the arena holds.
    proof fn lemma_walk_step(&self, seen: Seq<int>, at: Seq<(int, int, int)>, fl: int, sl: int, k: int)
        requires
            self.wf(),
            self.walked(seen, at, fl, sl, k),
            self.index.is_entry(fl, sl, k),
        ensures
            self.walked(
                seen.push(self.index.lists@[fl][sl][k]),
                at.push((fl, sl, k)),
                fl,
                sl,
                k + 1,
            ),
            weight(self.blocks@, seen.push(self.index.lists@[fl][sl][k]), 8) <= self.capacity,
    {
        let cap = self.capacity as int;
        let blocks = self.blocks@;
        let e = self.index.lists@[fl][sl][k];
        let seen2 = seen.push(e);
        let at2 = at.push((fl, sl, k));
        assert(block_ok(cap, blocks, self.pred@, e));
        assert forall|i: int| 0 <= i < seen2.len() implies 0 <= #[trigger] seen2[i]
            && blocks[seen2[i]].size >= 0 && seen2[i] + 8 + blocks[seen2[i]].size <= cap by {
            if i < seen.len() {
                assert(seen2[i] == seen[i]);
            }
        }
        assert forall|i: int, j: int| 0 <= i < j < seen2.len() implies #[trigger] seen2[i] + 8
            + blocks[seen2[i]].size <= #[trigger] seen2[j] || seen2[j] + 8 + blocks[seen2[j]].size
            <= seen2[i] by {
            assert(seen2[i] == seen[i]);
            if j < seen.len() {
                assert(seen2[j] == seen[j]);
            } else {
                let (f, s, q) = at[i];
                assert(self.index.is_entry(f, s, q));
                assert(spaced(self.index.lists@[f][s][q], e));
                assert(blocks.contains_key(seen[i]));
                assert(apart(blocks, seen[i], e));
            }
        }
        assert forall|i: int| 0 <= i < seen2.len() implies ({
            let (f, s, j) = #[trigger] at2[i];
            &&& self.index.is_entry(f, s, j)
            &&& self.index.lists@[f][s][j] == seen2[i]
            &&& (f < fl || (f == fl && s < sl) || (f == fl && s == sl && j < k + 1))
        }) by {
            if i < seen.len() {
                assert(at2[i] == at[i]);
                assert(seen2[i] == seen[i]);
            }
        }
        lemma_weight_bounded(cap, blocks, seen2, 8);
    }

    /// What was seen before one position was seen before every later one.
    proof fn lemma_walk_on(
        &self,
        seen: Seq<int>,
        at: Seq<(int, int, int)>,
        fl: int,
        sl: int,
        k: int,
        fl2: int,
        sl2: int,
        k2: int,
    )
        requires
            self.walked(seen, at, fl, sl, k),
            fl < fl2 || (fl == fl2 && sl < sl2) || (fl == fl2 && sl == sl2 && k <= k2) || (fl + 1
                == fl2 && sl == 8 && sl2 == 0),
        ensures
            self.walked(seen, at, fl2, sl2, k2),
    {
        assert forall|i: int| 0 <= i < seen.len() implies ({
            let (f, s, j) = #[trigger] at[i];
            &&& self.index.is_entry(f, s, j)
            &&& self.index.lists@[f][s][j] == seen[i]
            &&& (f < fl2 || (f == fl2 && s < sl2) || (f == fl2 && s == sl2 && j < k2))
        }) by {
            let (f, s, j) = at[i];
            assert(self.index.is_entry(f, s, j));
        }
    }

    /// The tag word in the head of the block at `h`.
    pub closed spec fn head_word(&self, h: int) -> u32 {
        word_at(self.mem@, h)
    }

    /// The tag word in the tail of the block at `h`.
    pub closed spec fn tail_word(&self, h: int) -> u32 {
        word_at(self.mem@, h + 4 + self.blocks@[h].size)
    }

    /// The link to the block before in its list, which the free block at `h`
    /// holds in its payload.
    pub closed spec fn prev_link(&self, h: int) -> u32 {
        word_at(self.mem@, h + 4)
    }

    /// The link to the block after in its list, which the free block at `h`
    /// holds in its payload.
    pub closed spec fn next_link(&self, h: int) -> u32 {
        word_at(self.mem@, h + 8)
    }

    /// The first-level bitmap.
    pub closed spec fn fl_bits(&self) -> u32 {
        self.index.fl_bitmap
    }

    /// The second-level bitmap of first-level class `fl`.
    pub closed spec fn sl_bits(&self, fl: int) -> u32 {
        self.index.sl_bitmaps[fl]
    }

    /// The head of the list of bucket `(fl, sl)`.
    pub closed spec fn head_of(&self, fl: int, sl: int) -> u32 {
        self.index.free_heads[fl][sl]
    }

    /// A well-formed allocator is in a valid state.
    pub proof fn lemma_valid(&self)
        requires
            self.wf(),
        ensures
            self@.valid(),
    {
        let s = self@;
        let cap = self.capacity as int;
        let blocks = self.blocks@;
        let pred = self.pred@;
        assert forall|h: int| s.is_block(h) implies #[trigger] s.block_valid(h) by {
            assert(block_ok(cap, blocks, pred, h));
            if h > 0 {
                assert(s.is_block(pred[h]) && s.end_of(pred[h]) == h);
            }
        }
        assert forall|fl: int, sl: int, k: int| #[trigger] s.is_entry(fl, sl, k) implies s.entry_valid(
            fl,
            sl,
            k,
        ) by {
            assert(self.index.is_entry(fl, sl, k));
        }
        assert forall|fl1: int, sl1: int, k1: int, fl2: int, sl2: int, k2: int|
            #![trigger s.is_entry(fl1, sl1, k1), s.is_entry(fl2, sl2, k2)]
            s.is_entry(fl1, sl1, k1) && s.is_entry(fl2, sl2, k2) && !(fl1 == fl2 && sl1 == sl2 && k1
                == k2) implies s.buckets[fl1][sl1][k1] != s.buckets[fl2][sl2][k2] by {
            assert(self.index.is_entry(fl1, sl1, k1));
            assert(self.index.is_entry(fl2, sl2, k2));
        }
        assert forall|h: int| #[trigger] s.is_block(h) && !s.blocks[h].used implies 0 <= fl_of(
            s.blocks[h].size,
        ) < 32 && 0 <= sl_of(s.blocks[h].size) < 8 && s.buckets[fl_of(s.blocks[h].size)][sl_of(
            s.blocks[h].size,
        )].contains(h) by {
            assert(listed_at(self.index, h, fl_of(blocks[h].size), sl_of(blocks[h].size)));
        }
    }

    /// Tag symmetry: head and tail of every block hold the same word, and it
    /// holds the block's size and whether the block is allocated.
    pub proof fn lemma_tag_symmetry(&self, h: int)
        requires
            self.wf(),
            self@.is_block(h),
        ensures
            self.head_word(h) == self.tail_word(h),
            tag_size(self.head_word(h)) == self@.blocks[h].size,
            tag_used(self.head_word(h)) == self@.blocks[h].used,
            self.head_word(h) == word_at(self.arena(), h),
            self.tail_word(h) == word_at(self.arena(), h + 4 + self@.blocks[h].size),
            self.arena().len() == self@.capacity,
    {
        lemma_tag_fields(self.mem@, self.capacity as int, self.blocks@, self.pred@, h);
    }

    /// Neighbour flags: each of two blocks that touch says in its tag whether
    /// the other is allocated, and the two ends of the arena count as
    /// allocated.
    pub proof fn lemma_neighbour_flags(&self, h: int)
        requires
            self.wf(),
            self@.is_block(h),
        ensures
            self@.end_of(h) < self@.capacity ==> tag_next_used(self.head_word(h))
                == self@.blocks[self@.end_of(h)].used && tag_prev_used(
                self.head_word(self@.end_of(h)),
            ) == self@.blocks[h].used,
            self@.end_of(h) == self@.capacity ==> tag_next_used(self.head_word(h)),
            h == 0 ==> tag_prev_used(self.head_word(h)),
    {
        let cap = self.capacity as int;
        lemma_tag_fields(self.mem@, cap, self.blocks@, self.pred@, h);
        if self@.end_of(h) < cap {
            lemma_tag_fields(self.mem@, cap, self.blocks@, self.pred@, self@.end_of(h));
        }
    }

    /// Bitmap consistency: a second-level bit is set exactly where the
    /// bucket's list holds a block, a first-level bit exactly where a bucket
    /// of its class does, and the head of each bucket is the first block of
    /// its list.
    pub proof fn lemma_bitmaps(&self)
        requires
            self.wf(),
        ensures
            forall|fl: u32, sl: u32|
                fl < 32 && sl < 32 ==> (#[trigger] bit_set(self.sl_bits(fl as int), sl) <==> sl < 8
                    && self@.buckets[fl as int][sl as int].len() > 0),
            forall|fl: u32|
                fl < 32 ==> (#[trigger] bit_set(self.fl_bits(), fl) <==> exists|sl: u32|
                    sl < 8 && (#[trigger] self@.buckets[fl as int][sl as int]).len() > 0),
            forall|fl: int, sl: int|
                0 <= fl < 32 && 0 <= sl < 8 ==> (#[trigger] self.head_of(fl, sl)) as int
                    == crate::index::head_link(self@.buckets[fl][sl]),
    {
        assert forall|fl: u32| fl < 32 implies (#[trigger] bit_set(self.fl_bits(), fl)
            <==> exists|sl: u32|
            sl < 8 && (#[trigger] self@.buckets[fl as int][sl as int]).len() > 0) by {
            let row = self.index.sl_bitmaps[fl as int];
            crate::meta::lemma_bits_of_zero(row);
            if row != 0 {
                let sl = vstd::std_specs::bits::u32_trailing_zeros(row);
                assert(bit_set(self.index.sl_bitmaps[fl as int], sl));
                assert(self@.buckets[fl as int][sl as int].len() > 0);
            } else {
                assert forall|sl: u32| sl < 8 implies (#[trigger] self@.buckets[fl as int][sl as int]).len()
                    == 0 by {
                    assert(!bit_set(self.index.sl_bitmaps[fl as int], sl));
                }
            }
        }
    }

    /// Every free block is reached from the head of its bucket: the links in
    /// its payload name the blocks before and after it in the list.
    pub proof fn lemma_links(&self, fl: int, sl: int, k: int)
        requires
            self.wf(),
            self@.is_entry(fl, sl, k),
        ensures
            self.prev_link(self@.buckets[fl][sl][k]) as int == (if k == 0 {
                PACKED_NONE_PTR as int
            } else {
                self@.buckets[fl][sl][k - 1]
            }),
            self.next_link(self@.buckets[fl][sl][k]) as int == (if k + 1
                == self@.buckets[fl][sl].len() {
                PACKED_NONE_PTR as int
            } else {
                self@.buckets[fl][sl][k + 1]
            }),
    {
        assert(self.index.is_entry(fl, sl, k));
        assert(self.index.entry_ok(self.mem@, fl, sl, k));
    }

    /// The first-level bitmap.
    pub fn fl_bitmap(&self) -> (r: u32)
        ensures
            r == self.fl_bits(),
    {
        self.index.fl_bitmap
    }

    /// The second-level bitmap of first-level class `fl`.
    pub fn sl_bitmap(&self, fl: u32) -> (r: u32)
        requires
            fl < 32,
        ensures
            r == self.sl_bits(fl as int),
    {
        self.index.sl_bitmaps[fl as usize]
    }

    /// The offset of the first block in the list of bucket `(fl, sl)`, or the
    /// link that points nowhere.
    pub fn free_head(&self, fl: u32, sl: u32) -> (r: u32)
        requires
            fl < 32,
            sl < 8,
        ensures
            r == self.head_of(fl as int, sl as int),
    {
        self.index.free_heads[fl as usize][sl as usize]
    }

    /// The bytes of the arena.
    pub closed spec fn arena(&self) -> Seq<u8> {
        self.mem@
    }

    /// The bytes of the arena, tags and links and payloads.
    pub fn bytes(&self) -> (r: &Vec<u8>)
        ensures
            r@ == self.arena(),
    {
        &self.mem
    }

    /// The tag word in the head of the block at `h`.
    pub fn head_tag(&self, h: u32) -> (r: u32)
        requires
            self.wf(),
            self@.is_block(h as int),
        ensures
            r == self.head_word(h as int),
    {
        proof {
            assert(block_ok(self.capacity as int, self.blocks@, self.pred@, h as int));
        }
        read_word(&self.mem, h)
    }

    /// The tag word in the tail of the block at `h`.
    pub fn tail_tag(&self, h: u32) -> (r: u32)
        requires
            self.wf(),
            self@.is_block(h as int),
        ensures
            r == self.tail_word(h as int),
    {
        proof {
            lemma_tag_fields(self.mem@, self.capacity as int, self.blocks@, self.pred@, h as int);
        }
        let tag = read_word(&self.mem, h);
        let size: u32 = tag & SIZE_MASK;
        read_word(&self.mem, h + BLOCK_HEAD_SIZE + size)
    }

    /// The two links `(prev, next)` in the payload of the block at `h`.
    pub fn links(&self, h: u32) -> (r: (u32, u32))
        requires
            self.wf(),
            self@.is_block(h as int),
        ensures
            r.0 == self.prev_link(h as int),
            r.1 == self.next_link(h as int),
    {
        proof {
            assert(block_ok(self.capacity as int, self.blocks@, self.pred@, h as int));
            lemma_pack_links(word_at(self.mem@, h + 4), word_at(self.mem@, h + 8));
        }
        load_free_head(&self.mem, h).link_offsets()
    }

    /// Whether `offset` is the offset of a block that is allocated now: what
    /// `deallocate` asks of its argument.
    pub fn is_allocated(&self, offset: u32) -> (r: bool)
        requires
            self.wf(),
        ensures
            r == (self@.is_block(offset as int) && self@.blocks[offset as int].used),
    {
        let ghost cap = self.capacity as int;
        let ghost blocks = self.blocks@;
        let ghost pred = self.pred@;
        let mut at: u32 = 0;
        while at < offset
            invariant
                self.wf(),
                cap == self.capacity,
                blocks == self.blocks@,
                pred == self.pred@,
                blocks.contains_key(at as int),
                at <= offset,
            decreases offset - at,
        {
            proof {
                lemma_tag_fields(self.mem@, cap, blocks, pred, at as int);
                if blocks.contains_key(offset as int) {
                    assert(apart(blocks, at as int, offset as int));
                }
            }
            let tag = read_word(&self.mem, at);
            let size: u32 = tag & SIZE_MASK;
            let next: u32 = at + BLOCK_META_SIZE + size;
            if next > offset || next == self.capacity {
                proof {
                    if blocks.contains_key(offset as int) {
                        assert(block_ok(cap, blocks, pred, offset as int));
                    }
                }
                return false;
            }
            at = next;
        }
        proof {
            lemma_tag_fields(self.mem@, cap, blocks, pred, at as int);
        }
        let tag = read_word(&self.mem, at);
        tag & USED != 0
    }
}

} // verus!
