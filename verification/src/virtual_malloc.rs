//! An allocator over an arena that lies elsewhere: it hands out offsets and
//! keeps the free and the allocated blocks in two hash maps by their offsets.
//! A request is served from any free block that holds it.

use std::collections::HashMap;
use vstd::prelude::*;

use rustc_hash::FxBuildHasher;

use crate::model::Block;
use crate::simple::{
    apart, block_ok, lemma_before_is_pred, lemma_release, lemma_take, merged_blocks, merged_end,
    merged_pred, merged_start, space_before, taken_blocks, taken_pred, tiling, FitState,
};

verus! {

/// The hasher of the two maps.
#[verifier::external_type_specification]
#[verifier::external_body]
pub struct ExFxBuildHasher(FxBuildHasher);

/// What a map keeps for a block: its size, and for an allocated block the
/// size of the free block right before it.
#[derive(Debug, Clone, Copy, PartialEq, Eq, Structural)]
pub struct VirtualMemSlot {
    pub size: usize,
    pub prev_free: usize,
}

/// The hash map of the blocks by their offsets.
pub type SlotMap = HashMap<usize, VirtualMemSlot, FxBuildHasher>;

/// Why a call was refused.
#[derive(Debug, Clone, Copy, PartialEq, Eq, Structural)]
pub enum MallocError {
    OutOfMemory,
    InvalidAllocation,
}

/// A request for `size` bytes.
#[derive(Debug, Clone, Copy, PartialEq, Eq, Structural)]
pub struct SimpleAllocationRequest {
    pub size: usize,
}

/// An allocation: the offset at which its bytes start.
#[derive(Debug, Clone, Copy, PartialEq, Eq, Structural)]
pub struct SimpleAllocation {
    pub offset: usize,
}

/// An allocator of ranges of an arena of `arena_size` bytes that starts at
/// offset `arena_offset`.
pub trait VirtualMalloc: Sized {
    type AllocationRequest: Copy + Clone;

    type Allocation: Copy + Clone;

    /// What holds of the allocator between any two calls.
    spec fn valid(&self) -> bool;

    /// Whether a request is one that `allocate` takes.
    spec fn accepts(request: Self::AllocationRequest) -> bool;

    /// An allocator for the arena of `arena_size` bytes at `arena_offset`.
    fn new(arena_size: usize, arena_offset: usize) -> (r: Self)
        requires
            arena_size > 0,
            arena_size + arena_offset <= usize::MAX,
        ensures
            r.valid(),
    ;

    /// Serves a request, or refuses it where the arena has no room for it.
    fn allocate(&mut self, alloc_request: Self::AllocationRequest) -> (r: Result<
        Self::Allocation,
        MallocError,
    >)
        requires
            old(self).valid(),
            Self::accepts(alloc_request),
        ensures
            final(self).valid(),
    ;

    /// Takes an allocation back, or refuses what is no allocation of its
    /// own.
    fn free(&mut self, allocation: Self::Allocation) -> (r: Result<(), MallocError>)
        requires
            old(self).valid(),
        ensures
            final(self).valid(),
    ;

    /// Forgets all allocations.
    fn clear(&mut self)
        requires
            old(self).valid(),
        ensures
            final(self).valid(),
    ;

    /// The size of the arena.
    fn total_size(&self) -> (r: usize)
        requires
            self.valid(),
    ;

    /// The bytes that are free.
    fn available_size(&self) -> (r: usize)
        requires
            self.valid(),
    ;

    /// The number of free ranges.
    fn available_count(&self) -> (r: usize)
        requires
            self.valid(),
    ;

    /// The bytes that are allocated.
    fn used_size(&self) -> (r: usize)
        requires
            self.valid(),
    ;

    /// The number of allocations.
    fn used_count(&self) -> (r: usize)
        requires
            self.valid(),
    ;
}

/// `rustc_hash::FxHashMap::default`: a map without entries.
#[verifier::external_body]
fn fx_new() -> (m: SlotMap)
    ensures
        forall|k: usize| !m@.contains_key(k),
{
    HashMap::default()
}

/// `HashMap::insert` on an `FxHashMap`: afterwards the map has `slot` at
/// `key` and every other entry as before.
#[verifier::external_body]
fn fx_insert(m: &mut SlotMap, key: usize, slot: VirtualMemSlot)
    ensures
        final(m)@ == old(m)@.insert(key, slot),
{
    m.insert(key, slot);
}

/// `HashMap::remove` on an `FxHashMap`: returns the entry at `key`, if there
/// is one, and afterwards the map has none there and every other entry as
/// before.
#[verifier::external_body]
fn fx_remove(m: &mut SlotMap, key: usize) -> (r: Option<VirtualMemSlot>)
    ensures
        final(m)@ == old(m)@.remove(key),
        r == (if old(m)@.contains_key(key) {
            Some(old(m)@[key])
        } else {
            None
        }),
{
    m.remove(&key)
}

/// `HashMap::get` on an `FxHashMap`: a copy of the entry at `key`, if there
/// is one.
#[verifier::external_body]
fn fx_get(m: &SlotMap, key: usize) -> (r: Option<VirtualMemSlot>)
    ensures
        r == (if m@.contains_key(key) {
            Some(m@[key])
        } else {
            None
        }),
{
    m.get(&key).copied()
}

/// `HashMap::clear` on an `FxHashMap`: afterwards the map has no entry.
#[verifier::external_body]
fn fx_clear(m: &mut SlotMap)
    ensures
        forall|k: usize| !final(m)@.contains_key(k),
{
    m.clear();
}

/// `HashMap::keys` on an `FxHashMap`, collected: every key of the map once,
/// in the order in which the map is walked, of which nothing is said.
#[verifier::external_body]
fn fx_keys(m: &SlotMap) -> (r: Vec<usize>)
    ensures
        r@.no_duplicates(),
        forall|k: usize| r@.contains(k) <==> m@.contains_key(k),
{
    m.keys().copied().collect()
}

/// What the allocator holds: where the arena starts, its size, and its
/// blocks by their offsets from the start of the arena.
pub struct PoolState {
    pub base: int,
    pub capacity: int,
    pub blocks: Map<int, Block>,
}

impl PoolState {
    /// Whether a block starts `h` bytes into the arena.
    pub open spec fn is_block(self, h: int) -> bool {
        self.blocks.contains_key(h)
    }

    /// The state with the first `size` bytes of the free block at `h`
    /// allocated.
    pub open spec fn taken(self, h: int, size: int) -> PoolState {
        PoolState {
            base: self.base,
            capacity: self.capacity,
            blocks: taken_blocks(self.blocks, h, size),
        }
    }

    /// The state with the allocated block at `h` freed and merged with its
    /// free neighbours.
    pub open spec fn released(self, h: int) -> PoolState {
        PoolState {
            base: self.base,
            capacity: self.capacity,
            blocks: (FitState {
                capacity: self.capacity,
                blocks: self.blocks,
                order: Seq::empty(),
            }).deallocate(h).blocks,
        }
    }

    /// The state without any block.
    pub open spec fn cleared(self) -> PoolState {
        PoolState { base: self.base, capacity: self.capacity, blocks: Map::empty() }
    }
}

/// The maps hold what the model says: the one the free blocks with their
/// sizes, the other the allocated blocks with their sizes and the free space
/// before each.
pub open spec fn maps_ok(
    free: Map<usize, VirtualMemSlot>,
    used: Map<usize, VirtualMemSlot>,
    base: int,
    blocks: Map<int, Block>,
    pred: Map<int, int>,
) -> bool {
    &&& forall|k: usize| #[trigger]
        free.contains_key(k) <==> blocks.contains_key(k - base) && !blocks[k - base].used
    &&& forall|k: usize|
        free.contains_key(k) ==> (#[trigger] free[k]) == (VirtualMemSlot {
            size: blocks[k - base].size as usize,
            prev_free: 0,
        })
    &&& forall|k: usize| #[trigger]
        used.contains_key(k) <==> blocks.contains_key(k - base) && blocks[k - base].used
    &&& forall|k: usize|
        used.contains_key(k) ==> (#[trigger] used[k]) == (VirtualMemSlot {
            size: blocks[k - base].size as usize,
            prev_free: space_before(blocks, pred, k - base) as usize,
        })
}

/// The allocator over two hash maps.
pub struct VMallocFirstFit {
    pub arena_size: usize,
    pub arena_offset: usize,
    free_blocks: SlotMap,
    used_blocks: SlotMap,
    blocks: Ghost<Map<int, Block>>,
    pred: Ghost<Map<int, int>>,
}

impl VMallocFirstFit {
    /// The allocator's state.
    pub closed spec fn view(&self) -> PoolState {
        PoolState {
            base: self.arena_offset as int,
            capacity: self.arena_size as int,
            blocks: self.blocks@,
        }
    }

    /// The maps agree with a tiling of the arena, or all is cleared.
    pub closed spec fn wf(&self) -> bool {
        &&& self.arena_size + self.arena_offset <= usize::MAX
        &&& maps_ok(
            self.free_blocks@,
            self.used_blocks@,
            self.arena_offset as int,
            self.blocks@,
            self.pred@,
        )
        &&& (self.blocks@ == Map::<int, Block>::empty() || tiling(
            self.arena_size as int,
            self.blocks@,
            self.pred@,
        ))
        &&& forall|h: int| #[trigger] self.blocks@.contains_key(h) ==> 0 <= h < self.arena_size
    }

    /// The offset of a free block that holds `size` bytes: the first one
    /// that the walk of the map comes by.
    fn find_fit(&self, size: usize) -> (r: Option<usize>)
        ensures
            match r {
                Some(k) => self.free_blocks@.contains_key(k) && self.free_blocks@[k].size >= size,
                None => forall|k: usize|
                    self.free_blocks@.contains_key(k) ==> (#[trigger] self.free_blocks@[k]).size
                        < size,
            },
    {
        let keys = fx_keys(&self.free_blocks);
        let mut i: usize = 0;
        while i < keys.len()
            invariant
                i <= keys.len(),
                forall|k: usize| keys@.contains(k) <==> self.free_blocks@.contains_key(k),
                forall|j: int|
                    0 <= j < i ==> self.free_blocks@[#[trigger] keys@[j]].size < size,
            decreases keys.len() - i,
        {
            let key = keys[i];
            proof {
                assert(keys@.contains(keys@[i as int]));
            }
            match fx_get(&self.free_blocks, key) {
                Some(slot) => {
                    if slot.size >= size {
                        return Some(key);
                    }
                },
                None => {},
            }
            i += 1;
        }
        proof {
            assert forall|k: usize| self.free_blocks@.contains_key(k) implies (#[trigger] self.free_blocks@[k]).size
                < size by {
                assert(keys@.contains(k));
                let j = choose|j: int| 0 <= j < keys@.len() && keys@[j] == k;
                assert(self.free_blocks@[keys@[j]].size < size);
            }
        }
        None
    }

    /// Writes `space` as the free space before the allocated block at
    /// `offset`, if there is an allocated block; says whether there is.
    fn set_prev_free(&mut self, offset: usize, space: usize) -> (r: bool)
        ensures
            r == old(self).used_blocks@.contains_key(offset),
            final(self).arena_size == old(self).arena_size,
            final(self).arena_offset == old(self).arena_offset,
            final(self).free_blocks == old(self).free_blocks,
            final(self).blocks == old(self).blocks,
            final(self).pred == old(self).pred,
            final(self).used_blocks@ == (if r {
                old(self).used_blocks@.insert(
                    offset,
                    VirtualMemSlot { size: old(self).used_blocks@[offset].size, prev_free: space },
                )
            } else {
                old(self).used_blocks@
            }),
    {
        match fx_get(&self.used_blocks, offset) {
            Some(mut next_slot) => {
                next_slot.prev_free = space;
                fx_insert(&mut self.used_blocks, offset, next_slot);
                true
            },
            None => false,
        }
    }

    /// Allocates the first `size` bytes of the free block at `slot_offset`.
    pub fn allocate_at(&mut self, slot_offset: usize, size: usize)
        requires
            old(self).wf(),
            size > 0,
            old(self)@.is_block(slot_offset - old(self)@.base),
            !old(self)@.blocks[slot_offset - old(self)@.base].used,
            old(self)@.blocks[slot_offset - old(self)@.base].size >= size,
        ensures
            final(self).wf(),
            final(self)@ == old(self)@.taken(slot_offset - old(self)@.base, size as int),
    {
        let ghost base = self.arena_offset as int;
        let ghost cap = self.arena_size as int;
        let ghost blocks = self.blocks@;
        let ghost pred = self.pred@;
        let ghost h = slot_offset - base;
        proof {
            assert(blocks.contains_key(h));
            assert(block_ok(cap, blocks, pred, h));
            lemma_take(cap, blocks, pred, h, size as int);
            assert(self.free_blocks@.contains_key(slot_offset));
        }
        let removed = fx_remove(&mut self.free_blocks, slot_offset);
        let mut slot = removed.unwrap();
        let leftover_size = slot.size - size;
        if leftover_size != 0 {
            let leftover_free = VirtualMemSlot { size: leftover_size, prev_free: 0 };
            fx_insert(&mut self.free_blocks, slot_offset + size, leftover_free);
        }
        self.set_prev_free(slot_offset + slot.size, leftover_size);
        slot.size = size;
        fx_insert(&mut self.used_blocks, slot_offset, slot);
        proof {
            let blocks2 = taken_blocks(blocks, h, size as int);
            let pred2 = taken_pred(blocks, pred, h, size as int);
            self.blocks = Ghost(blocks2);
            self.pred = Ghost(pred2);
            let n = h + blocks[h].size;
            assert forall|k: usize| #[trigger]
                self.free_blocks@.contains_key(k) <==> blocks2.contains_key(k - base)
                && !blocks2[k - base].used by {
                assert(old(self).free_blocks@.contains_key(k) <==> blocks.contains_key(k - base)
                    && !blocks[k - base].used);
            }
            assert forall|k: usize| self.free_blocks@.contains_key(k) implies (#[trigger] self.free_blocks@[k])
                == (VirtualMemSlot { size: blocks2[k - base].size as usize, prev_free: 0 }) by {
                if k - base != h + size {
                    assert(old(self).free_blocks@.contains_key(k));
                }
            }
            assert forall|k: usize| #[trigger]
                self.used_blocks@.contains_key(k) <==> blocks2.contains_key(k - base)
                && blocks2[k - base].used by {
                assert(old(self).used_blocks@.contains_key(k) <==> blocks.contains_key(k - base)
                    && blocks[k - base].used);
                if n < cap {
                    assert(old(self).used_blocks@.contains_key((n + base) as usize));
                } else {
                    if blocks.contains_key(n) {
                        assert(block_ok(cap, blocks, pred, n));
                    }
                }
            }
            assert forall|k: usize| self.used_blocks@.contains_key(k) implies (#[trigger] self.used_blocks@[k])
                == (VirtualMemSlot {
                size: blocks2[k - base].size as usize,
                prev_free: space_before(blocks2, pred2, k - base) as usize,
            }) by {
                let g = k - base;
                if g != h {
                    assert(old(self).used_blocks@.contains_key(k));
                    assert(blocks.contains_key(g) && blocks[g].used);
                    assert(apart(blocks, g, h));
                    assert(block_ok(cap, blocks, pred, g));
                    if g != n {
                        assert(space_before(blocks2, pred2, g) == space_before(blocks, pred, g));
                    }
                }
            }
            assert forall|g: int| #[trigger] blocks2.contains_key(g) implies 0 <= g < cap by {
                assert(block_ok(cap, blocks2, pred2, g));
            }
        }
    }

    /// Frees the allocated block at `offset` and merges it with its free
    /// neighbours.
    pub fn free_at(&mut self, offset: usize)
        requires
            old(self).wf(),
            old(self)@.is_block(offset - old(self)@.base),
            old(self)@.blocks[offset - old(self)@.base].used,
        ensures
            final(self).wf(),
            final(self)@ == old(self)@.released(offset - old(self)@.base),
    {
        let ghost base = self.arena_offset as int;
        let ghost cap = self.arena_size as int;
        let ghost blocks = self.blocks@;
        let ghost pred = self.pred@;
        let ghost h = offset - base;
        let ghost n = h + blocks[h].size;
        let ghost p = pred[h];
        let ghost start = merged_start(blocks, pred, h);
        let ghost end = merged_end(cap, blocks, h);
        proof {
            assert(blocks.contains_key(h));
            assert(block_ok(cap, blocks, pred, h));
            if n < cap {
                assert(block_ok(cap, blocks, pred, n));
                assert(apart(blocks, h, n));
            }
            if h > 0 {
                assert(block_ok(cap, blocks, pred, p));
                lemma_before_is_pred(cap, blocks, pred, Seq::empty(), h);
            }
            if blocks.contains_key(end) {
                assert(block_ok(cap, blocks, pred, end));
            }
            lemma_release(cap, blocks, pred, h);
            assert(self.used_blocks@.contains_key(offset));
        }
        let removed = fx_remove(&mut self.used_blocks, offset);
        let mut slot = removed.unwrap();
        let next_index = offset + slot.size;
        slot.size += slot.prev_free;
        let greedy_index = offset - slot.prev_free;
        fx_remove(&mut self.free_blocks, greedy_index);
        slot.prev_free = 0;
        let next_is_used = self.set_prev_free(next_index, slot.size);
        if !next_is_used {
            match fx_remove(&mut self.free_blocks, next_index) {
                Some(s) => {
                    slot.size += s.size;
                    self.set_prev_free(next_index + s.size, slot.size);
                },
                None => {},
            }
        }
        fx_insert(&mut self.free_blocks, greedy_index, slot);
        proof {
            let blocks2 = merged_blocks(cap, blocks, pred, h);
            let pred2 = merged_pred(cap, blocks, pred, h);
            self.blocks = Ghost(blocks2);
            self.pred = Ghost(pred2);
            assert(block_ok(cap, blocks2, pred2, start));
            assert forall|k: usize| #[trigger]
                self.free_blocks@.contains_key(k) <==> blocks2.contains_key(k - base)
                && !blocks2[k - base].used by {
                assert(old(self).free_blocks@.contains_key(k) <==> blocks.contains_key(k - base)
                    && !blocks[k - base].used);
                if blocks.contains_key(k - base) {
                    assert(apart(blocks, k - base, h));
                }
            }
            assert forall|k: usize| self.free_blocks@.contains_key(k) implies (#[trigger] self.free_blocks@[k])
                == (VirtualMemSlot { size: blocks2[k - base].size as usize, prev_free: 0 }) by {
                if k - base != start {
                    assert(old(self).free_blocks@.contains_key(k));
                }
            }
            assert forall|k: usize| #[trigger]
                self.used_blocks@.contains_key(k) <==> blocks2.contains_key(k - base)
                && blocks2[k - base].used by {
                assert(old(self).used_blocks@.contains_key(k) <==> blocks.contains_key(k - base)
                    && blocks[k - base].used);
                if blocks.contains_key(k - base) {
                    assert(apart(blocks, k - base, h));
                }
            }
            assert forall|k: usize| self.used_blocks@.contains_key(k) implies (#[trigger] self.used_blocks@[k])
                == (VirtualMemSlot {
                size: blocks2[k - base].size as usize,
                prev_free: space_before(blocks2, pred2, k - base) as usize,
            }) by {
                let g = k - base;
                assert(old(self).used_blocks@.contains_key(k));
                assert(blocks.contains_key(g) && blocks[g].used);
                assert(apart(blocks, g, h));
                assert(block_ok(cap, blocks, pred, g));
                if g != end {
                    assert(space_before(blocks2, pred2, g) == space_before(blocks, pred, g));
                }
            }
            assert forall|g: int| #[trigger] blocks2.contains_key(g) implies 0 <= g < cap by {
                assert(block_ok(cap, blocks2, pred2, g));
            }
            assert(self@.blocks =~= old(self)@.released(h).blocks);
        }
    }
}

impl VirtualMalloc for VMallocFirstFit {
    type AllocationRequest = SimpleAllocationRequest;

    type Allocation = SimpleAllocation;

    closed spec fn valid(&self) -> bool {
        self.wf()
    }

    open spec fn accepts(request: SimpleAllocationRequest) -> bool {
        request.size > 0
    }

    /// An allocator for the arena of `arena_size` bytes at `arena_offset`,
    /// all of it one free block.
    fn new(arena_size: usize, arena_offset: usize) -> (r: Self)
        ensures
            r@.base == arena_offset,
            r@.capacity == arena_size,
            r@.blocks == Map::<int, Block>::empty().insert(
                0,
                Block { size: arena_size as int, used: false },
            ),
    {
        let initial_slot = VirtualMemSlot { size: arena_size, prev_free: 0 };
        let mut free_blocks = fx_new();
        fx_insert(&mut free_blocks, arena_offset, initial_slot);
        let ghost blocks = Map::<int, Block>::empty().insert(
            0,
            Block { size: arena_size as int, used: false },
        );
        let r = Self {
            arena_size,
            arena_offset,
            free_blocks,
            used_blocks: fx_new(),
            blocks: Ghost(blocks),
            pred: Ghost(Map::empty()),
        };
        proof {
            assert(block_ok(arena_size as int, blocks, Map::empty(), 0));
            assert forall|h1: int, h2: int|
                blocks.contains_key(h1) && blocks.contains_key(h2) implies #[trigger] apart(
                blocks,
                h1,
                h2,
            ) by {}
        }
        r
    }

    /// Allocates the bytes of the request from a free block that holds
    /// them, whichever the walk of the map comes by first. Refuses without
    /// any change where no free block holds them.
    fn allocate(&mut self, allocation_request: SimpleAllocationRequest) -> (r: Result<
        SimpleAllocation,
        MallocError,
    >)
        ensures
            match r {
                Ok(allocation) => {
                    let h = allocation.offset - old(self)@.base;
                    &&& old(self)@.is_block(h)
                    &&& !old(self)@.blocks[h].used
                    &&& old(self)@.blocks[h].size >= allocation_request.size
                    &&& final(self)@ == old(self)@.taken(h, allocation_request.size as int)
                },
                Err(e) => {
                    &&& e == MallocError::OutOfMemory
                    &&& final(self)@ == old(self)@
                    &&& forall|h: int|
                        old(self)@.is_block(h) && !(#[trigger] old(self)@.blocks[h]).used
                            ==> old(self)@.blocks[h].size < allocation_request.size
                },
            },
    {
        let available_slot = self.find_fit(allocation_request.size);
        let slot_offset = match available_slot {
            Some(key) => key,
            None => {
                proof {
                    assert forall|h: int|
                        self@.is_block(h) && !(#[trigger] self@.blocks[h]).used implies self@.blocks[h].size
                        < allocation_request.size by {
                        assert(self.blocks@.contains_key(h));
                        assert(block_ok(self.arena_size as int, self.blocks@, self.pred@, h));
                        let k = (h + self.arena_offset) as usize;
                        assert(self.free_blocks@.contains_key(k));
                        assert(self.free_blocks@[k].size < allocation_request.size);
                    }
                }
                return Err(MallocError::OutOfMemory);
            },
        };
        proof {
            let h = slot_offset - self.arena_offset;
            assert(self.free_blocks@.contains_key(slot_offset));
            assert(self.blocks@.contains_key(h));
            assert(block_ok(self.arena_size as int, self.blocks@, self.pred@, h));
            assert(self.free_blocks@[slot_offset].size == self.blocks@[h].size);
        }
        self.allocate_at(slot_offset, allocation_request.size);
        Ok(SimpleAllocation { offset: slot_offset })
    }

    /// Frees an allocation and merges its block with the free neighbours.
    /// Refuses without any change where no allocated block starts at the
    /// offset.
    fn free(&mut self, allocation: SimpleAllocation) -> (r: Result<(), MallocError>)
        ensures
            match r {
                Ok(_) => {
                    let h = allocation.offset - old(self)@.base;
                    &&& old(self)@.is_block(h)
                    &&& old(self)@.blocks[h].used
                    &&& final(self)@ == old(self)@.released(h)
                },
                Err(e) => {
                    &&& e == MallocError::InvalidAllocation
                    &&& final(self)@ == old(self)@
                    &&& !(old(self)@.is_block(allocation.offset - old(self)@.base)
                        && old(self)@.blocks[allocation.offset - old(self)@.base].used)
                },
            },
    {
        match fx_get(&self.used_blocks, allocation.offset) {
            Some(_) => {
                self.free_at(allocation.offset);
                Ok(())
            },
            None => Err(MallocError::InvalidAllocation),
        }
    }

    /// Forgets every block, free or allocated.
    fn clear(&mut self)
        ensures
            final(self)@ == old(self)@.cleared(),
    {
        fx_clear(&mut self.free_blocks);
        fx_clear(&mut self.used_blocks);
        proof {
            self.blocks = Ghost(Map::empty());
        }
    }

    /// The size of the arena.
    fn total_size(&self) -> (r: usize)
        ensures
            r == self@.capacity,
    {
        self.arena_size
    }

    /// The sum of the sizes of the free blocks.
    fn available_size(&self) -> (r: usize)
        ensures
            self.sums_to(r as int, false),
    {
        self.sum_sizes(false)
    }

    /// The number of free blocks.
    fn available_count(&self) -> (r: usize)
        ensures
            self.counts_to(r as int, false),
    {
        let keys = fx_keys(&self.free_blocks);
        proof {
            self.lemma_keys_are_blocks(keys@, false);
        }
        keys.len()
    }

    /// The sum of the sizes of the allocated blocks.
    fn used_size(&self) -> (r: usize)
        ensures
            self.sums_to(r as int, true),
    {
        self.sum_sizes(true)
    }

    /// The number of allocated blocks.
    fn used_count(&self) -> (r: usize)
        ensures
            self.counts_to(r as int, true),
    {
        let keys = fx_keys(&self.used_blocks);
        proof {
            self.lemma_keys_are_blocks(keys@, true);
        }
        keys.len()
    }
}

/// `list` names each block that is allocated, or each that is free, once
/// and nothing else.
pub open spec fn names_all(blocks: Map<int, Block>, list: Seq<int>, used: bool) -> bool {
    &&& list.no_duplicates()
    &&& forall|h: int| list.contains(h) <==> blocks.contains_key(h) && blocks[h].used == used
}

impl VMallocFirstFit {
    /// `total` is the sum of the sizes of the allocated blocks, or of the
    /// free ones: the sum over a list that names each of them once.
    pub closed spec fn sums_to(&self, total: int, used: bool) -> bool {
        exists|list: Seq<int>| #[trigger]
            names_all(self.blocks@, list, used) && total == crate::model::list_bytes(
                self.blocks@,
                list,
            )
    }

    /// `count` is the number of the allocated blocks, or of the free ones:
    /// the length of a list that names each of them once.
    pub closed spec fn counts_to(&self, count: int, used: bool) -> bool {
        exists|list: Seq<int>| #[trigger] names_all(self.blocks@, list, used) && count == list.len()
    }

    /// The offsets into the arena of the keys of a map.
    pub closed spec fn offsets(&self, keys: Seq<usize>) -> Seq<int> {
        keys.map_values(|k: usize| k - self.arena_offset)
    }

    /// The keys of one of the two maps, as offsets into the arena, name each
    /// of its blocks once and nothing else.
    proof fn lemma_keys_are_blocks(&self, keys: Seq<usize>, used: bool)
        requires
            self.wf(),
            keys.no_duplicates(),
            forall|k: usize|
                keys.contains(k) <==> (if used {
                    self.used_blocks@.contains_key(k)
                } else {
                    self.free_blocks@.contains_key(k)
                }),
        ensures
            names_all(self.blocks@, self.offsets(keys), used),
            self.offsets(keys).len() == keys.len(),
            self.counts_to(keys.len() as int, used),
    {
        let list = self.offsets(keys);
        let base = self.arena_offset as int;
        assert forall|i: int, j: int| 0 <= i < list.len() && 0 <= j < list.len() && i
            != j implies list[i] != list[j] by {
            assert(keys[i] != keys[j]);
        }
        assert forall|h: int| list.contains(h) <==> self.blocks@.contains_key(h)
            && self.blocks@[h].used == used by {
            if list.contains(h) {
                let i = choose|i: int| 0 <= i < list.len() && list[i] == h;
                assert(keys.contains(keys[i]));
            }
            if self.blocks@.contains_key(h) && self.blocks@[h].used == used {
                let k = (h + base) as usize;
                assert(keys.contains(k));
                let i = choose|i: int| 0 <= i < keys.len() && keys[i] == k;
                assert(list[i] == h);
            }
        }
    }

    /// The sum of the sizes in one of the two maps.
    fn sum_sizes(&self, used: bool) -> (r: usize)
        requires
            self.wf(),
        ensures
            self.sums_to(r as int, used),
    {
        let keys = if used {
            fx_keys(&self.used_blocks)
        } else {
            fx_keys(&self.free_blocks)
        };
        let ghost cap = self.arena_size as int;
        let ghost blocks = self.blocks@;
        let ghost list = self.offsets(keys@);
        proof {
            self.lemma_keys_are_blocks(keys@, used);
        }
        let mut total: usize = 0;
        let mut i: usize = 0;
        while i < keys.len()
            invariant
                self.wf(),
                cap == self.arena_size,
                blocks == self.blocks@,
                list == self.offsets(keys@),
                names_all(blocks, list, used),
                list.len() == keys.len(),
                forall|k: usize|
                    keys@.contains(k) <==> (if used {
                        self.used_blocks@.contains_key(k)
                    } else {
                        self.free_blocks@.contains_key(k)
                    }),
                i <= keys.len(),
                total == crate::model::list_bytes(blocks, list.subrange(0, i as int)),
            decreases keys.len() - i,
        {
            let key = keys[i];
            proof {
                assert(keys@.contains(keys@[i as int]));
                let seen = list.subrange(0, i + 1);
                assert(seen.drop_last() =~= list.subrange(0, i as int));
                self.lemma_partial_sum(list, i + 1, used);
                let h = list[i as int];
                assert(h == key - self.arena_offset);
                assert(list.contains(h));
                assert(blocks.contains_key(h));
                assert(block_ok(cap, blocks, self.pred@, h));
                if used {
                    assert(self.used_blocks@[key].size == blocks[h].size);
                } else {
                    assert(self.free_blocks@[key].size == blocks[h].size);
                }
            }
            let slot = if used {
                fx_get(&self.used_blocks, key)
            } else {
                fx_get(&self.free_blocks, key)
            };
            total += slot.unwrap().size;
            i += 1;
        }
        proof {
            assert(list.subrange(0, i as int) =~= list);
        }
        total
    }

    /// The blocks that the first `n` names of `list` name hold no more than
    /// the arena.
    proof fn lemma_partial_sum(&self, list: Seq<int>, n: int, used: bool)
        requires
            self.wf(),
            names_all(self.blocks@, list, used),
            0 <= n <= list.len(),
        ensures
            0 <= crate::model::list_bytes(self.blocks@, list.subrange(0, n)) <= self.arena_size,
    {
        let cap = self.arena_size as int;
        let blocks = self.blocks@;
        let pred = self.pred@;
        let seen = list.subrange(0, n);
        if n > 0 {
            assert(list.contains(list[0]));
            assert(blocks.contains_key(list[0]));
            assert(tiling(cap, blocks, pred));
            assert(crate::measure::packed(cap, blocks, seen, 0)) by {
                assert forall|a: int| 0 <= a < seen.len() implies 0 <= #[trigger] seen[a]
                    && blocks[seen[a]].size >= 0 && seen[a] + 0 + blocks[seen[a]].size <= cap by {
                    assert(list.contains(list[a]));
                    assert(block_ok(cap, blocks, pred, seen[a]));
                }
                assert forall|a: int, b: int| 0 <= a < b < seen.len() implies #[trigger] seen[a] + 0
                    + blocks[seen[a]].size <= #[trigger] seen[b] || seen[b] + 0
                    + blocks[seen[b]].size <= seen[a] by {
                    assert(list.contains(list[a]));
                    assert(list.contains(list[b]));
                    assert(list[a] != list[b]);
                    assert(apart(blocks, seen[a], seen[b]));
                }
            }
            crate::measure::lemma_weight_bounded(cap, blocks, seen, 0);
            assert forall|a: int| 0 <= a < seen.len() implies blocks.contains_key(
                #[trigger] seen[a],
            ) by {
                assert(list.contains(list[a]));
            }
            crate::simple::lemma_weight_is_bytes(cap, blocks, seen, pred);
        } else {
            assert(seen =~= Seq::<int>::empty());
        }
    }
}

} // verus!
