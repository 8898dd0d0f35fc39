//! An early first-fit allocator with two tables of blocks and a list of the
//! offsets of the free ones. It frees a block only where the block after it
//! is free or the arena ends.

use vstd::prelude::*;

verus! {

/// Why a call was refused.
#[derive(Debug, Clone, Copy, PartialEq, Eq, Structural)]
pub enum MallocError {
    OutOfMemory,
    InvalidAllocation,
}

/// A block as the tables keep it: its size and the space before it.
#[derive(Debug, Clone, Copy, PartialEq, Eq, Structural)]
pub struct MemBlock {
    pub size: usize,
    pub prev_space: usize,
}

impl MemBlock {
    /// A block of `size` bytes with `prev_space` bytes before it.
    pub fn new(size: usize, prev_space: usize) -> (r: Self)
        ensures
            r == (MemBlock { size, prev_space }),
    {
        MemBlock { size, prev_space }
    }
}

/// `list` without its element `i`, the last element put in its place.
pub open spec fn swap_removed(list: Seq<usize>, i: int) -> Seq<usize> {
    list.update(i, list.last()).drop_last()
}

/// What the allocator holds: the offsets of the free blocks in the order in
/// which a request tries them, and for each offset of the arena an entry in
/// the table of free blocks and one in the table of allocated blocks.
pub struct MallocState {
    pub capacity: int,
    pub order: Seq<usize>,
    pub free: Seq<MemBlock>,
    pub used: Seq<MemBlock>,
}

impl MallocState {
    /// Both tables have an entry for each offset, every listed block lies in
    /// the arena, and no free entry has space before it.
    pub open spec fn wf(self) -> bool {
        &&& 0 < self.capacity <= usize::MAX
        &&& self.free.len() == self.capacity
        &&& self.used.len() == self.capacity
        &&& forall|i: int|
            0 <= i < self.order.len() ==> (#[trigger] self.order[i]) < self.capacity
                && self.order[i] + self.free[self.order[i] as int].size <= self.capacity
        &&& forall|j: int| 0 <= j < self.capacity ==> (#[trigger] self.free[j]).prev_space == 0
    }

    /// The state right after construction: one free block over the arena.
    pub open spec fn fresh(capacity: int) -> MallocState {
        MallocState {
            capacity,
            order: seq![0usize],
            free: Seq::new(capacity as nat, |j: int| MemBlock { size: 0, prev_space: 0 }).update(
                0,
                MemBlock { size: capacity as usize, prev_space: 0 },
            ),
            used: Seq::new(capacity as nat, |j: int| MemBlock { size: 0, prev_space: 0 }),
        }
    }

    /// The first position from `from` on in the order whose block holds
    /// `size` bytes; the length of the order where there is none.
    pub open spec fn first_fit(self, size: int, from: int) -> int
        decreases self.order.len() - from,
    {
        if from < 0 || from >= self.order.len() {
            self.order.len() as int
        } else if self.free[self.order[from] as int].size >= size {
            from
        } else {
            self.first_fit(size, from + 1)
        }
    }

    /// The first position from `from` on at which the order names `offset`;
    /// the length of the order where it does not.
    pub open spec fn position(self, offset: int, from: int) -> int
        decreases self.order.len() - from,
    {
        if from < 0 || from >= self.order.len() {
            self.order.len() as int
        } else if self.order[from] == offset {
            from
        } else {
            self.position(offset, from + 1)
        }
    }

    /// The state after `allocate(size)`, and what the call returns. The first
    /// listed block that holds `size` bytes gives its first `size` bytes; the
    /// allocated block after it is told the whole size of the free block as
    /// the space before it; what is left of the free block takes its place
    /// in the order.
    pub open spec fn allocate(self, size: int) -> (MallocState, Option<(usize, MemBlock)>) {
        let i = self.first_fit(size, 0);
        if i >= self.order.len() {
            (self, None)
        } else {
            let idx = self.order[i] as int;
            let block = self.free[idx];
            let next = idx + block.size;
            let used1 = if next != self.capacity {
                self.used.update(
                    next,
                    MemBlock { size: self.used[next].size, prev_space: block.size },
                )
            } else {
                self.used
            };
            let taken = MemBlock { size: size as usize, prev_space: block.prev_space };
            if block.size > size {
                (
                    MallocState {
                        capacity: self.capacity,
                        order: self.order.update(i, (idx + size) as usize),
                        free: self.free.update(
                            idx + size,
                            MemBlock { size: (block.size - size) as usize, prev_space: 0 },
                        ),
                        used: used1.update(idx, taken),
                    },
                    Some((idx as usize, taken)),
                )
            } else {
                (
                    MallocState {
                        capacity: self.capacity,
                        order: swap_removed(self.order, i),
                        free: self.free,
                        used: used1.update(idx, taken),
                    },
                    Some((idx as usize, taken)),
                )
            }
        }
    }

    /// Whether `free(addr)` can be served: the block and the space before it
    /// lie in the arena, and the block after it is listed as free, unless
    /// the arena ends there.
    pub open spec fn can_free(self, addr: int) -> bool {
        &&& 0 <= addr < self.capacity
        &&& self.used[addr].prev_space <= addr
        &&& addr + self.used[addr].size <= self.capacity
        &&& (addr + self.used[addr].size < self.capacity ==> self.position(
            addr + self.used[addr].size,
            0,
        ) < self.order.len())
    }

    /// The state after `free(addr)`. The block and the space before it
    /// become one free block that starts where that space starts. Where the
    /// arena ends behind the block, its offset goes to the end of the order;
    /// else the free block after is merged in too, and the new free block
    /// takes its place in the order.
    pub open spec fn release(self, addr: int) -> MallocState {
        let block = self.used[addr];
        let next = addr + block.size;
        let greedy = addr - block.prev_space;
        if next == self.capacity {
            MallocState {
                capacity: self.capacity,
                order: self.order.push(greedy as usize),
                free: self.free.update(
                    greedy,
                    MemBlock { size: (block.size + block.prev_space) as usize, prev_space: 0 },
                ),
                used: self.used,
            }
        } else {
            let after = self.free[next];
            MallocState {
                capacity: self.capacity,
                order: self.order.update(self.position(next, 0), greedy as usize),
                free: self.free.update(
                    greedy,
                    MemBlock {
                        size: (after.size + block.size + block.prev_space) as usize,
                        prev_space: after.prev_space,
                    },
                ),
                used: self.used,
            }
        }
    }
}

/// A first-fit allocator over an arena of `capacity` bytes.
pub struct Malloc {
    capacity: usize,
    free_blocks_indices: Vec<usize>,
    free_blocks: Vec<MemBlock>,
    used_blocks: Vec<MemBlock>,
}

/// A table of `n` blocks of size zero.
fn zero_table(n: usize) -> (v: Vec<MemBlock>)
    ensures
        v@ == Seq::new(n as nat, |j: int| MemBlock { size: 0, prev_space: 0 }),
{
    let mut v: Vec<MemBlock> = Vec::with_capacity(n);
    let mut i: usize = 0;
    while i < n
        invariant
            i <= n,
            v@ == Seq::new(i as nat, |j: int| MemBlock { size: 0, prev_space: 0 }),
        decreases n - i,
    {
        v.push(MemBlock::new(0, 0));
        i += 1;
        proof {
            assert(v@ =~= Seq::new(i as nat, |j: int| MemBlock { size: 0, prev_space: 0 }));
        }
    }
    v
}

impl Malloc {
    /// The allocator's state.
    pub closed spec fn view(&self) -> MallocState {
        MallocState {
            capacity: self.capacity as int,
            order: self.free_blocks_indices@,
            free: self.free_blocks@,
            used: self.used_blocks@,
        }
    }

    /// An allocator over an arena of `capacity` bytes, all of it one free
    /// block.
    pub fn new(capacity: usize) -> (r: Self)
        requires
            capacity > 0,
        ensures
            r@.wf(),
            r@ == MallocState::fresh(capacity as int),
    {
        let mut free_blocks = zero_table(capacity);
        free_blocks[0] = MemBlock::new(capacity, 0);
        let mut free_blocks_indices: Vec<usize> = Vec::with_capacity(capacity);
        free_blocks_indices.push(0);
        let r = Malloc {
            capacity,
            free_blocks_indices,
            free_blocks,
            used_blocks: zero_table(capacity),
        };
        proof {
            assert(r@.order =~= seq![0usize]);
        }
        r
    }

    /// Cuts `block` down to `target_size` bytes and returns what is left of
    /// it as a block of its own, if anything is.
    fn partition_leftover(block: &mut MemBlock, target_size: usize) -> (r: Option<MemBlock>)
        requires
            old(block).size >= target_size,
        ensures
            final(block).prev_space == old(block).prev_space,
            old(block).size > target_size ==> final(block).size == target_size && r == Some(
                MemBlock { size: (old(block).size - target_size) as usize, prev_space: 0 },
            ),
            old(block).size == target_size ==> final(block).size == target_size && r.is_none(),
    {
        let leftover_size = block.size - target_size;
        if leftover_size > 0 {
            block.size = target_size;
            let leftover_block = MemBlock::new(leftover_size, 0);
            Some(leftover_block)
        } else {
            None
        }
    }

    /// The first position in the order whose block holds `requested_size`
    /// bytes.
    fn find_first_fit(&self, requested_size: usize) -> (r: Option<usize>)
        requires
            self@.wf(),
        ensures
            match r {
                Some(i) => i < self@.order.len() && self@.first_fit(requested_size as int, 0) == i
                    && self@.free[self@.order[i as int] as int].size >= requested_size,
                None => self@.first_fit(requested_size as int, 0) >= self@.order.len(),
            },
    {
        let mut idx_i: usize = 0;
        while idx_i < self.free_blocks_indices.len()
            invariant
                self@.wf(),
                idx_i <= self.free_blocks_indices.len(),
                self@.first_fit(requested_size as int, 0) == self@.first_fit(
                    requested_size as int,
                    idx_i as int,
                ),
            decreases self.free_blocks_indices.len() - idx_i,
        {
            let idx = self.free_blocks_indices[idx_i];
            proof {
                assert(self@.order[idx_i as int] < self.capacity);
            }
            let block = self.free_blocks[idx];
            if block.size >= requested_size {
                return Some(idx_i);
            }
            idx_i += 1;
        }
        None
    }

    /// Allocates `requested_size` bytes from the first listed block that
    /// holds them; returns the offset and the block as it is kept.
    pub fn allocate(&mut self, requested_size: usize) -> (r: Result<(usize, MemBlock), MallocError>)
        requires
            old(self)@.wf(),
        ensures
            final(self)@.wf(),
            final(self)@ == old(self)@.allocate(requested_size as int).0,
            match r {
                Ok(found) => old(self)@.allocate(requested_size as int).1 == Some(found),
                Err(e) => e == MallocError::OutOfMemory && old(self)@.allocate(
                    requested_size as int,
                ).1.is_none(),
            },
    {
        let idx_i = match self.find_first_fit(requested_size) {
            Some(i) => i,
            None => {
                return Err(MallocError::OutOfMemory);
            },
        };
        let idx = self.free_blocks_indices[idx_i];
        proof {
            assert(self@.order[idx_i as int] < self.capacity);
        }
        let mut block = self.free_blocks[idx];
        let next_idx = idx + block.size;
        if next_idx != self.capacity {
            let mut next_block = self.used_blocks[next_idx];
            next_block.prev_space = block.size;
            self.used_blocks[next_idx] = next_block;
        }
        let leftover_block = Self::partition_leftover(&mut block, requested_size);
        match leftover_block {
            Some(leftover) => {
                let leftover_idx = idx + block.size;
                self.free_blocks[leftover_idx] = leftover;
                self.free_blocks_indices[idx_i] = leftover_idx;
            },
            None => {
                self.free_blocks_indices.swap_remove(idx_i);
            },
        }
        self.used_blocks[idx] = block;
        proof {
            let before = old(self)@;
            let after = self@;
            assert forall|i: int| 0 <= i < after.order.len() implies (#[trigger] after.order[i])
                < after.capacity && after.order[i] + after.free[after.order[i] as int].size
                <= after.capacity by {
                let j = if i < before.order.len() - 1 && after.order[i] == before.order[i] {
                    i
                } else if i == idx_i && leftover_block.is_some() {
                    i
                } else {
                    before.order.len() - 1
                };
                assert(before.order[j] < before.capacity);
            }
            assert(after.order =~= before.allocate(requested_size as int).0.order);
            assert(after.free =~= before.allocate(requested_size as int).0.free);
            assert(after.used =~= before.allocate(requested_size as int).0.used);
        }
        Ok((idx, block))
    }

    /// The first position at which the order names `offset`.
    fn find_position(&self, offset: usize) -> (r: Option<usize>)
        ensures
            match r {
                Some(i) => i < self@.order.len() && self@.position(offset as int, 0) == i
                    && self@.order[i as int] == offset,
                None => self@.position(offset as int, 0) >= self@.order.len(),
            },
    {
        let mut i: usize = 0;
        while i < self.free_blocks_indices.len()
            invariant
                i <= self.free_blocks_indices.len(),
                self@.position(offset as int, 0) == self@.position(offset as int, i as int),
            decreases self.free_blocks_indices.len() - i,
        {
            if self.free_blocks_indices[i] == offset {
                return Some(i);
            }
            i += 1;
        }
        None
    }

    /// Whether `free(addr)` can be served.
    pub fn can_free(&self, addr: usize) -> (r: bool)
        requires
            self@.wf(),
        ensures
            r == self@.can_free(addr as int),
    {
        if addr >= self.capacity {
            return false;
        }
        let block = self.used_blocks[addr];
        if block.prev_space > addr || block.size > self.capacity - addr {
            return false;
        }
        let next = addr + block.size;
        if next == self.capacity {
            return true;
        }
        self.find_position(next).is_some()
    }

    /// Frees the block at `addr` together with the space before it and with
    /// the free block after it.
    pub fn free(&mut self, addr: usize) -> (r: Result<(), MallocError>)
        requires
            old(self)@.wf(),
            old(self)@.can_free(addr as int),
        ensures
            r.is_ok(),
            final(self)@.wf(),
            final(self)@ == old(self)@.release(addr as int),
    {
        let mut block = self.used_blocks[addr];
        let next_block_idx = addr + block.size;
        let greedy_idx = addr - block.prev_space;
        if next_block_idx == self.capacity {
            block.size += block.prev_space;
            block.prev_space = 0;
            self.free_blocks[greedy_idx] = block;
            self.free_blocks_indices.push(greedy_idx);
            proof {
                let before = old(self)@;
                let after = self@;
                assert forall|i: int| 0 <= i < after.order.len() implies (#[trigger] after.order[i])
                    < after.capacity && after.order[i] + after.free[after.order[i] as int].size
                    <= after.capacity by {
                    if i < before.order.len() {
                        assert(before.order[i] < before.capacity);
                    }
                }
                assert(after.free =~= before.release(addr as int).free);
            }
            return Ok(());
        }
        let found = self.find_position(next_block_idx);
        proof {
            assert(self@.order[found.unwrap() as int] < self.capacity);
        }
        let mut next_block = self.free_blocks[next_block_idx];
        if next_block.prev_space == 0 {
            next_block.size += block.size + block.prev_space;
            self.free_blocks[greedy_idx] = next_block;
            let position = found.unwrap();
            self.free_blocks_indices[position] = greedy_idx;
        } else {
            block.size += block.prev_space;
            block.prev_space = 0;
            let mut after = self.used_blocks[next_block_idx];
            after.prev_space = block.size;
            self.used_blocks[next_block_idx] = after;
            self.free_blocks[greedy_idx] = block;
            self.free_blocks_indices.push(greedy_idx);
        }
        proof {
            let before = old(self)@;
            let after = self@;
            assert(before.free[next_block_idx as int].prev_space == 0);
            assert forall|i: int| 0 <= i < after.order.len() implies (#[trigger] after.order[i])
                < after.capacity && after.order[i] + after.free[after.order[i] as int].size
                <= after.capacity by {
                assert(before.order[i] < before.capacity);
            }
            assert(after.free =~= before.release(addr as int).free);
            assert(after.order =~= before.release(addr as int).order);
        }
        Ok(())
    }

    /// The arena's capacity in bytes.
    pub fn capacity(&self) -> (r: usize)
        ensures
            r == self@.capacity,
    {
        self.capacity
    }

    /// The offsets of the free blocks in the order in which a request tries
    /// them.
    pub fn free_offsets(&self) -> (r: &Vec<usize>)
        ensures
            r@ == self@.order,
    {
        &self.free_blocks_indices
    }

    /// The entry for `offset` in the table of free blocks.
    pub fn free_block(&self, offset: usize) -> (r: MemBlock)
        requires
            offset < self@.free.len(),
        ensures
            r == self@.free[offset as int],
    {
        self.free_blocks[offset]
    }

    /// The entry for `offset` in the table of allocated blocks.
    pub fn used_block(&self, offset: usize) -> (r: MemBlock)
        requires
            offset < self@.used.len(),
        ensures
            r == self@.used[offset as int],
    {
        self.used_blocks[offset]
    }
}

} // verus!
