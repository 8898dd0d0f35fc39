//! A first-fit allocator that keeps its bookkeeping beside the arena: for
//! each offset of the arena the free block or the allocated block that starts
//! there, and a list of the offsets of the free blocks in the order in which
//! a request tries them.

use vstd::prelude::*;

use crate::measure::{lemma_weight_bounded, packed, weight};
use crate::model::{list_bytes, Block};

verus! {

/// Why an allocation was refused.
#[derive(Debug, Clone, Copy, PartialEq, Eq, Structural)]
pub enum SubAllocatorError {
    OutOfMemory,
    InvalidAllocation,
}

/// What the allocator keeps for a block: its size, and for an allocated
/// block the size of the free block right before it, zero where there is
/// none.
#[derive(Debug, Clone, Copy, PartialEq, Eq, Structural)]
pub struct MemBlock {
    pub size: usize,
    pub prev_space: usize,
}

impl MemBlock {
    /// A block of `size` bytes with no free space before it.
    pub fn new(size: usize) -> (r: Self)
        ensures
            r == (MemBlock { size, prev_space: 0 }),
    {
        MemBlock { size, prev_space: 0 }
    }
}

impl Default for MemBlock {
    fn default() -> (r: Self)
        ensures
            r == (MemBlock { size: 0, prev_space: 0 }),
    {
        MemBlock { size: 0, prev_space: 0 }
    }
}

/// `list` without its element `i`, the last element put in its place.
pub open spec fn swap_removed(list: Seq<int>, i: int) -> Seq<int> {
    list.update(i, list.last()).drop_last()
}

/// The state of a first-fit allocator: the blocks by their offsets, and the
/// offsets of the free ones in the order in which a request tries them.
pub struct FitState {
    pub capacity: int,
    pub blocks: Map<int, Block>,
    pub order: Seq<int>,
}

impl FitState {
    /// Whether a block starts at offset `h`.
    pub open spec fn is_block(self, h: int) -> bool {
        self.blocks.contains_key(h)
    }

    /// The offset at which the block at `h` ends.
    pub open spec fn end_of(self, h: int) -> int {
        h + self.blocks[h].size
    }

    /// The block at `h` lies in the arena and is not empty; where it ends the
    /// arena ends or a block starts, and of the two that one or this one is
    /// allocated; where it starts the arena starts or a block ends.
    pub open spec fn block_valid(self, h: int) -> bool {
        &&& 0 <= h
        &&& self.blocks[h].size >= 1
        &&& self.end_of(h) <= self.capacity
        &&& (self.end_of(h) < self.capacity ==> self.is_block(self.end_of(h)) && (
        self.blocks[h].used || self.blocks[self.end_of(h)].used))
        &&& (h > 0 ==> exists|p: int| self.is_block(p) && #[trigger] self.end_of(p) == h)
    }

    /// What holds of the state between any two operations: the blocks tile
    /// the arena, no two free blocks touch, and the order names each free
    /// block once and nothing else.
    pub open spec fn valid(self) -> bool {
        &&& 1 <= self.capacity <= usize::MAX
        &&& self.is_block(0)
        &&& forall|h: int| self.is_block(h) ==> #[trigger] self.block_valid(h)
        &&& forall|i: int|
            0 <= i < self.order.len() ==> self.is_block(#[trigger] self.order[i])
                && !self.blocks[self.order[i]].used
        &&& forall|i: int, j: int|
            0 <= i < j < self.order.len() ==> #[trigger] self.order[i] != #[trigger] self.order[j]
        &&& forall|h: int| #[trigger]
            self.is_block(h) && !self.blocks[h].used ==> self.order.contains(h)
    }

    /// The arena right after construction: one free block over all of it.
    pub open spec fn fresh(capacity: int) -> FitState {
        FitState {
            capacity,
            blocks: Map::<int, Block>::empty().insert(0, Block { size: capacity, used: false }),
            order: seq![0],
        }
    }

    /// The first position from `from` on in the order whose block holds
    /// `size` bytes; the length of the order where there is none.
    pub open spec fn first_fit(self, size: int, from: int) -> int
        decreases self.order.len() - from,
    {
        if from < 0 || from >= self.order.len() {
            self.order.len() as int
        } else if self.blocks[self.order[from]].size >= size {
            from
        } else {
            self.first_fit(size, from + 1)
        }
    }

    /// The state after `allocate(size)`, and the offset that the call
    /// returns: the first free block in the order that is large enough gives
    /// its first `size` bytes, and what is left of it takes its place in the
    /// order.
    pub open spec fn allocate(self, size: int) -> (FitState, Option<int>) {
        let i = self.first_fit(size, 0);
        if i >= self.order.len() {
            (self, None)
        } else {
            let h = self.order[i];
            let total = self.blocks[h].size;
            if total > size {
                (
                    FitState {
                        capacity: self.capacity,
                        blocks: self.blocks.insert(h, Block { size, used: true }).insert(
                            h + size,
                            Block { size: total - size, used: false },
                        ),
                        order: self.order.update(i, h + size),
                    },
                    Some(h),
                )
            } else {
                (
                    FitState {
                        capacity: self.capacity,
                        blocks: self.blocks.insert(h, Block { size, used: true }),
                        order: swap_removed(self.order, i),
                    },
                    Some(h),
                )
            }
        }
    }

    /// The block that ends where the block at `h` starts.
    pub open spec fn before(self, h: int) -> int {
        choose|p: int| self.is_block(p) && self.end_of(p) == h
    }

    /// The state after `deallocate(h)`: the block and its free neighbours
    /// become one free block. It keeps the place of the free block before it
    /// in the order, or goes to the end of the order; the free block after it
    /// leaves the order.
    pub open spec fn deallocate(self, h: int) -> FitState {
        let next = self.end_of(h);
        let prev = self.before(h);
        let merge_next = next < self.capacity && !self.blocks[next].used;
        let merge_prev = h > 0 && !self.blocks[prev].used;
        let start = if merge_prev {
            prev
        } else {
            h
        };
        let end = if merge_next {
            self.end_of(next)
        } else {
            next
        };
        let order1 = if merge_prev {
            self.order
        } else {
            self.order.push(h)
        };
        let order2 = if merge_next {
            swap_removed(order1, order1.index_of(next))
        } else {
            order1
        };
        let blocks1 = if merge_next {
            self.blocks.remove(next)
        } else {
            self.blocks
        };
        let blocks2 = if merge_prev {
            blocks1.remove(h)
        } else {
            blocks1
        };
        FitState {
            capacity: self.capacity,
            blocks: blocks2.insert(start, Block { size: end - start, used: false }),
            order: order2,
        }
    }

    /// The sum of the sizes of all free blocks.
    pub open spec fn free_bytes(self) -> int {
        list_bytes(self.blocks, self.order)
    }
}

/// The size of the free block right before the block at `h`, zero where the
/// block before is allocated or there is none.
pub open spec fn space_before(blocks: Map<int, Block>, pred: Map<int, int>, h: int) -> int {
    if h > 0 && !blocks[pred[h]].used {
        blocks[pred[h]].size
    } else {
        0
    }
}

/// The block at `h` lies in the arena, the next block starts where it ends,
/// the block `pred[h]` ends where it starts, and it is not free beside a free
/// block.
pub open spec fn block_ok(cap: int, blocks: Map<int, Block>, pred: Map<int, int>, h: int) -> bool {
    let size = blocks[h].size;
    let end = h + size;
    &&& 0 <= h
    &&& size >= 1
    &&& end <= cap
    &&& (end < cap ==> blocks.contains_key(end) && pred.contains_key(end) && pred[end] == h && (
    blocks[h].used || blocks[end].used))
    &&& (h > 0 ==> pred.contains_key(h) && blocks.contains_key(pred[h]) && pred[h]
        + blocks[pred[h]].size == h)
}

/// Of two blocks the lower one ends before the higher one starts.
pub open spec fn apart(blocks: Map<int, Block>, h1: int, h2: int) -> bool {
    &&& h1 < h2 ==> h1 + blocks[h1].size <= h2
    &&& h2 < h1 ==> h2 + blocks[h2].size <= h1
}

/// The blocks tile the arena.
pub open spec fn tiling(cap: int, blocks: Map<int, Block>, pred: Map<int, int>) -> bool {
    &&& 1 <= cap <= usize::MAX
    &&& blocks.contains_key(0)
    &&& forall|h: int| blocks.contains_key(h) ==> #[trigger] block_ok(cap, blocks, pred, h)
    &&& forall|h1: int, h2: int|
        blocks.contains_key(h1) && blocks.contains_key(h2) ==> #[trigger] apart(blocks, h1, h2)
}

/// The two tables hold what the model says: at the offset of a free block
/// the free table has its size, at every other offset nothing; at the offset
/// of an allocated block the other table has its size and the free space
/// before it.
pub open spec fn tables_ok(
    free: Seq<Option<MemBlock>>,
    used: Seq<MemBlock>,
    cap: int,
    blocks: Map<int, Block>,
    pred: Map<int, int>,
) -> bool {
    &&& free.len() == cap
    &&& used.len() == cap
    &&& forall|h: int|
        0 <= h < cap ==> #[trigger] free[h] == (if blocks.contains_key(h) && !blocks[h].used {
            Some(MemBlock { size: blocks[h].size as usize, prev_space: 0 })
        } else {
            None
        })
    &&& forall|h: int|
        blocks.contains_key(h) && blocks[h].used ==> (#[trigger] used[h]).size == blocks[h].size
            && used[h].prev_space == space_before(blocks, pred, h)
}

/// The order names each free block once and nothing else.
pub open spec fn order_ok(order: Seq<usize>, blocks: Map<int, Block>) -> bool {
    &&& forall|i: int|
        0 <= i < order.len() ==> blocks.contains_key(#[trigger] order[i] as int)
            && !blocks[order[i] as int].used
    &&& forall|i: int, j: int|
        0 <= i < j < order.len() ==> #[trigger] order[i] != #[trigger] order[j]
    &&& forall|h: int| #[trigger]
        blocks.contains_key(h) && !blocks[h].used ==> exists|i: int|
            0 <= i < order.len() && #[trigger] order[i] == h
}

/// The blocks after the free block at `h` gave its first `size` bytes to an
/// allocation.
pub open spec fn taken_blocks(blocks: Map<int, Block>, h: int, size: int) -> Map<int, Block> {
    if blocks[h].size > size {
        blocks.insert(h, Block { size, used: true }).insert(
            h + size,
            Block { size: blocks[h].size - size, used: false },
        )
    } else {
        blocks.insert(h, Block { size, used: true })
    }
}

/// Which block stands before which, after the free block at `h` gave its
/// first `size` bytes to an allocation.
pub open spec fn taken_pred(blocks: Map<int, Block>, pred: Map<int, int>, h: int, size: int) -> Map<
    int,
    int,
> {
    if blocks[h].size > size {
        pred.insert(h + size, h).insert(h + blocks[h].size, h + size)
    } else {
        pred
    }
}

/// Allocating the first `size` bytes of the free block at `h` leaves the
/// arena tiled, and the free space before every other allocated block as it
/// was.
pub proof fn lemma_take(cap: int, blocks: Map<int, Block>, pred: Map<int, int>, h: int, size: int)
    requires
        tiling(cap, blocks, pred),
        blocks.contains_key(h),
        !blocks[h].used,
        1 <= size <= blocks[h].size,
    ensures
        tiling(cap, taken_blocks(blocks, h, size), taken_pred(blocks, pred, h, size)),
        blocks[h].size > size ==> !blocks.contains_key(h + size),
        space_before(taken_blocks(blocks, h, size), taken_pred(blocks, pred, h, size), h) == 0,
        h + blocks[h].size < cap ==> blocks[h + blocks[h].size].used && space_before(
            taken_blocks(blocks, h, size),
            taken_pred(blocks, pred, h, size),
            h + blocks[h].size,
        ) == blocks[h].size - size,
        forall|g: int|
            blocks.contains_key(g) && blocks[g].used && g != h + blocks[h].size
                ==> #[trigger] space_before(
                taken_blocks(blocks, h, size),
                taken_pred(blocks, pred, h, size),
                g,
            ) == space_before(blocks, pred, g),
{
    let blocks2 = taken_blocks(blocks, h, size);
    let pred2 = taken_pred(blocks, pred, h, size);
    let total = blocks[h].size;
    let rest = h + size;
    let n = h + total;
    assert(block_ok(cap, blocks, pred, h));
    if n < cap {
        assert(block_ok(cap, blocks, pred, n));
    }
    if h > 0 {
        assert(block_ok(cap, blocks, pred, pred[h]));
    }
    if total > size {
        assert(!blocks.contains_key(rest)) by {
            if blocks.contains_key(rest) {
                assert(apart(blocks, h, rest));
            }
        }
    }
    assert forall|g: int| blocks2.contains_key(g) implies #[trigger] block_ok(
        cap,
        blocks2,
        pred2,
        g,
    ) by {
        if !(total > size && g == rest) {
            assert(blocks.contains_key(g));
            assert(block_ok(cap, blocks, pred, g));
            assert(apart(blocks, g, h));
        }
    }
    assert forall|h1: int, h2: int|
        blocks2.contains_key(h1) && blocks2.contains_key(h2) implies #[trigger] apart(
        blocks2,
        h1,
        h2,
    ) by {
        let r1 = total > size && h1 == rest;
        let r2 = total > size && h2 == rest;
        if !r1 && !r2 {
            assert(apart(blocks, h1, h2));
        } else if !r1 {
            assert(apart(blocks, h1, h));
        } else if !r2 {
            assert(apart(blocks, h2, h));
        }
    }
    assert forall|g: int|
        blocks.contains_key(g) && blocks[g].used && g != h + blocks[h].size implies #[trigger] space_before(
        blocks2,
        pred2,
        g,
    ) == space_before(blocks, pred, g) by {
        assert(block_ok(cap, blocks, pred, g));
        assert(apart(blocks, g, h));
        if g > 0 {
            assert(block_ok(cap, blocks, pred, pred[g]));
            assert(apart(blocks, pred[g], h));
        }
    }
}

/// Whether freeing the block at `h` merges it with the block after it.
pub open spec fn merges_next(cap: int, blocks: Map<int, Block>, h: int) -> bool {
    h + blocks[h].size < cap && !blocks[h + blocks[h].size].used
}

/// Whether freeing the block at `h` merges it with the block before it.
pub open spec fn merges_prev(blocks: Map<int, Block>, pred: Map<int, int>, h: int) -> bool {
    h > 0 && !blocks[pred[h]].used
}

/// Where the free block starts that freeing the block at `h` makes.
pub open spec fn merged_start(blocks: Map<int, Block>, pred: Map<int, int>, h: int) -> int {
    if merges_prev(blocks, pred, h) {
        pred[h]
    } else {
        h
    }
}

/// Where the free block ends that freeing the block at `h` makes.
pub open spec fn merged_end(cap: int, blocks: Map<int, Block>, h: int) -> int {
    let n = h + blocks[h].size;
    if merges_next(cap, blocks, h) {
        n + blocks[n].size
    } else {
        n
    }
}

/// The blocks after the block at `h` was freed and merged with its free
/// neighbours.
pub open spec fn merged_blocks(
    cap: int,
    blocks: Map<int, Block>,
    pred: Map<int, int>,
    h: int,
) -> Map<int, Block> {
    let n = h + blocks[h].size;
    let blocks1 = if merges_next(cap, blocks, h) {
        blocks.remove(n)
    } else {
        blocks
    };
    let blocks2 = if merges_prev(blocks, pred, h) {
        blocks1.remove(h)
    } else {
        blocks1
    };
    blocks2.insert(
        merged_start(blocks, pred, h),
        Block { size: merged_end(cap, blocks, h) - merged_start(blocks, pred, h), used: false },
    )
}

/// Which block stands before which, after the block at `h` was freed.
pub open spec fn merged_pred(cap: int, blocks: Map<int, Block>, pred: Map<int, int>, h: int) -> Map<
    int,
    int,
> {
    pred.insert(merged_end(cap, blocks, h), merged_start(blocks, pred, h))
}

/// Freeing the block at `h` and merging it with its free neighbours leaves
/// the arena tiled; the allocated block after the merged one has all of it
/// as free space before it, and every other allocated block what it had.
pub proof fn lemma_release(cap: int, blocks: Map<int, Block>, pred: Map<int, int>, h: int)
    requires
        tiling(cap, blocks, pred),
        blocks.contains_key(h),
        blocks[h].used,
    ensures
        tiling(cap, merged_blocks(cap, blocks, pred, h), merged_pred(cap, blocks, pred, h)),
        forall|g: int| #[trigger]
            merged_blocks(cap, blocks, pred, h).contains_key(g) ==> blocks.contains_key(g),
        merged_end(cap, blocks, h) < cap ==> blocks[merged_end(cap, blocks, h)].used
            && space_before(
            merged_blocks(cap, blocks, pred, h),
            merged_pred(cap, blocks, pred, h),
            merged_end(cap, blocks, h),
        ) == merged_end(cap, blocks, h) - merged_start(blocks, pred, h),
        forall|g: int|
            blocks.contains_key(g) && blocks[g].used && g != h && g != merged_end(cap, blocks, h)
                ==> #[trigger] space_before(
                merged_blocks(cap, blocks, pred, h),
                merged_pred(cap, blocks, pred, h),
                g,
            ) == space_before(blocks, pred, g),
{
    let blocks2 = merged_blocks(cap, blocks, pred, h);
    let pred2 = merged_pred(cap, blocks, pred, h);
    let n = h + blocks[h].size;
    let p = pred[h];
    let start = merged_start(blocks, pred, h);
    let end = merged_end(cap, blocks, h);
    assert(block_ok(cap, blocks, pred, h));
    if n < cap {
        assert(block_ok(cap, blocks, pred, n));
    }
    if h > 0 {
        assert(block_ok(cap, blocks, pred, p));
    }
    if end < cap {
        assert(block_ok(cap, blocks, pred, end));
    }
    assert(block_ok(cap, blocks, pred, start));
    assert(block_ok(cap, blocks2, pred2, start));
    assert forall|g: int| blocks2.contains_key(g) implies #[trigger] block_ok(
        cap,
        blocks2,
        pred2,
        g,
    ) by {
        if g != start {
            assert(blocks.contains_key(g));
            assert(block_ok(cap, blocks, pred, g));
            assert(apart(blocks, g, h));
            assert(apart(blocks, g, start));
            if n < cap {
                assert(apart(blocks, g, n));
            }
            let e = g + blocks[g].size;
            if e < cap {
                assert(block_ok(cap, blocks, pred, e));
            }
            if g > 0 {
                assert(block_ok(cap, blocks, pred, pred[g]));
            }
        }
    }
    assert forall|h1: int, h2: int|
        blocks2.contains_key(h1) && blocks2.contains_key(h2) implies #[trigger] apart(
        blocks2,
        h1,
        h2,
    ) by {
        assert(apart(blocks, h1, h2));
        assert(apart(blocks, h1, h));
        assert(apart(blocks, h2, h));
        if n < cap {
            assert(apart(blocks, h1, n));
            assert(apart(blocks, h2, n));
        }
        if h > 0 {
            assert(apart(blocks, h1, p));
            assert(apart(blocks, h2, p));
        }
    }
    assert forall|g: int|
        blocks.contains_key(g) && blocks[g].used && g != h && g != merged_end(
            cap,
            blocks,
            h,
        ) implies #[trigger] space_before(blocks2, pred2, g) == space_before(blocks, pred, g) by {
        assert(block_ok(cap, blocks, pred, g));
        assert(apart(blocks, g, h));
        if n < cap {
            assert(apart(blocks, g, n));
        }
        if g > 0 {
            assert(block_ok(cap, blocks, pred, pred[g]));
            assert(apart(blocks, pred[g], h));
            if n < cap {
                assert(apart(blocks, pred[g], n));
            }
        }
    }
}

/// The block that ends where the block at `h` starts is the one that the
/// model's choice names.
pub proof fn lemma_before_is_pred(
    cap: int,
    blocks: Map<int, Block>,
    pred: Map<int, int>,
    order: Seq<int>,
    h: int,
)
    requires
        tiling(cap, blocks, pred),
        blocks.contains_key(h),
        h > 0,
    ensures
        (FitState { capacity: cap, blocks, order }).before(h) == pred[h],
{
    let st = FitState { capacity: cap, blocks, order };
    assert(block_ok(cap, blocks, pred, h));
    assert(st.is_block(pred[h]) && st.end_of(pred[h]) == h);
    let q = st.before(h);
    assert(st.is_block(q) && st.end_of(q) == h);
    assert(apart(blocks, q, pred[h]));
    assert(block_ok(cap, blocks, pred, q));
    assert(block_ok(cap, blocks, pred, pred[h]));
}

/// The order before the free block after the freed block leaves it: either
/// the order as it was, or with the freed block at its end.
pub open spec fn order_with(order: Seq<usize>, h: int, merge_prev: bool) -> Seq<usize> {
    if merge_prev {
        order
    } else {
        order.push(h as usize)
    }
}

/// The free block at `n` stands once in the order, also after an allocated
/// block was put at its end.
pub proof fn lemma_listed_once(
    blocks: Map<int, Block>,
    order: Seq<usize>,
    order1: Seq<usize>,
    h: int,
    n: int,
    merge_prev: bool,
)
    requires
        order_ok(order, blocks),
        blocks.contains_key(n),
        !blocks[n].used,
        blocks.contains_key(h),
        blocks[h].used,
        0 <= h <= usize::MAX,
        order1 == order_with(order, h, merge_prev),
    ensures
        exists|i: int| 0 <= i < order1.len() && order1[i] == n,
        forall|i: int|
            0 <= i < order1.len() && order1[i] == n ==> i == as_ints(order1).index_of(n),
{
    let i = choose|i: int| 0 <= i < order.len() && #[trigger] order[i] == n;
    assert(order1[i] == n);
    assert(as_ints(order1)[i] == n);
    let j = as_ints(order1).index_of(n);
    assert(as_ints(order1)[j] == n);
    assert forall|k: int| 0 <= k < order1.len() && order1[k] == n implies k == j by {
        if k < order.len() {
            assert(order1[k] == order[k]);
        }
        if j < order.len() {
            assert(order1[j] == order[j]);
        }
        if k != j {
            if k < j {
                if j < order.len() {
                    assert(order[k] != order[j]);
                }
            } else {
                if k < order.len() {
                    assert(order[j] != order[k]);
                }
            }
        }
    }
}

/// After a block was freed, the order names each free block once and
/// nothing else.
pub proof fn lemma_order_release(
    blocks: Map<int, Block>,
    blocks2: Map<int, Block>,
    order: Seq<usize>,
    order2: Seq<usize>,
    h: int,
    n: int,
    merge_prev: bool,
    merge_next: bool,
)
    requires
        order_ok(order, blocks),
        blocks.contains_key(h),
        blocks[h].used,
        0 <= h <= usize::MAX,
        merge_next ==> blocks.contains_key(n) && !blocks[n].used,
        forall|g: int|
            (blocks2.contains_key(g) && !#[trigger] blocks2[g].used) <==> ((!merge_prev && g == h)
                || (blocks.contains_key(g) && !blocks[g].used && !(merge_next && g == n))),
        ({
            let order1 = order_with(order, h, merge_prev);
            if merge_next {
                exists|i: int|
                    0 <= i < order1.len() && order1[i] == n && order2 == order1.update(
                        i,
                        order1.last(),
                    ).drop_last()
            } else {
                order2 == order1
            }
        }),
    ensures
        order_ok(order2, blocks2),
{
    let order1 = order_with(order, h, merge_prev);
    assert forall|i: int| 0 <= i < order1.len() implies ((!merge_prev && #[trigger] order1[i] == h)
        || (blocks.contains_key(order1[i] as int) && !blocks[order1[i] as int].used)) by {
        if i < order.len() {
            assert(order1[i] == order[i]);
        }
    }
    assert forall|i: int, j: int| 0 <= i < j < order1.len() implies #[trigger] order1[i]
        != #[trigger] order1[j] by {
        assert(order1[i] == order[i]);
        if j < order.len() {
            assert(order1[j] == order[j]);
        }
    }
    assert forall|g: int|
        ((!merge_prev && g == h) || (blocks.contains_key(g) && !blocks[g].used)) implies exists|
        i: int,
    |
        0 <= i < order1.len() && #[trigger] order1[i] == g by {
        if blocks.contains_key(g) && !blocks[g].used {
            let i = choose|i: int| 0 <= i < order.len() && #[trigger] order[i] == g;
            assert(order1[i] == g);
        } else {
            assert(order1[order.len() as int] == g);
        }
    }
    if merge_next {
        let k = choose|i: int|
            0 <= i < order1.len() && order1[i] == n && order2 == order1.update(
                i,
                order1.last(),
            ).drop_last();
        let last = order1.len() - 1;
        assert forall|i: int| 0 <= i < order2.len() implies blocks2.contains_key(
            #[trigger] order2[i] as int,
        ) && !blocks2[order2[i] as int].used by {
            let j = if i == k {
                last
            } else {
                i
            };
            assert(order2[i] == order1[j]);
            if j < k {
                assert(order1[j] != order1[k]);
            } else {
                assert(order1[k] != order1[j]);
            }
            let g = order1[j] as int;
            assert((!merge_prev && g == h) || (blocks.contains_key(g) && !blocks[g].used));
            assert(g != n);
            assert(!blocks2[g].used);
        }
        assert forall|i: int, j: int| 0 <= i < j < order2.len() implies #[trigger] order2[i]
            != #[trigger] order2[j] by {
            let i1 = if i == k {
                last
            } else {
                i
            };
            let j1 = if j == k {
                last
            } else {
                j
            };
            assert(order2[i] == order1[i1]);
            assert(order2[j] == order1[j1]);
            if i1 < j1 {
                assert(order1[i1] != order1[j1]);
            } else {
                assert(order1[j1] != order1[i1]);
            }
        }
        assert forall|g: int| #[trigger]
            blocks2.contains_key(g) && !blocks2[g].used implies exists|i: int|
            0 <= i < order2.len() && #[trigger] order2[i] == g by {
            let i1 = choose|i: int| 0 <= i < order1.len() && #[trigger] order1[i] == g;
            if i1 == last {
                assert(order2[k] == g);
            } else {
                assert(order2[i1] == g);
            }
        }
    } else {
        assert forall|i: int| 0 <= i < order2.len() implies blocks2.contains_key(
            #[trigger] order2[i] as int,
        ) && !blocks2[order2[i] as int].used by {
            let g = order1[i] as int;
            assert((!merge_prev && g == h) || (blocks.contains_key(g) && !blocks[g].used));
            assert(!blocks2[g].used);
        }
        assert forall|g: int| #[trigger]
            blocks2.contains_key(g) && !blocks2[g].used implies exists|i: int|
            0 <= i < order2.len() && #[trigger] order2[i] == g by {
            let i1 = choose|i: int| 0 <= i < order1.len() && #[trigger] order1[i] == g;
            assert(order2[i1] == g);
        }
    }
}

/// The offsets of a list as integers.
pub open spec fn as_ints(order: Seq<usize>) -> Seq<int> {
    order.map_values(|x: usize| x as int)
}

/// A first-fit allocator over an arena of `capacity` bytes.
pub struct SubAllocator {
    capacity: usize,
    pub free_blocks_indices: Vec<usize>,
    pub free_blocks: Vec<Option<MemBlock>>,
    pub used_blocks: Vec<MemBlock>,
    blocks: Ghost<Map<int, Block>>,
    pred: Ghost<Map<int, int>>,
}

/// A table of `n` empty entries.
fn empty_table(n: usize) -> (v: Vec<Option<MemBlock>>)
    ensures
        v.len() == n,
        forall|i: int| 0 <= i < n ==> v[i].is_none(),
{
    let mut v: Vec<Option<MemBlock>> = Vec::with_capacity(n);
    let mut i: usize = 0;
    while i < n
        invariant
            i <= n,
            v.len() == i,
            forall|j: int| 0 <= j < i ==> v[j].is_none(),
        decreases n - i,
    {
        v.push(None);
        i += 1;
    }
    v
}

/// A table of `n` blocks of size zero.
fn zero_table(n: usize) -> (v: Vec<MemBlock>)
    ensures
        v.len() == n,
        forall|i: int| 0 <= i < n ==> v[i] == (MemBlock { size: 0, prev_space: 0 }),
{
    let mut v: Vec<MemBlock> = Vec::with_capacity(n);
    let mut i: usize = 0;
    while i < n
        invariant
            i <= n,
            v.len() == i,
            forall|j: int| 0 <= j < i ==> v[j] == (MemBlock { size: 0, prev_space: 0 }),
        decreases n - i,
    {
        v.push(MemBlock::default());
        i += 1;
    }
    v
}

impl SubAllocator {
    /// The tables and the order agree with a tiling of the arena.
    pub closed spec fn wf(&self) -> bool {
        &&& tiling(self.capacity as int, self.blocks@, self.pred@)
        &&& tables_ok(
            self.free_blocks@,
            self.used_blocks@,
            self.capacity as int,
            self.blocks@,
            self.pred@,
        )
        &&& order_ok(self.free_blocks_indices@, self.blocks@)
    }

    /// The allocator's state.
    pub closed spec fn view(&self) -> FitState {
        FitState {
            capacity: self.capacity as int,
            blocks: self.blocks@,
            order: as_ints(self.free_blocks_indices@),
        }
    }

    /// A well-formed allocator is in a valid state.
    pub proof fn lemma_valid(&self)
        requires
            self.wf(),
        ensures
            self@.valid(),
    {
        let s = self@;
        let cap = self.capacity as int;
        let blocks = self.blocks@;
        let pred = self.pred@;
        let order = self.free_blocks_indices@;
        assert forall|h: int| s.is_block(h) implies #[trigger] s.block_valid(h) by {
            assert(block_ok(cap, blocks, pred, h));
            if h > 0 {
                assert(s.is_block(pred[h]) && s.end_of(pred[h]) == h);
            }
        }
        assert forall|i: int| 0 <= i < s.order.len() implies s.is_block(#[trigger] s.order[i])
            && !s.blocks[s.order[i]].used by {
            assert(blocks.contains_key(order[i] as int));
        }
        assert forall|i: int, j: int| 0 <= i < j < s.order.len() implies #[trigger] s.order[i]
            != #[trigger] s.order[j] by {
            assert(order[i] != order[j]);
        }
        assert forall|h: int| #[trigger] s.is_block(h) && !s.blocks[h].used implies s.order.contains(
            h,
        ) by {
            let i = choose|i: int| 0 <= i < order.len() && #[trigger] order[i] == h;
            assert(s.order[i] == h);
        }
    }

    /// The table of free blocks: the field `free_blocks`.
    pub closed spec fn free_table(&self) -> Seq<Option<MemBlock>> {
        self.free_blocks@
    }

    /// The table of allocated blocks: the field `used_blocks`.
    pub closed spec fn used_table(&self) -> Seq<MemBlock> {
        self.used_blocks@
    }

    /// What the two tables hold: at the offset of a free block the free
    /// table has its size, and nothing at any other offset; at the offset of
    /// an allocated block the other table has its size, and as the space
    /// before it the size of the block before it where that one is free.
    pub proof fn lemma_tables(&self, h: int)
        requires
            self.wf(),
            0 <= h < self@.capacity,
        ensures
            self.free_table().len() == self@.capacity,
            self.used_table().len() == self@.capacity,
            self.free_table()[h] == (if self@.is_block(h) && !self@.blocks[h].used {
                Some(MemBlock { size: self@.blocks[h].size as usize, prev_space: 0 })
            } else {
                None
            }),
            self@.is_block(h) && self@.blocks[h].used ==> self.used_table()[h].size
                == self@.blocks[h].size && self.used_table()[h].prev_space == (if h > 0
                && !self@.blocks[self@.before(h)].used {
                self@.blocks[self@.before(h)].size
            } else {
                0
            }),
    {
        if self@.is_block(h) && h > 0 {
            lemma_before_is_pred(
                self.capacity as int,
                self.blocks@,
                self.pred@,
                as_ints(self.free_blocks_indices@),
                h,
            );
        }
    }

    /// An allocator over an arena of `capacity` bytes, all of it one free
    /// block.
    pub fn new(capacity: usize) -> (r: Self)
        requires
            capacity > 0,
        ensures
            r.wf(),
            r@ == FitState::fresh(capacity as int),
    {
        let mut free_blocks = empty_table(capacity);
        free_blocks[0] = Some(MemBlock::new(capacity));
        let mut free_blocks_indices: Vec<usize> = Vec::with_capacity(capacity);
        free_blocks_indices.push(0);
        let ghost blocks = Map::<int, Block>::empty().insert(
            0,
            Block { size: capacity as int, used: false },
        );
        let r = SubAllocator {
            capacity,
            free_blocks_indices,
            free_blocks,
            used_blocks: zero_table(capacity),
            blocks: Ghost(blocks),
            pred: Ghost(Map::empty()),
        };
        proof {
            assert(r.free_blocks_indices@[0] == 0);
            assert(r@.order =~= seq![0int]);
            assert(block_ok(capacity as int, blocks, Map::empty(), 0));
        }
        r
    }

    /// The arena's capacity in bytes.
    pub fn capacity(&self) -> (r: usize)
        ensures
            r == self@.capacity,
    {
        self.capacity
    }

    /// The number of free blocks.
    pub fn fragment_count(&self) -> (r: usize)
        ensures
            r == self@.order.len(),
    {
        self.free_blocks_indices.len()
    }

    /// Cuts `block` down to `target_size` bytes and returns what is left of
    /// it as a block of its own, if anything is.
    fn partition_leftover(block: &mut MemBlock, target_size: usize) -> (r: Option<MemBlock>)
        requires
            old(block).size >= target_size,
        ensures
            final(block).prev_space == old(block).prev_space,
            old(block).size > target_size ==> final(block).size == target_size && r == Some(
                MemBlock { size: (old(block).size - target_size) as usize, prev_space: 0 },
            ),
            old(block).size == target_size ==> final(block).size == target_size && r.is_none(),
    {
        let leftover_size = block.size - target_size;
        if leftover_size > 0 {
            block.size = target_size;
            let leftover_block = MemBlock::new(leftover_size);
            Some(leftover_block)
        } else {
            None
        }
    }

    /// The first position in the order whose block holds `requested_size`
    /// bytes.
    fn find_first_fit(&self, requested_size: usize) -> (r: Option<usize>)
        requires
            self.wf(),
        ensures
            match r {
                Some(i) => i < self@.order.len() && self@.first_fit(requested_size as int, 0) == i
                    && self@.blocks[self@.order[i as int]].size >= requested_size,
                None => self@.first_fit(requested_size as int, 0) >= self@.order.len(),
            },
    {
        let mut idx_i: usize = 0;
        while idx_i < self.free_blocks_indices.len()
            invariant
                self.wf(),
                idx_i <= self.free_blocks_indices.len(),
                self@.first_fit(requested_size as int, 0) == self@.first_fit(
                    requested_size as int,
                    idx_i as int,
                ),
            decreases self.free_blocks_indices.len() - idx_i,
        {
            let idx = self.free_blocks_indices[idx_i];
            proof {
                assert(self.blocks@.contains_key(self.free_blocks_indices@[idx_i as int] as int));
                assert(block_ok(self.capacity as int, self.blocks@, self.pred@, idx as int));
                assert(self.free_blocks@[idx as int].is_some());
            }
            let block = self.free_blocks[idx].unwrap();
            if block.size >= requested_size {
                return Some(idx_i);
            }
            idx_i += 1;
        }
        None
    }

    /// Allocates `requested_size` bytes from the first free block in the
    /// order that holds them, and returns the offset at which they start.
    pub fn allocate(&mut self, requested_size: usize) -> (r: Result<usize, SubAllocatorError>)
        requires
            old(self).wf(),
            requested_size > 0,
        ensures
            final(self).wf(),
            final(self)@ == old(self)@.allocate(requested_size as int).0,
            match r {
                Ok(offset) => old(self)@.allocate(requested_size as int).1 == Some(offset as int),
                Err(e) => e == SubAllocatorError::OutOfMemory && old(self)@.allocate(
                    requested_size as int,
                ).1.is_none(),
            },
    {
        let idx_i = match self.find_first_fit(requested_size) {
            Some(i) => i,
            None => {
                return Err(SubAllocatorError::OutOfMemory);
            },
        };
        let ghost cap = self.capacity as int;
        let ghost blocks = self.blocks@;
        let ghost pred = self.pred@;
        let ghost order = self.free_blocks_indices@;
        let idx = self.free_blocks_indices[idx_i];
        proof {
            assert(blocks.contains_key(order[idx_i as int] as int));
            assert(block_ok(cap, blocks, pred, idx as int));
            assert(self.free_blocks@[idx as int].is_some());
            lemma_take(cap, blocks, pred, idx as int, requested_size as int);
        }
        let mut block = self.free_blocks[idx].unwrap();
        self.free_blocks[idx] = None;
        let next_idx = idx + block.size;
        if next_idx != self.capacity {
            let mut next_block = self.used_blocks[next_idx];
            next_block.prev_space = block.size - requested_size;
            self.used_blocks[next_idx] = next_block;
        }
        let leftover_block = Self::partition_leftover(&mut block, requested_size);
        match leftover_block {
            Some(_) => {
                let leftover_idx = idx + block.size;
                self.free_blocks[leftover_idx] = leftover_block;
                self.free_blocks_indices[idx_i] = leftover_idx;
            },
            None => {
                self.free_blocks_indices.swap_remove(idx_i);
            },
        }
        self.used_blocks[idx] = block;
        proof {
            let blocks2 = taken_blocks(blocks, idx as int, requested_size as int);
            let pred2 = taken_pred(blocks, pred, idx as int, requested_size as int);
            self.blocks = Ghost(blocks2);
            self.pred = Ghost(pred2);
            let order2 = self.free_blocks_indices@;
            assert forall|h: int|
                blocks2.contains_key(h) && blocks2[h].used implies (#[trigger] self.used_blocks@[h]).size
                == blocks2[h].size && self.used_blocks@[h].prev_space == space_before(
                blocks2,
                pred2,
                h,
            ) by {
                assert(block_ok(cap, blocks2, pred2, h));
                if h != idx {
                    assert(blocks.contains_key(h));
                    assert(block_ok(cap, blocks, pred, h));
                    assert(apart(blocks, h, idx as int));
                    assert(blocks[h].used);
                    assert(old(self).used_blocks@[h].size == blocks[h].size);
                    assert(space_before(blocks, pred, h) == old(self).used_blocks@[h].prev_space);
                    if h != next_idx {
                        assert(self.used_blocks@[h] == old(self).used_blocks@[h]);
                    }
                }
            }
            assert forall|i: int| 0 <= i < order2.len() implies blocks2.contains_key(
                #[trigger] order2[i] as int,
            ) && !blocks2[order2[i] as int].used by {
                if i != idx_i {
                    if i < order.len() - 1 || block.size < old(self).free_blocks@[idx as int].unwrap().size {
                        assert(order2[i] == order[i]);
                    }
                    assert(blocks.contains_key(order[i] as int));
                } else {
                    assert(blocks.contains_key(order[order.len() - 1] as int));
                }
            }
            assert forall|h: int| #[trigger]
                blocks2.contains_key(h) && !blocks2[h].used implies exists|i: int|
                0 <= i < order2.len() && #[trigger] order2[i] == h by {
                if h == idx + requested_size && blocks[idx as int].size > requested_size {
                    assert(order2[idx_i as int] == h);
                } else {
                    assert(blocks.contains_key(h) && !blocks[h].used);
                    let i = choose|i: int| 0 <= i < order.len() && #[trigger] order[i] == h;
                    if blocks[idx as int].size > requested_size {
                        assert(order2[i] == h);
                    } else if i == order.len() - 1 {
                        assert(order2[idx_i as int] == h);
                    } else {
                        assert(order2[i] == h);
                    }
                }
            }
            assert(self@.order =~= old(self)@.allocate(requested_size as int).0.order);
        }
        Ok(idx)
    }

    /// The position of the free block at `offset` in the order.
    fn position(&self, offset: usize) -> (r: usize)
        requires
            exists|i: int|
                0 <= i < self.free_blocks_indices@.len() && self.free_blocks_indices@[i] == offset,
        ensures
            r < self.free_blocks_indices@.len(),
            self.free_blocks_indices@[r as int] == offset,
    {
        let ghost at = choose|i: int|
            0 <= i < self.free_blocks_indices@.len() && self.free_blocks_indices@[i] == offset;
        let mut i: usize = 0;
        while i < self.free_blocks_indices.len() && self.free_blocks_indices[i] != offset
            invariant
                i <= at < self.free_blocks_indices@.len(),
                self.free_blocks_indices@[at] == offset,
            decreases self.free_blocks_indices@.len() - i,
        {
            i += 1;
        }
        i
    }

    /// Frees the allocated block at `alloc_start`. It is merged with the free
    /// block before it and with the free block after it, where there is one.
    pub fn deallocate(&mut self, alloc_start: usize)
        requires
            old(self).wf(),
            old(self)@.is_block(alloc_start as int),
            old(self)@.blocks[alloc_start as int].used,
        ensures
            final(self).wf(),
            final(self)@ == old(self)@.deallocate(alloc_start as int),
    {
        let ghost cap = self.capacity as int;
        let ghost blocks = self.blocks@;
        let ghost pred = self.pred@;
        let ghost order = self.free_blocks_indices@;
        let ghost h = alloc_start as int;
        let ghost n = h + blocks[h].size;
        let ghost p = pred[h];
        let ghost start = merged_start(blocks, pred, h);
        let ghost end = merged_end(cap, blocks, h);
        proof {
            assert(block_ok(cap, blocks, pred, h));
            if n < cap {
                assert(block_ok(cap, blocks, pred, n));
                assert(apart(blocks, h, n));
            }
            if h > 0 {
                assert(block_ok(cap, blocks, pred, p));
                lemma_before_is_pred(cap, blocks, pred, as_ints(order), h);
            }
            lemma_release(cap, blocks, pred, h);
        }
        let mut block = self.used_blocks[alloc_start];
        let next_idx = alloc_start + block.size;
        let greedy_idx = alloc_start - block.prev_space;
        block.size += block.prev_space;
        if greedy_idx == alloc_start {
            self.free_blocks_indices.push(alloc_start);
        }
        let ghost order1 = self.free_blocks_indices@;
        let ghost mut removed_at: int = 0;
        if next_idx != self.capacity {
            let next = self.free_blocks[next_idx];
            if let Some(next_block) = next {
                self.free_blocks[next_idx] = None;
                block.size += next_block.size;
                let next_next_idx = next_idx + next_block.size;
                if next_next_idx != self.capacity {
                    let mut after = self.used_blocks[next_next_idx];
                    after.prev_space = block.size;
                    self.used_blocks[next_next_idx] = after;
                }
                proof {
                    lemma_listed_once(blocks, order, order1, h, n, merges_prev(blocks, pred, h));
                    let w = choose|i: int| 0 <= i < order1.len() && order1[i] == n;
                    assert(self.free_blocks_indices@[w] == next_idx);
                }
                let idx_i = self.position(next_idx);
                self.free_blocks_indices.swap_remove(idx_i);
                proof {
                    removed_at = idx_i as int;
                }
            } else {
                let mut after = self.used_blocks[next_idx];
                after.prev_space = block.size;
                self.used_blocks[next_idx] = after;
            }
        }
        block.prev_space = 0;
        self.free_blocks[greedy_idx] = Some(block);
        proof {
            let blocks2 = merged_blocks(cap, blocks, pred, h);
            let pred2 = merged_pred(cap, blocks, pred, h);
            self.blocks = Ghost(blocks2);
            self.pred = Ghost(pred2);
            let order2 = self.free_blocks_indices@;
            assert(block_ok(cap, blocks2, pred2, start));
            assert forall|g: int| 0 <= g < cap implies #[trigger] self.free_blocks@[g] == (if blocks2.contains_key(
                g,
            ) && !blocks2[g].used {
                Some(MemBlock { size: blocks2[g].size as usize, prev_space: 0 })
            } else {
                None
            }) by {
                if blocks.contains_key(g) {
                    assert(apart(blocks, g, h));
                }
            }
            assert forall|g: int|
                blocks2.contains_key(g) && blocks2[g].used implies (#[trigger] self.used_blocks@[g]).size
                == blocks2[g].size && self.used_blocks@[g].prev_space == space_before(
                blocks2,
                pred2,
                g,
            ) by {
                assert(block_ok(cap, blocks2, pred2, g));
                assert(blocks.contains_key(g));
                assert(block_ok(cap, blocks, pred, g));
                assert(apart(blocks, g, h));
                assert(old(self).used_blocks@[g].size == blocks[g].size);
                assert(space_before(blocks, pred, g) == old(self).used_blocks@[g].prev_space);
                if g != end {
                    assert(self.used_blocks@[g] == old(self).used_blocks@[g]);
                }
            }
            assert(order1 =~= order_with(order, h, merges_prev(blocks, pred, h)));
            if !merges_next(cap, blocks, h) {
                assert(order2 =~= order1);
            }
            if merges_next(cap, blocks, h) {
                assert(order1[removed_at] == n && order2 == order1.update(
                    removed_at,
                    order1.last(),
                ).drop_last());
            }
            assert forall|g: int|
                (blocks2.contains_key(g) && !#[trigger] blocks2[g].used) <==> ((!merges_prev(
                    blocks,
                    pred,
                    h,
                ) && g == h) || (blocks.contains_key(g) && !blocks[g].used && !(merges_next(
                    cap,
                    blocks,
                    h,
                ) && g == n))) by {
                if blocks.contains_key(g) {
                    assert(apart(blocks, g, h));
                }
            }
            lemma_order_release(
                blocks,
                blocks2,
                order,
                order2,
                h,
                n,
                merges_prev(blocks, pred, h),
                merges_next(cap, blocks, h),
            );
            assert(as_ints(order1) =~= (if merges_prev(blocks, pred, h) {
                as_ints(order)
            } else {
                as_ints(order).push(h)
            }));
            if merges_next(cap, blocks, h) {
                assert(removed_at == as_ints(order1).index_of(n));
                assert(as_ints(order2) =~= swap_removed(as_ints(order1), removed_at));
            }
            assert(self@.order =~= old(self)@.deallocate(h).order);
            assert(self@.blocks =~= old(self)@.deallocate(h).blocks);
        }
    }

    /// Whether `offset` is the offset of a block that is allocated now: what
    /// `deallocate` asks of its argument.
    pub fn is_allocated(&self, offset: usize) -> (r: bool)
        requires
            self.wf(),
        ensures
            r == (self@.is_block(offset as int) && self@.blocks[offset as int].used),
    {
        let ghost cap = self.capacity as int;
        let ghost blocks = self.blocks@;
        let ghost pred = self.pred@;
        let mut at: usize = 0;
        loop
            invariant
                self.wf(),
                cap == self.capacity,
                blocks == self.blocks@,
                pred == self.pred@,
                blocks.contains_key(at as int),
                at <= offset,
            decreases cap - at,
        {
            proof {
                assert(block_ok(cap, blocks, pred, at as int));
                if blocks.contains_key(offset as int) {
                    assert(apart(blocks, at as int, offset as int));
                    assert(block_ok(cap, blocks, pred, offset as int));
                }
            }
            let free = self.free_blocks[at];
            if at == offset {
                return free.is_none();
            }
            let size = match free {
                Some(block) => block.size,
                None => self.used_blocks[at].size,
            };
            let next = at + size;
            if next > offset || next == self.capacity {
                return false;
            }
            at = next;
        }
    }

    /// The sum of the sizes of all free blocks.
    pub fn free(&self) -> (r: usize)
        requires
            self.wf(),
        ensures
            r == self@.free_bytes(),
    {
        let ghost cap = self.capacity as int;
        let ghost blocks = self.blocks@;
        let ghost order = as_ints(self.free_blocks_indices@);
        let mut total: usize = 0;
        let mut i: usize = 0;
        while i < self.free_blocks_indices.len()
            invariant
                self.wf(),
                cap == self.capacity,
                blocks == self.blocks@,
                order == as_ints(self.free_blocks_indices@),
                i <= order.len(),
                total == list_bytes(blocks, order.subrange(0, i as int)),
                total == weight(blocks, order.subrange(0, i as int), 0),
            decreases order.len() - i,
        {
            let idx = self.free_blocks_indices[i];
            proof {
                let seen = order.subrange(0, i + 1);
                assert(seen.drop_last() =~= order.subrange(0, i as int));
                assert(blocks.contains_key(self.free_blocks_indices@[i as int] as int));
                assert(block_ok(cap, blocks, self.pred@, idx as int));
                assert(self.free_blocks@[idx as int].is_some());
                assert(packed(cap, blocks, seen, 0)) by {
                    assert forall|a: int| 0 <= a < seen.len() implies 0 <= #[trigger] seen[a]
                        && blocks[seen[a]].size >= 0 && seen[a] + 0 + blocks[seen[a]].size
                        <= cap by {
                        assert(blocks.contains_key(self.free_blocks_indices@[a] as int));
                        assert(block_ok(cap, blocks, self.pred@, seen[a]));
                    }
                    assert forall|a: int, b: int| 0 <= a < b < seen.len() implies #[trigger] seen[a]
                        + 0 + blocks[seen[a]].size <= #[trigger] seen[b] || seen[b] + 0
                        + blocks[seen[b]].size <= seen[a] by {
                        assert(blocks.contains_key(self.free_blocks_indices@[a] as int));
                        assert(blocks.contains_key(self.free_blocks_indices@[b] as int));
                        assert(self.free_blocks_indices@[a] != self.free_blocks_indices@[b]);
                        assert(apart(blocks, seen[a], seen[b]));
                    }
                }
                lemma_weight_bounded(cap, blocks, seen, 0);
            }
            let block = self.free_blocks[idx].unwrap();
            total += block.size;
            i += 1;
        }
        proof {
            assert(order.subrange(0, i as int) =~= order);
        }
        total
    }

    /// The bytes of the arena that are allocated.
    pub fn used(&self) -> (r: usize)
        requires
            self.wf(),
        ensures
            r == self@.capacity - self@.free_bytes(),
    {
        let free = self.free();
        proof {
            self.lemma_free_bounded();
        }
        self.capacity - free
    }

    /// The free blocks together hold no more than the arena.
    pub proof fn lemma_free_bounded(&self)
        requires
            self.wf(),
        ensures
            0 <= self@.free_bytes() <= self@.capacity,
    {
        let cap = self.capacity as int;
        let blocks = self.blocks@;
        let order = as_ints(self.free_blocks_indices@);
        assert(packed(cap, blocks, order, 0)) by {
            assert forall|a: int| 0 <= a < order.len() implies 0 <= #[trigger] order[a]
                && blocks[order[a]].size >= 0 && order[a] + 0 + blocks[order[a]].size <= cap by {
                assert(blocks.contains_key(self.free_blocks_indices@[a] as int));
                assert(block_ok(cap, blocks, self.pred@, order[a]));
            }
            assert forall|a: int, b: int| 0 <= a < b < order.len() implies #[trigger] order[a] + 0
                + blocks[order[a]].size <= #[trigger] order[b] || order[b] + 0
                + blocks[order[b]].size <= order[a] by {
                assert(blocks.contains_key(self.free_blocks_indices@[a] as int));
                assert(blocks.contains_key(self.free_blocks_indices@[b] as int));
                assert(self.free_blocks_indices@[a] != self.free_blocks_indices@[b]);
                assert(apart(blocks, order[a], order[b]));
            }
        }
        lemma_weight_bounded(cap, blocks, order, 0);
        lemma_weight_is_bytes(cap, blocks, order, self.pred@);
    }
}

/// Without bytes beside the payloads, what blocks weigh is the sum of their
/// payloads, and that is not negative.
pub proof fn lemma_weight_is_bytes(
    cap: int,
    blocks: Map<int, Block>,
    list: Seq<int>,
    pred: Map<int, int>,
)
    requires
        tiling(cap, blocks, pred),
        forall|i: int| 0 <= i < list.len() ==> blocks.contains_key(#[trigger] list[i]),
    ensures
        weight(blocks, list, 0) == list_bytes(blocks, list),
        list_bytes(blocks, list) >= 0,
    decreases list.len(),
{
    if list.len() > 0 {
        assert(blocks.contains_key(list[list.len() - 1]));
        assert(block_ok(cap, blocks, pred, list.last()));
        assert forall|i: int| 0 <= i < list.drop_last().len() implies blocks.contains_key(
            #[trigger] list.drop_last()[i],
        ) by {
            assert(list.drop_last()[i] == list[i]);
        }
        lemma_weight_is_bytes(cap, blocks, list.drop_last(), pred);
    }
}

} // verus!
