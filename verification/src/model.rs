//! The allocator as a mathematical object: which blocks tile the arena, which
//! of them are allocated, and in what order the free ones stand in their
//! buckets.

use vstd::prelude::*;

use crate::arena::byte_at;
use crate::index::{first_bucket_above, with_bucket};
use crate::mapping::{bucket_of, fl_index, sl_index};
use crate::meta::align_up_spec;

verus! {

/// One block: the bytes of its payload and whether it is allocated.
pub struct Block {
    pub size: int,
    pub used: bool,
}

/// The state of an allocator. A block is named by the offset of its head;
/// `buckets[fl][sl]` lists the free blocks of bucket `(fl, sl)`, the one that
/// is served first in front.
pub struct State {
    pub capacity: int,
    pub blocks: Map<int, Block>,
    pub buckets: Seq<Seq<Seq<int>>>,
}

/// Every byte in the payload of a block that `blocks` has as allocated,
/// but for the block at `except`, is in `after` what it is in `before`.
pub open spec fn payloads_kept(
    before: Seq<u8>,
    after: Seq<u8>,
    blocks: Map<int, Block>,
    except: int,
) -> bool {
    forall|g: int, i: int|
        #![trigger blocks.contains_key(g), byte_at(after, i)]
        blocks.contains_key(g) && blocks[g].used && g != except && g + 4 <= i < g + 4
            + blocks[g].size ==> byte_at(after, i) == byte_at(before, i)
}

/// The first-level index of the bucket for a payload of `size` bytes.
pub open spec fn fl_of(size: int) -> int {
    fl_index(size as u32) as int
}

/// The second-level index of the bucket for a payload of `size` bytes.
pub open spec fn sl_of(size: int) -> int {
    sl_index(size as u32, fl_index(size as u32)) as int
}

/// Thirty-two times eight empty lists.
pub open spec fn empty_buckets() -> Seq<Seq<Seq<int>>> {
    Seq::new(32, |fl: int| Seq::new(8, |sl: int| Seq::<int>::empty()))
}

/// The buckets with the free block at `h`, of payload `size`, put in front
/// of its bucket's list.
pub open spec fn pushed(buckets: Seq<Seq<Seq<int>>>, h: int, size: int) -> Seq<Seq<Seq<int>>> {
    with_bucket(buckets, fl_of(size), sl_of(size), seq![h] + buckets[fl_of(size)][sl_of(size)])
}

/// The buckets with the free block at `h`, of payload `size`, taken out of
/// its bucket's list.
pub open spec fn removed(buckets: Seq<Seq<Seq<int>>>, h: int, size: int) -> Seq<Seq<Seq<int>>> {
    let list = buckets[fl_of(size)][sl_of(size)];
    with_bucket(buckets, fl_of(size), sl_of(size), list.remove(list.index_of(h)))
}

/// The sum of the payloads of the blocks that `list` names.
pub open spec fn list_bytes(blocks: Map<int, Block>, list: Seq<int>) -> int
    decreases list.len(),
{
    if list.len() == 0 {
        0
    } else {
        list_bytes(blocks, list.drop_last()) + blocks[list.last()].size
    }
}

/// The sum of the payloads in the first `n` lists of one first-level class.
pub open spec fn row_bytes(blocks: Map<int, Block>, row: Seq<Seq<int>>, n: int) -> int
    decreases n,
{
    if n <= 0 {
        0
    } else {
        row_bytes(blocks, row, n - 1) + list_bytes(blocks, row[n - 1])
    }
}

/// The sum of the payloads in the lists of the first `n` first-level classes.
pub open spec fn rows_bytes(blocks: Map<int, Block>, buckets: Seq<Seq<Seq<int>>>, n: int) -> int
    decreases n,
{
    if n <= 0 {
        0
    } else {
        rows_bytes(blocks, buckets, n - 1) + row_bytes(blocks, buckets[n - 1], 8)
    }
}

impl State {
    /// Whether a block starts at offset `h`.
    pub open spec fn is_block(self, h: int) -> bool {
        self.blocks.contains_key(h)
    }

    /// The offset at which the block at `h` ends and the next one starts.
    pub open spec fn end_of(self, h: int) -> int {
        h + 8 + self.blocks[h].size
    }

    /// `k` is a position in the list of bucket `(fl, sl)`.
    pub open spec fn is_entry(self, fl: int, sl: int, k: int) -> bool {
        &&& 0 <= fl < 32
        &&& 0 <= sl < 8
        &&& 0 <= k < self.buckets[fl][sl].len()
    }

    /// The block at `h` lies in the arena on an eight-byte boundary with an
    /// aligned payload of eight bytes at least; where it ends the arena ends
    /// or a block starts, and of the two that one or this one is allocated;
    /// where it starts the arena starts or a block ends.
    pub open spec fn block_valid(self, h: int) -> bool {
        &&& 0 <= h
        &&& h % 8 == 0
        &&& self.blocks[h].size >= 8
        &&& self.blocks[h].size % 8 == 0
        &&& self.end_of(h) <= self.capacity
        &&& (self.end_of(h) < self.capacity ==> self.is_block(self.end_of(h)) && (
        self.blocks[h].used || self.blocks[self.end_of(h)].used))
        &&& (h > 0 ==> exists|p: int| self.is_block(p) && #[trigger] self.end_of(p) == h)
    }

    /// Block `k` of bucket `(fl, sl)` is a free block whose size belongs in
    /// that bucket.
    pub open spec fn entry_valid(self, fl: int, sl: int, k: int) -> bool {
        let e = self.buckets[fl][sl][k];
        &&& self.is_block(e)
        &&& !self.blocks[e].used
        &&& fl_of(self.blocks[e].size) == fl
        &&& sl_of(self.blocks[e].size) == sl
    }

    /// What holds of the state between any two operations: the blocks tile
    /// the arena, no two free blocks touch, and the lists hold each free
    /// block once, in the bucket of its size, and nothing else.
    pub open spec fn valid(self) -> bool {
        &&& 16 <= self.capacity <= u32::MAX
        &&& self.capacity % 8 == 0
        &&& self.is_block(0)
        &&& forall|h: int| self.is_block(h) ==> #[trigger] self.block_valid(h)
        &&& self.buckets.len() == 32
        &&& forall|fl: int| 0 <= fl < 32 ==> (#[trigger] self.buckets[fl]).len() == 8
        &&& forall|fl: int, sl: int, k: int| #[trigger]
            self.is_entry(fl, sl, k) ==> self.entry_valid(fl, sl, k)
        &&& forall|fl1: int, sl1: int, k1: int, fl2: int, sl2: int, k2: int|
            #![trigger self.is_entry(fl1, sl1, k1), self.is_entry(fl2, sl2, k2)]
            self.is_entry(fl1, sl1, k1) && self.is_entry(fl2, sl2, k2) && !(fl1 == fl2 && sl1
                == sl2 && k1 == k2) ==> self.buckets[fl1][sl1][k1] != self.buckets[fl2][sl2][k2]
        &&& forall|h: int| #[trigger]
            self.is_block(h) && !self.blocks[h].used ==> 0 <= fl_of(self.blocks[h].size) < 32 && 0
                <= sl_of(self.blocks[h].size) < 8 && self.buckets[fl_of(self.blocks[h].size)][sl_of(
                self.blocks[h].size,
            )].contains(h)
    }

    /// Whether a walk that starts at offset `from` and steps from each block
    /// to the end of it arrives at the end of the arena.
    pub open spec fn reaches_end(self, from: int) -> bool
        decreases self.capacity - from,
    {
        if from == self.capacity {
            true
        } else if self.is_block(from) && from < self.end_of(from) <= self.capacity {
            self.reaches_end(self.end_of(from))
        } else {
            false
        }
    }

    /// Whether the walk from `from` comes by the block at `h`.
    pub open spec fn walk_meets(self, from: int, h: int) -> bool
        decreases h - from,
    {
        if from == h {
            true
        } else if self.is_block(from) && from < self.end_of(from) <= h {
            self.walk_meets(self.end_of(from), h)
        } else {
            false
        }
    }

    /// The sum of the payloads of the blocks that the walk from `from` comes
    /// by.
    pub open spec fn walk_payload(self, from: int) -> int
        decreases self.capacity - from,
    {
        if self.is_block(from) && from < self.end_of(from) <= self.capacity {
            self.blocks[from].size + self.walk_payload(self.end_of(from))
        } else {
            0
        }
    }

    /// The number of blocks that the walk from `from` comes by.
    pub open spec fn walk_count(self, from: int) -> int
        decreases self.capacity - from,
    {
        if self.is_block(from) && from < self.end_of(from) <= self.capacity {
            1 + self.walk_count(self.end_of(from))
        } else {
            0
        }
    }

    /// The arena right after construction: one free block over all of it.
    pub open spec fn fresh(capacity: int) -> State {
        State {
            capacity,
            blocks: Map::<int, Block>::empty().insert(0, Block { size: capacity - 8, used: false }),
            buckets: pushed(empty_buckets(), 0, capacity - 8),
        }
    }

    /// The sum of the payloads of all free blocks, by a walk of the lists.
    pub open spec fn free_bytes(self) -> int {
        rows_bytes(self.blocks, self.buckets, 32)
    }

    /// The bucket that serves a request of `size` bytes: the lowest one that
    /// is not empty among those above the bucket of the aligned size.
    pub open spec fn search(self, size: u32) -> Option<(u32, u32)> {
        let aligned = align_up_spec(size as int, 8);
        if aligned > u32::MAX {
            None
        } else {
            first_bucket_above(self.buckets, bucket_of(aligned as u32))
        }
    }

    /// The state after `allocate(size)`, and the offset that the call returns.
    pub open spec fn allocate(self, size: u32) -> (State, Option<int>) {
        let aligned = align_up_spec(size as int, 8);
        match self.search(size) {
            None => (self, None),
            Some((fl, sl)) => {
                let list = self.buckets[fl as int][sl as int];
                let h = list[0];
                let total = self.blocks[h].size;
                let popped = with_bucket(self.buckets, fl as int, sl as int, list.drop_first());
                if total - aligned >= 16 {
                    let rest = h + 8 + aligned;
                    let rest_size = total - aligned - 8;
                    (
                        State {
                            capacity: self.capacity,
                            blocks: self.blocks.insert(h, Block { size: aligned, used: true }).insert(
                                rest,
                                Block { size: rest_size, used: false },
                            ),
                            buckets: pushed(popped, rest, rest_size),
                        },
                        Some(h),
                    )
                } else {
                    (
                        State {
                            capacity: self.capacity,
                            blocks: self.blocks.insert(h, Block { size: total, used: true }),
                            buckets: popped,
                        },
                        Some(h),
                    )
                }
            },
        }
    }

    /// The block that ends where the block at `h` starts.
    pub open spec fn before(self, h: int) -> int {
        choose|p: int| self.is_block(p) && self.end_of(p) == h
    }

    /// The state after `deallocate(h)`: the block and its free neighbours
    /// become one free block, in front of its bucket's list.
    pub open spec fn deallocate(self, h: int) -> State {
        let next = self.end_of(h);
        let prev = self.before(h);
        let merge_next = next < self.capacity && !self.blocks[next].used;
        let merge_prev = h > 0 && !self.blocks[prev].used;
        let start = if merge_prev {
            prev
        } else {
            h
        };
        let end = if merge_next {
            self.end_of(next)
        } else {
            next
        };
        let buckets1 = if merge_next {
            removed(self.buckets, next, self.blocks[next].size)
        } else {
            self.buckets
        };
        let buckets2 = if merge_prev {
            removed(buckets1, prev, self.blocks[prev].size)
        } else {
            buckets1
        };
        let blocks1 = if merge_next {
            self.blocks.remove(next)
        } else {
            self.blocks
        };
        let blocks2 = if merge_prev {
            blocks1.remove(h)
        } else {
            blocks1
        };
        State {
            capacity: self.capacity,
            blocks: blocks2.insert(start, Block { size: end - start - 8, used: false }),
            buckets: pushed(buckets2, start, end - start - 8),
        }
    }
}

} // verus!
