//! What follows for every valid state of the allocator.

use vstd::prelude::*;

use crate::index::{bucket_above, first_above, first_bucket_above};
use crate::mapping::{
    bucket_number, bucket_of, lemma_bucket_monotone, lemma_fl_index, lemma_sl_index, fl_index,
};
use crate::meta::align_up_spec;
use crate::model::{fl_of, sl_of, Block, State};

verus! {

/// No two blocks of a valid state overlap.
pub proof fn lemma_blocks_apart(s: State, h1: int, h2: int)
    requires
        s.valid(),
        s.is_block(h1),
        s.is_block(h2),
        h1 < h2,
    ensures
        s.end_of(h1) <= h2,
    decreases h2,
{
    assert(s.block_valid(h1));
    assert(s.block_valid(h2));
    let p = choose|p: int| s.is_block(p) && #[trigger] s.end_of(p) == h2;
    assert(s.block_valid(p));
    if p == h1 {
    } else if p < h1 {
        // the block before `h2` starts below `h1` and ends above it
        lemma_blocks_apart(s, p, h1);
    } else {
        lemma_blocks_apart(s, h1, p);
    }
}

/// Tiling: a walk from offset 0 that steps over each block by its payload
/// and its two tag words arrives exactly at the arena's capacity.
pub proof fn lemma_walk_reaches_end(s: State)
    requires
        s.valid(),
    ensures
        s.reaches_end(0),
{
    lemma_reaches_end_from(s, 0);
}

/// The walk from any block arrives at the end of the arena.
pub proof fn lemma_reaches_end_from(s: State, h: int)
    requires
        s.valid(),
        s.is_block(h),
    ensures
        s.reaches_end(h),
    decreases s.capacity - h,
{
    assert(s.block_valid(h));
    if s.end_of(h) < s.capacity {
        lemma_reaches_end_from(s, s.end_of(h));
    } else {
        assert(s.reaches_end(s.capacity));
    }
}

/// Tiling, no gaps: the walk from offset 0 comes by every block.
pub proof fn lemma_walk_meets_every_block(s: State, h: int)
    requires
        s.valid(),
        s.is_block(h),
    ensures
        s.walk_meets(0, h),
    decreases h,
{
    assert(s.block_valid(h));
    if h > 0 {
        let p = choose|p: int| s.is_block(p) && #[trigger] s.end_of(p) == h;
        assert(s.block_valid(p));
        lemma_walk_meets_every_block(s, p);
        lemma_walk_meets_next(s, 0, p);
    }
}

/// A walk that comes by a block comes by the block after it.
pub proof fn lemma_walk_meets_next(s: State, from: int, p: int)
    requires
        s.valid(),
        s.is_block(p),
        s.walk_meets(from, p),
    ensures
        s.walk_meets(from, s.end_of(p)),
    decreases p - from,
{
    assert(s.block_valid(p));
    if from != p {
        lemma_walk_meets_next(s, s.end_of(from), p);
    } else {
        assert(s.walk_meets(s.end_of(p), s.end_of(p)));
    }
}

/// No two free blocks touch.
pub proof fn lemma_no_free_neighbours(s: State, h: int)
    requires
        s.valid(),
        s.is_block(h),
        s.end_of(h) < s.capacity,
    ensures
        s.is_block(s.end_of(h)),
        s.blocks[h].used || s.blocks[s.end_of(h)].used,
{
    assert(s.block_valid(h));
}

/// Conservation: the payloads of all blocks and eight bytes of tags for each
/// make up the capacity.
pub proof fn lemma_conservation(s: State)
    requires
        s.valid(),
    ensures
        s.walk_payload(0) + 8 * s.walk_count(0) == s.capacity,
{
    lemma_conservation_from(s, 0);
}

/// The blocks from `h` on, with their tags, fill the arena from `h` on.
pub proof fn lemma_conservation_from(s: State, h: int)
    requires
        s.valid(),
        s.is_block(h),
    ensures
        s.walk_payload(h) + 8 * s.walk_count(h) == s.capacity - h,
    decreases s.capacity - h,
{
    assert(s.block_valid(h));
    if s.end_of(h) < s.capacity {
        lemma_conservation_from(s, s.end_of(h));
    } else {
        assert(s.walk_payload(s.capacity) == 0) by {
            if s.is_block(s.capacity) {
                assert(s.block_valid(s.capacity));
            }
        }
        assert(s.walk_count(s.capacity) == 0) by {
            if s.is_block(s.capacity) {
                assert(s.block_valid(s.capacity));
            }
        }
    }
}

/// Every block of a bucket above that of `size` is larger than `size`.
pub proof fn lemma_higher_bucket_is_larger(size: u32, other: u32)
    requires
        size > 0,
        other > 0,
        bucket_of(other) > bucket_of(size),
    ensures
        other > size,
{
    if other <= size {
        lemma_bucket_monotone(other, size);
    }
}

/// An allocation is refused exactly when no bucket above that of the aligned
/// size holds a block, and then nothing changes.
pub proof fn lemma_allocate_refusal(s: State, size: u32)
    requires
        s.valid(),
        size > 0,
    ensures
        s.allocate(size).1.is_none() <==> (align_up_spec(size as int, 8) > u32::MAX
            || forall|fl: u32, sl: u32|
            !#[trigger] bucket_above(
                s.buckets,
                bucket_of(align_up_spec(size as int, 8) as u32),
                fl,
                sl,
            )),
        s.allocate(size).1.is_none() ==> s.allocate(size).0 == s,
{
    let aligned = align_up_spec(size as int, 8);
    if aligned <= u32::MAX {
        let from = bucket_of(aligned as u32);
        if exists|fl: u32, sl: u32| bucket_above(s.buckets, from, fl, sl) {
            lemma_first_exists(s.buckets, from);
        }
    }
}

/// Among the non-empty buckets above `from` there is a lowest one.
pub proof fn lemma_first_exists(lists: Seq<Seq<Seq<int>>>, from: int)
    requires
        exists|fl: u32, sl: u32| bucket_above(lists, from, fl, sl),
    ensures
        exists|fl: u32, sl: u32| first_above(lists, from, fl, sl),
        first_bucket_above(lists, from).is_some(),
{
    let (f0, s0) = choose|fl: u32, sl: u32| bucket_above(lists, from, fl, sl);
    lemma_first_below(lists, from, f0, s0, bucket_number(f0, s0));
}

/// Below any non-empty bucket above `from` there is a lowest one.
proof fn lemma_first_below(lists: Seq<Seq<Seq<int>>>, from: int, f0: u32, s0: u32, n: int)
    requires
        bucket_above(lists, from, f0, s0),
        n == bucket_number(f0, s0),
    ensures
        exists|fl: u32, sl: u32| first_above(lists, from, fl, sl),
    decreases n,
{
    if forall|f: u32, s: u32| #[trigger]
        bucket_above(lists, from, f, s) ==> bucket_number(f0, s0) <= bucket_number(f, s) {
        assert(first_above(lists, from, f0, s0));
    } else {
        let (f1, s1) = choose|f: u32, s: u32| #[trigger]
            bucket_above(lists, from, f, s) && bucket_number(f0, s0) > bucket_number(f, s);
        lemma_first_below(lists, from, f1, s1, bucket_number(f1, s1));
    }
}

/// Search minimality: an allocation that succeeds takes a block no smaller
/// than the aligned size, from the lowest bucket above that of the aligned
/// size that holds a block; so every free block in a lower bucket, unless it
/// shares the bucket of the aligned size itself, is too small.
pub proof fn lemma_search_minimality(s: State, size: u32, g: int)
    requires
        s.valid(),
        size > 0,
        s.allocate(size).1.is_some(),
        s.is_block(g),
        !s.blocks[g].used,
    ensures
        ({
            let aligned = align_up_spec(size as int, 8);
            let h = s.allocate(size).1.unwrap();
            &&& s.is_block(h)
            &&& !s.blocks[h].used
            &&& s.blocks[h].size >= aligned
            &&& bucket_of(s.blocks[h].size as u32) > bucket_of(aligned as u32)
            &&& bucket_of(s.blocks[g].size as u32) < bucket_of(s.blocks[h].size as u32)
                ==> bucket_of(s.blocks[g].size as u32) <= bucket_of(aligned as u32)
            &&& bucket_of(s.blocks[g].size as u32) < bucket_of(aligned as u32) ==> s.blocks[g].size
                < aligned
        }),
{
    let aligned = align_up_spec(size as int, 8);
    let from = bucket_of(aligned as u32);
    lemma_first_exists(s.buckets, from);
    let (fl, sl) = choose|fl: u32, sl: u32| first_above(s.buckets, from, fl, sl);
    assert(first_bucket_above(s.buckets, from) == Some((fl, sl)));
    let h = s.buckets[fl as int][sl as int][0];
    assert(s.is_entry(fl as int, sl as int, 0));
    assert(s.entry_valid(fl as int, sl as int, 0));
    assert(s.block_valid(h));
    assert(s.block_valid(g));
    lemma_higher_bucket_is_larger(aligned as u32, s.blocks[h].size as u32);
    let gf = fl_of(s.blocks[g].size);
    let gs = sl_of(s.blocks[g].size);
    if bucket_of(s.blocks[g].size as u32) < bucket_of(s.blocks[h].size as u32) && bucket_of(
        s.blocks[g].size as u32,
    ) > from {
        assert(bucket_above(s.buckets, from, gf as u32, gs as u32));
    }
    if bucket_of(s.blocks[g].size as u32) < from {
        if s.blocks[g].size >= aligned {
            lemma_bucket_monotone(aligned as u32, s.blocks[g].size as u32);
        }
    }
}

/// The bytes that a request of `size` bytes takes: the size rounded up to a
/// multiple of eight.
pub open spec fn aligned(size: u32) -> int {
    align_up_spec(size as int, 8)
}

/// The bytes that the requests `sizes` take together, each with its two tag
/// words.
pub open spec fn total_need(sizes: Seq<u32>) -> int
    decreases sizes.len(),
{
    if sizes.len() == 0 {
        0
    } else {
        aligned(sizes[0]) + 8 + total_need(sizes.drop_first())
    }
}

/// Whether the calls `allocate(sizes[0])`, `allocate(sizes[1])`, ... all
/// succeed when they are made one after another from state `s`.
pub open spec fn all_succeed(s: State, sizes: Seq<u32>) -> bool
    decreases sizes.len(),
{
    if sizes.len() == 0 {
        true
    } else {
        s.allocate(sizes[0]).1.is_some() && all_succeed(s.allocate(sizes[0]).0, sizes.drop_first())
    }
}

/// Whether at none of the calls the free block of `rest` bytes that is left
/// then lies in the bucket of the request itself, which the search passes
/// over.
pub open spec fn never_shares_bucket(rest: int, sizes: Seq<u32>) -> bool
    decreases sizes.len(),
{
    if sizes.len() == 0 {
        true
    } else {
        bucket_of(rest as u32) != bucket_of(aligned(sizes[0]) as u32) && never_shares_bucket(
            rest - aligned(sizes[0]) - 8,
            sizes.drop_first(),
        )
    }
}

/// The one free block of `s` is the block at `o` with `rest` bytes.
pub open spec fn single_free(s: State, o: int, rest: int) -> bool {
    &&& s.buckets == crate::model::pushed(crate::model::empty_buckets(), o, rest)
    &&& s.is_block(o)
    &&& s.blocks[o] == (Block { size: rest, used: false })
}

/// Round trip: allocations made one after another on a new arena, with none
/// freed, all succeed when the aligned sizes with eight bytes of tags for
/// each fit the capacity, unless at one of the calls the free block that is
/// left shares the bucket of the request.
pub proof fn lemma_allocations_fit(capacity: int, sizes: Seq<u32>)
    requires
        16 <= capacity <= u32::MAX,
        capacity % 8 == 0,
        forall|i: int| 0 <= i < sizes.len() ==> sizes[i] > 0,
        total_need(sizes) <= capacity,
        never_shares_bucket(capacity - 8, sizes),
    ensures
        all_succeed(State::fresh(capacity), sizes),
{
    let s = State::fresh(capacity);
    lemma_allocations_from(s, 0, capacity - 8, sizes);
}

/// The step of `lemma_allocations_fit`: from a state whose one free block
/// holds `rest` bytes.
proof fn lemma_allocations_from(s: State, o: int, rest: int, sizes: Seq<u32>)
    requires
        single_free(s, o, rest),
        0 <= rest <= u32::MAX,
        rest % 8 == 0,
        forall|i: int| 0 <= i < sizes.len() ==> sizes[i] > 0,
        total_need(sizes) <= rest + 8,
        never_shares_bucket(rest, sizes),
    ensures
        all_succeed(s, sizes),
    decreases sizes.len(),
{
    if sizes.len() > 0 {
        let size = sizes[0];
        let a = aligned(size);
        let tail = sizes.drop_first();
        lemma_total_need_positive(tail);
        assert(8 <= a <= rest) by {
            assert(size > 0);
        }
        let from = bucket_of(a as u32);
        let fl = crate::model::fl_of(rest) as u32;
        let sl = crate::model::sl_of(rest) as u32;
        lemma_fl_index(rest as u32);
        lemma_sl_index(rest as u32, fl_index(rest as u32));
        lemma_bucket_monotone(a as u32, rest as u32);
        let empty = crate::model::empty_buckets();
        assert(s.buckets[fl as int][sl as int] =~= seq![o]);
        assert forall|f: u32, t: u32| #[trigger]
            bucket_above(s.buckets, from, f, t) implies bucket_number(fl, sl) <= bucket_number(
            f,
            t,
        ) by {
            if f != fl || t != sl {
                assert(s.buckets[f as int][t as int] =~= empty[f as int][t as int]);
            }
        }
        assert(first_above(s.buckets, from, fl, sl));
        crate::index::lemma_first_bucket_above(s.buckets, from, fl, sl);
        let next = s.allocate(size).0;
        assert(s.allocate(size).1 == Some(o));
        let popped = crate::index::with_bucket(
            s.buckets,
            fl as int,
            sl as int,
            s.buckets[fl as int][sl as int].drop_first(),
        );
        assert(popped =~= empty) by {
            assert forall|f: int| 0 <= f < 32 implies #[trigger] popped[f] =~= empty[f] by {
                assert forall|t: int| 0 <= t < 8 implies #[trigger] popped[f][t]
                    =~= empty[f][t] by {}
            }
        }
        if tail.len() > 0 {
            assert(aligned(tail[0]) >= 8) by {
                assert(tail[0] == sizes[1]);
            }
            assert(rest - a >= 16);
            assert(single_free(next, o + 8 + a, rest - a - 8));
            assert forall|i: int| 0 <= i < tail.len() implies tail[i] > 0 by {
                assert(tail[i] == sizes[i + 1]);
            }
            lemma_allocations_from(next, o + 8 + a, rest - a - 8, tail);
        } else {
            assert(all_succeed(next, tail));
        }
    }
}

/// What requests take together is not negative.
proof fn lemma_total_need_positive(sizes: Seq<u32>)
    ensures
        total_need(sizes) >= 0,
        sizes.len() > 0 ==> total_need(sizes) >= aligned(sizes[0]) + 8,
    decreases sizes.len(),
{
    if sizes.len() > 0 {
        lemma_total_need_positive(sizes.drop_first());
    }
}

} // verus!
