//! The layout of the arena as the allocator's model has it, and what each
//! step of an allocation or a deallocation keeps of it: the blocks tile the
//! arena, their tags say what the model says, and the lists hold the free
//! blocks.

use vstd::prelude::*;

use crate::arena::{apart_from, byte_at, bytes_kept, word_at};
use crate::block::{
    lemma_flag_change, lemma_make_tag, lemma_written_tags, make_tag, tag_next_used, tag_prev_used,
    tag_size, tag_used, NEXT_USED, PREV_USED,
};
use crate::index::{off_links, spaced, with_bucket, FreeIndex};
use crate::model::{fl_of, payloads_kept, pushed, removed, sl_of, Block, State};

verus! {

/// Whether the block before the one at `h` is allocated, or there is none.
pub(crate) open spec fn prev_used(blocks: Map<int, Block>, pred: Map<int, int>, h: int) -> bool {
    h == 0 || blocks[pred[h]].used
}

/// Whether the block after the one at `h` is allocated, or there is none.
pub(crate) open spec fn next_used(cap: int, blocks: Map<int, Block>, h: int) -> bool {
    h + 8 + blocks[h].size == cap || blocks[h + 8 + blocks[h].size].used
}

/// The tag word that the head and the tail of the block at `h` hold.
pub(crate) open spec fn tag_of(
    cap: int,
    blocks: Map<int, Block>,
    pred: Map<int, int>,
    h: int,
) -> u32 {
    make_tag(
        blocks[h].size as u32,
        blocks[h].used,
        prev_used(blocks, pred, h),
        next_used(cap, blocks, h),
    )
}

/// The block at `h` lies in the arena, the next block starts where it ends,
/// the block `pred[h]` ends where it starts, and it is not free beside a free
/// block.
pub(crate) open spec fn block_ok(
    cap: int,
    blocks: Map<int, Block>,
    pred: Map<int, int>,
    h: int,
) -> bool {
    let size = blocks[h].size;
    let end = h + 8 + size;
    &&& 0 <= h
    &&& h % 8 == 0
    &&& size >= 8
    &&& size % 8 == 0
    &&& end <= cap
    &&& (end < cap ==> blocks.contains_key(end) && pred.contains_key(end) && pred[end] == h && (
    blocks[h].used || blocks[end].used))
    &&& (h > 0 ==> pred.contains_key(h) && blocks.contains_key(pred[h]) && pred[h] + 8
        + blocks[pred[h]].size == h)
}

/// The blocks tile the arena.
pub(crate) open spec fn tiling(cap: int, blocks: Map<int, Block>, pred: Map<int, int>) -> bool {
    &&& 16 <= cap <= u32::MAX
    &&& cap % 8 == 0
    &&& blocks.contains_key(0)
    &&& forall|h: int| blocks.contains_key(h) ==> #[trigger] block_ok(cap, blocks, pred, h)
    &&& forall|h1: int, h2: int|
        blocks.contains_key(h1) && blocks.contains_key(h2) ==> #[trigger] apart(blocks, h1, h2)
}

/// Of two blocks the lower one ends before the higher one starts.
pub(crate) open spec fn apart(blocks: Map<int, Block>, h1: int, h2: int) -> bool {
    &&& h1 < h2 ==> h1 + 8 + blocks[h1].size <= h2
    &&& h2 < h1 ==> h2 + 8 + blocks[h2].size <= h1
}

/// Head and tail of every block hold the block's tag word.
pub(crate) open spec fn tags_ok(
    mem: Seq<u8>,
    cap: int,
    blocks: Map<int, Block>,
    pred: Map<int, int>,
) -> bool {
    forall|h: int|
        blocks.contains_key(h) ==> word_at(mem, h) == #[trigger] tag_of(cap, blocks, pred, h)
            && word_at(mem, h + 4 + blocks[h].size) == tag_of(cap, blocks, pred, h)
}

/// Every listed block is a free block in the bucket of its size.
pub(crate) open spec fn entries_free(index: FreeIndex, blocks: Map<int, Block>) -> bool {
    forall|fl: int, sl: int, k: int| #[trigger]
        index.is_entry(fl, sl, k) ==> {
            let e = index.lists@[fl][sl][k];
            &&& blocks.contains_key(e)
            &&& !blocks[e].used
            &&& fl_of(blocks[e].size) == fl
            &&& sl_of(blocks[e].size) == sl
        }
}

/// Every free block but those in `except` is listed in the bucket of its
/// size.
pub(crate) open spec fn free_listed(
    index: FreeIndex,
    blocks: Map<int, Block>,
    except: Set<int>,
) -> bool {
    forall|h: int| #[trigger]
        blocks.contains_key(h) && !blocks[h].used && !except.contains(h) ==> listed_at(
            index,
            h,
            fl_of(blocks[h].size),
            sl_of(blocks[h].size),
        )
}

/// The block at `h` stands in the list of bucket `(fl, sl)`.
pub(crate) open spec fn listed_at(index: FreeIndex, h: int, fl: int, sl: int) -> bool {
    &&& 0 <= fl < 32
    &&& 0 <= sl < 8
    &&& index.lists@[fl][sl].contains(h)
}

/// What the head and the tail of a block say is what the model says of it.
pub(crate) proof fn lemma_tag_fields(
    mem: Seq<u8>,
    cap: int,
    blocks: Map<int, Block>,
    pred: Map<int, int>,
    h: int,
)
    requires
        tiling(cap, blocks, pred),
        tags_ok(mem, cap, blocks, pred),
        blocks.contains_key(h),
    ensures
        block_ok(cap, blocks, pred, h),
        word_at(mem, h) == tag_of(cap, blocks, pred, h),
        word_at(mem, h + 4 + blocks[h].size) == tag_of(cap, blocks, pred, h),
        tag_size(tag_of(cap, blocks, pred, h)) == blocks[h].size,
        tag_used(tag_of(cap, blocks, pred, h)) == blocks[h].used,
        tag_prev_used(tag_of(cap, blocks, pred, h)) == prev_used(blocks, pred, h),
        tag_next_used(tag_of(cap, blocks, pred, h)) == next_used(cap, blocks, h),
{
    assert(block_ok(cap, blocks, pred, h));
    lemma_make_tag(
        blocks[h].size as u32,
        blocks[h].used,
        prev_used(blocks, pred, h),
        next_used(cap, blocks, h),
    );
}

/// Head and tail of a block share no byte with the link words in the
/// payload of any block.
pub(crate) proof fn lemma_links_apart_from_tags(
    cap: int,
    blocks: Map<int, Block>,
    pred: Map<int, int>,
    e: int,
    h: int,
)
    requires
        tiling(cap, blocks, pred),
        blocks.contains_key(e),
        blocks.contains_key(h),
    ensures
        off_links(h, e),
        off_links(h + 4 + blocks[h].size, e),
        0 <= h,
        8 <= blocks[h].size,
        h + 8 + blocks[h].size <= cap,
{
    assert(block_ok(cap, blocks, pred, e));
    assert(block_ok(cap, blocks, pred, h));
    assert(apart(blocks, e, h));
}

/// A change of the arena that keeps the link words of every listed block
/// keeps the index well-formed.
pub(crate) proof fn lemma_index_frame(index: FreeIndex, mem0: Seq<u8>, mem1: Seq<u8>)
    requires
        index.wf(mem0),
        mem1.len() == mem0.len(),
        forall|fl: int, sl: int, k: int| #[trigger]
            index.is_entry(fl, sl, k) ==> word_at(mem1, index.lists@[fl][sl][k] + 4) == word_at(
                mem0,
                index.lists@[fl][sl][k] + 4,
            ) && word_at(mem1, index.lists@[fl][sl][k] + 8) == word_at(
                mem0,
                index.lists@[fl][sl][k] + 8,
            ),
    ensures
        index.wf(mem1),
{
    assert forall|fl: int, sl: int, k: int| #[trigger] index.is_entry(fl, sl, k) implies index.entry_ok(
        mem1,
        fl,
        sl,
        k,
    ) by {
        assert(index.entry_ok(mem0, fl, sl, k));
    }
}

/// Writing link words into the payloads of blocks `e1` and `e2` changes no
/// tag word.
pub(crate) proof fn lemma_link_writes_keep_tags(
    cap: int,
    blocks: Map<int, Block>,
    pred: Map<int, int>,
    mem0: Seq<u8>,
    mem1: Seq<u8>,
    e1: int,
    e2: int,
)
    requires
        mem0.len() == cap,
        mem1.len() == cap,
        tiling(cap, blocks, pred),
        tags_ok(mem0, cap, blocks, pred),
        blocks.contains_key(e1),
        blocks.contains_key(e2),
        forall|o: int|
            0 <= o && o + 4 <= cap && off_links(o, e1) && off_links(o, e2) ==> #[trigger] word_at(
                mem1,
                o,
            ) == word_at(mem0, o),
    ensures
        tags_ok(mem1, cap, blocks, pred),
{
    assert forall|h: int| blocks.contains_key(h) implies word_at(mem1, h) == #[trigger] tag_of(
        cap,
        blocks,
        pred,
        h,
    ) && word_at(mem1, h + 4 + blocks[h].size) == tag_of(cap, blocks, pred, h) by {
        assert(block_ok(cap, blocks, pred, h));
        lemma_links_apart_from_tags(cap, blocks, pred, e1, h);
        lemma_links_apart_from_tags(cap, blocks, pred, e2, h);
        assert(word_at(mem1, h) == word_at(mem0, h));
        assert(word_at(mem1, h + 4 + blocks[h].size) == word_at(mem0, h + 4 + blocks[h].size));
    }
}

/// After the first block of a bucket has left its list, every listed block is
/// still a free block of its bucket, and every free block but that one is
/// still listed.
pub(crate) proof fn lemma_pop_detaches(
    blocks: Map<int, Block>,
    before: FreeIndex,
    after: FreeIndex,
    fl: int,
    sl: int,
)
    requires
        before.shape_ok(),
        before.distinct(),
        entries_free(before, blocks),
        free_listed(before, blocks, Set::empty()),
        before.is_entry(fl, sl, 0),
        after.lists@ == with_bucket(before.lists@, fl, sl, before.lists@[fl][sl].drop_first()),
    ensures
        entries_free(after, blocks),
        free_listed(after, blocks, set![before.lists@[fl][sl][0]]),
        after.unlisted(before.lists@[fl][sl][0]),
        blocks.contains_key(before.lists@[fl][sl][0]),
        !blocks[before.lists@[fl][sl][0]].used,
        fl_of(blocks[before.lists@[fl][sl][0]].size) == fl,
        sl_of(blocks[before.lists@[fl][sl][0]].size) == sl,
{
    let list = before.lists@[fl][sl];
    let b = list[0];
    assert forall|f: int, s: int, k: int| #[trigger] after.is_entry(f, s, k) implies ({
        let e = after.lists@[f][s][k];
        &&& blocks.contains_key(e)
        &&& !blocks[e].used
        &&& fl_of(blocks[e].size) == f
        &&& sl_of(blocks[e].size) == s
        &&& spaced(e, b)
    }) by {
        if f == fl && s == sl {
            assert(before.is_entry(f, s, k + 1));
        } else {
            assert(before.is_entry(f, s, k));
        }
    }
    assert forall|h: int| #[trigger]
        blocks.contains_key(h) && !blocks[h].used && !set![b].contains(h) implies listed_at(
        after,
        h,
        fl_of(blocks[h].size),
        sl_of(blocks[h].size),
    ) by {
        let f = fl_of(blocks[h].size);
        let s = sl_of(blocks[h].size);
        assert(listed_at(before, h, f, s));
        let k = before.lists@[f][s].index_of(h);
        assert(before.lists@[f][s][k] == h);
        if f == fl && s == sl {
            assert(after.lists@[f][s][k - 1] == h);
        } else {
            assert(after.lists@[f][s] == before.lists@[f][s]);
        }
    }
}

/// The offset at which the run of the block at `h` and its neighbours
/// starts: the head of the block before it, or its own where it is first.
pub(crate) open spec fn run_start(pred: Map<int, int>, h: int) -> int {
    if h > 0 {
        pred[h]
    } else {
        h
    }
}

/// The offset at which the run of the block at `h` and its neighbours ends:
/// the end of the block after it, or its own where it is last.
pub(crate) open spec fn run_end(cap: int, blocks: Map<int, Block>, h: int) -> int {
    let n = h + 8 + blocks[h].size;
    if n < cap {
        n + 8 + blocks[n].size
    } else {
        n
    }
}

/// A change of the arena inside a run of blocks none of which is listed
/// keeps the index well-formed.
pub(crate) proof fn lemma_run_keeps_index(
    cap: int,
    blocks: Map<int, Block>,
    pred: Map<int, int>,
    index: FreeIndex,
    mem0: Seq<u8>,
    mem1: Seq<u8>,
    h: int,
)
    requires
        mem0.len() == cap,
        mem1.len() == cap,
        tiling(cap, blocks, pred),
        index.wf(mem0),
        blocks.contains_key(h),
        forall|fl: int, sl: int, k: int| #[trigger]
            index.is_entry(fl, sl, k) ==> {
                let e = index.lists@[fl][sl][k];
                &&& blocks.contains_key(e)
                &&& e != h
                &&& (h > 0 ==> e != pred[h])
                &&& e != h + 8 + blocks[h].size
            },
        forall|o: int|
            0 <= o && o + 4 <= cap && (o + 4 <= run_start(pred, h) || o >= run_end(cap, blocks, h))
                ==> #[trigger] word_at(mem1, o) == word_at(mem0, o),
    ensures
        index.wf(mem1),
{
    assert(block_ok(cap, blocks, pred, h));
    let n = h + 8 + blocks[h].size;
    if n < cap {
        assert(block_ok(cap, blocks, pred, n));
    }
    if h > 0 {
        assert(block_ok(cap, blocks, pred, pred[h]));
    }
    assert forall|fl: int, sl: int, k: int| #[trigger] index.is_entry(fl, sl, k) implies word_at(
        mem1,
        index.lists@[fl][sl][k] + 4,
    ) == word_at(mem0, index.lists@[fl][sl][k] + 4) && word_at(mem1, index.lists@[fl][sl][k] + 8)
        == word_at(mem0, index.lists@[fl][sl][k] + 8) by {
        let e = index.lists@[fl][sl][k];
        assert(block_ok(cap, blocks, pred, e));
        assert(apart(blocks, e, h));
        if n < cap {
            assert(apart(blocks, e, n));
        }
        if h > 0 {
            assert(apart(blocks, e, pred[h]));
        }
        assert(index.entry_ok(mem0, fl, sl, k));
    }
    lemma_index_frame(index, mem0, mem1);
}

/// Marking the free block at `h` as allocated, with the flags of its two
/// neighbours set to match, gives a tiled arena whose tags agree with the
/// model.
pub(crate) proof fn lemma_absorb(
    cap: int,
    blocks: Map<int, Block>,
    pred: Map<int, int>,
    mem0: Seq<u8>,
    mem1: Seq<u8>,
    h: int,
)
    requires
        mem0.len() == cap,
        mem1.len() == cap,
        tiling(cap, blocks, pred),
        tags_ok(mem0, cap, blocks, pred),
        blocks.contains_key(h),
        !blocks[h].used,
        ({
            let total = blocks[h].size;
            let n = h + 8 + total;
            let p = pred[h];
            &&& word_at(mem1, h) == make_tag(total as u32, true, true, true)
            &&& word_at(mem1, h + 4 + total) == make_tag(total as u32, true, true, true)
            &&& n < cap ==> word_at(mem1, n) == word_at(mem0, n) | PREV_USED && word_at(
                mem1,
                n + 4 + blocks[n].size,
            ) == word_at(mem0, n) | PREV_USED
            &&& h > 0 ==> word_at(mem1, p) == word_at(mem0, p) | NEXT_USED && word_at(mem1, h - 4)
                == word_at(mem0, p) | NEXT_USED
        }),
        forall|o: int|
            0 <= o && o + 4 <= cap && (o + 4 <= run_start(pred, h) || o >= run_end(cap, blocks, h))
                ==> #[trigger] word_at(mem1, o) == word_at(mem0, o),
    ensures
        tiling(cap, blocks.insert(h, Block { size: blocks[h].size, used: true }), pred),
        tags_ok(mem1, cap, blocks.insert(h, Block { size: blocks[h].size, used: true }), pred),
{
    let blocks2 = blocks.insert(h, Block { size: blocks[h].size, used: true });
    let total = blocks[h].size;
    let n = h + 8 + total;
    let p = pred[h];
    assert(block_ok(cap, blocks, pred, h));
    assert forall|g: int| blocks2.contains_key(g) implies #[trigger] block_ok(
        cap,
        blocks2,
        pred,
        g,
    ) by {
        assert(blocks.contains_key(g));
        assert(block_ok(cap, blocks, pred, g));
    }
    assert forall|h1: int, h2: int|
        blocks2.contains_key(h1) && blocks2.contains_key(h2) implies #[trigger] apart(
        blocks2,
        h1,
        h2,
    ) by {
        assert(apart(blocks, h1, h2));
    }
    assert forall|g: int| blocks2.contains_key(g) implies word_at(mem1, g) == #[trigger] tag_of(
        cap,
        blocks2,
        pred,
        g,
    ) && word_at(mem1, g + 4 + blocks2[g].size) == tag_of(cap, blocks2, pred, g) by {
        assert(blocks.contains_key(g));
        lemma_tag_fields(mem0, cap, blocks, pred, g);
        assert(apart(blocks, g, h));
        let w = word_at(mem0, g);
        lemma_flag_change(w);
        if g == h {
            if h > 0 {
                assert(block_ok(cap, blocks, pred, p));
            }
        } else if n < cap && g == n {
        } else if h > 0 && g == p {
        } else {
            if g < h {
                if h > 0 {
                    assert(block_ok(cap, blocks, pred, p));
                    assert(apart(blocks, g, p));
                }
            } else {
                if n < cap {
                    assert(block_ok(cap, blocks, pred, n));
                    assert(apart(blocks, g, n));
                }
            }
            assert(word_at(mem1, g) == word_at(mem0, g));
            assert(word_at(mem1, g + 4 + blocks[g].size) == word_at(mem0, g + 4 + blocks[g].size));
        }
    }
}

/// Cutting the free block at `h` into an allocated block of `aligned` bytes
/// and a free rest leaves the arena tiled.
pub(crate) proof fn lemma_split_tiling(
    cap: int,
    blocks: Map<int, Block>,
    pred: Map<int, int>,
    h: int,
    aligned: int,
)
    requires
        tiling(cap, blocks, pred),
        blocks.contains_key(h),
        !blocks[h].used,
        8 <= aligned,
        aligned % 8 == 0,
        blocks[h].size - aligned >= 16,
    ensures
        tiling(cap, split_blocks(blocks, h, aligned), split_pred(blocks, pred, h, aligned)),
        !blocks.contains_key(h + 8 + aligned),
{
    let blocks2 = split_blocks(blocks, h, aligned);
    let pred2 = split_pred(blocks, pred, h, aligned);
    let total = blocks[h].size;
    let rest = h + 8 + aligned;
    let n = h + 8 + total;
    assert(block_ok(cap, blocks, pred, h));
    if n < cap {
        assert(block_ok(cap, blocks, pred, n));
    }
    assert(!blocks.contains_key(rest)) by {
        if blocks.contains_key(rest) {
            assert(apart(blocks, h, rest));
        }
    }
    assert forall|g: int| blocks2.contains_key(g) implies #[trigger] block_ok(
        cap,
        blocks2,
        pred2,
        g,
    ) by {
        if g != rest {
            assert(blocks.contains_key(g));
            assert(block_ok(cap, blocks, pred, g));
            assert(apart(blocks, g, h));
        }
    }
    assert forall|h1: int, h2: int|
        blocks2.contains_key(h1) && blocks2.contains_key(h2) implies #[trigger] apart(
        blocks2,
        h1,
        h2,
    ) by {
        if h1 != rest && h2 != rest {
            assert(apart(blocks, h1, h2));
        } else if h1 != rest {
            assert(apart(blocks, h1, h));
        } else if h2 != rest {
            assert(apart(blocks, h2, h));
        }
    }
}

/// After the free block at `h` was cut into an allocated block of `aligned`
/// bytes and a free rest, the tags agree with the model.
pub(crate) proof fn lemma_split(
    cap: int,
    blocks: Map<int, Block>,
    pred: Map<int, int>,
    mem0: Seq<u8>,
    mem1: Seq<u8>,
    h: int,
    aligned: int,
)
    requires
        mem0.len() == cap,
        mem1.len() == cap,
        tiling(cap, blocks, pred),
        tags_ok(mem0, cap, blocks, pred),
        blocks.contains_key(h),
        !blocks[h].used,
        8 <= aligned,
        aligned % 8 == 0,
        blocks[h].size - aligned >= 16,
        ({
            let total = blocks[h].size;
            let rest = h + 8 + aligned;
            let rest_size = total - aligned - 8;
            let p = pred[h];
            &&& word_at(mem1, h) == make_tag(aligned as u32, true, true, false)
            &&& word_at(mem1, h + 4 + aligned) == make_tag(aligned as u32, true, true, false)
            &&& word_at(mem1, rest) == make_tag(rest_size as u32, false, true, true)
            &&& word_at(mem1, h + 4 + total) == make_tag(rest_size as u32, false, true, true)
            &&& h > 0 ==> word_at(mem1, p) == word_at(mem0, p) | NEXT_USED && word_at(mem1, h - 4)
                == word_at(mem0, p) | NEXT_USED
        }),
        forall|o: int|
            0 <= o && o + 4 <= cap && (o + 4 <= run_start(pred, h) || o >= h + 8 + blocks[h].size)
                ==> #[trigger] word_at(mem1, o) == word_at(mem0, o),
    ensures
        tiling(cap, split_blocks(blocks, h, aligned), split_pred(blocks, pred, h, aligned)),
        tags_ok(mem1, cap, split_blocks(blocks, h, aligned), split_pred(blocks, pred, h, aligned)),
{
    let blocks2 = split_blocks(blocks, h, aligned);
    let pred2 = split_pred(blocks, pred, h, aligned);
    let total = blocks[h].size;
    let rest = h + 8 + aligned;
    let n = h + 8 + total;
    let p = pred[h];
    lemma_split_tiling(cap, blocks, pred, h, aligned);
    assert(block_ok(cap, blocks, pred, h));
    if n < cap {
        assert(block_ok(cap, blocks, pred, n));
    }
    if h > 0 {
        assert(block_ok(cap, blocks, pred, p));
        assert(apart(blocks, p, h));
    }
    assert forall|g: int| blocks2.contains_key(g) implies word_at(mem1, g) == #[trigger] tag_of(
        cap,
        blocks2,
        pred2,
        g,
    ) && word_at(mem1, g + 4 + blocks2[g].size) == tag_of(cap, blocks2, pred2, g) by {
        if g == rest {
        } else if g == h {
        } else {
            assert(blocks.contains_key(g));
            assert(apart(blocks, g, h));
            assert(block_ok(cap, blocks, pred, g));
            if h > 0 {
                assert(apart(blocks, g, p));
            }
            if !(h > 0 && g == p) {
                assert(word_at(mem1, g) == word_at(mem0, g));
                assert(word_at(mem1, g + 4 + blocks[g].size) == word_at(
                    mem0,
                    g + 4 + blocks[g].size,
                ));
            }
            lemma_split_other(cap, blocks, pred, mem0, mem1, h, aligned, g);
        }
    }
}

/// The part of `lemma_split` for a block other than the two that the cut
/// made.
pub(crate) proof fn lemma_split_other(
    cap: int,
    blocks: Map<int, Block>,
    pred: Map<int, int>,
    mem0: Seq<u8>,
    mem1: Seq<u8>,
    h: int,
    aligned: int,
    g: int,
)
    requires
        tiling(cap, blocks, pred),
        tags_ok(mem0, cap, blocks, pred),
        blocks.contains_key(h),
        !blocks[h].used,
        8 <= aligned,
        blocks[h].size - aligned >= 16,
        blocks.contains_key(g),
        g != h,
        h > 0 ==> word_at(mem1, pred[h]) == word_at(mem0, pred[h]) | NEXT_USED && word_at(
            mem1,
            h - 4,
        ) == word_at(mem0, pred[h]) | NEXT_USED,
        !(h > 0 && g == pred[h]) ==> same_tags(mem0, mem1, blocks, g),
    ensures
        word_at(mem1, g) == tag_of(
            cap,
            split_blocks(blocks, h, aligned),
            split_pred(blocks, pred, h, aligned),
            g,
        ),
        word_at(mem1, g + 4 + blocks[g].size) == tag_of(
            cap,
            split_blocks(blocks, h, aligned),
            split_pred(blocks, pred, h, aligned),
            g,
        ),
        split_blocks(blocks, h, aligned)[g] == blocks[g],
{
    let blocks2 = split_blocks(blocks, h, aligned);
    let pred2 = split_pred(blocks, pred, h, aligned);
    let total = blocks[h].size;
    let rest = h + 8 + aligned;
    let n = h + 8 + total;
    let p = pred[h];
    assert(block_ok(cap, blocks, pred, h));
    assert(block_ok(cap, blocks, pred, g));
    assert(apart(blocks, g, h));
    lemma_tag_fields(mem0, cap, blocks, pred, g);
    lemma_flag_change(word_at(mem0, g));
    let e = g + 8 + blocks[g].size;
    if e < cap {
        assert(block_ok(cap, blocks, pred, e));
        assert(apart(blocks, e, h));
    }
    if g > 0 {
        assert(block_ok(cap, blocks, pred, pred[g]));
        assert(apart(blocks, pred[g], h));
    }
    if n < cap {
        assert(block_ok(cap, blocks, pred, n));
    }
    if h > 0 {
        assert(block_ok(cap, blocks, pred, p));
    }
}

/// The blocks after the free block at `h` was cut into an allocated block of
/// `aligned` bytes and a free rest.
pub(crate) open spec fn split_blocks(
    blocks: Map<int, Block>,
    h: int,
    aligned: int,
) -> Map<int, Block> {
    blocks.insert(h, Block { size: aligned, used: true }).insert(
        h + 8 + aligned,
        Block { size: blocks[h].size - aligned - 8, used: false },
    )
}

/// Which block stands before which, after the block at `h` was cut in two.
pub(crate) open spec fn split_pred(
    blocks: Map<int, Block>,
    pred: Map<int, int>,
    h: int,
    aligned: int,
) -> Map<int, int> {
    pred.insert(h + 8 + aligned, h).insert(h + 8 + blocks[h].size, h + 8 + aligned)
}

/// With the free block at `h` put in front of its bucket's list, every listed
/// block is a free block of its bucket and every free block is listed.
pub(crate) proof fn lemma_push_lists(
    blocks: Map<int, Block>,
    before: FreeIndex,
    after: FreeIndex,
    h: int,
)
    requires
        before.shape_ok(),
        entries_free(before, blocks),
        free_listed(before, blocks, set![h]),
        blocks.contains_key(h),
        !blocks[h].used,
        0 <= fl_of(blocks[h].size) < 32,
        0 <= sl_of(blocks[h].size) < 8,
        after.lists@ == pushed(before.lists@, h, blocks[h].size),
    ensures
        entries_free(after, blocks),
        free_listed(after, blocks, Set::empty()),
{
    let fl = fl_of(blocks[h].size);
    let sl = sl_of(blocks[h].size);
    assert forall|f: int, s: int, k: int| #[trigger] after.is_entry(f, s, k) implies ({
        let e = after.lists@[f][s][k];
        &&& blocks.contains_key(e)
        &&& !blocks[e].used
        &&& fl_of(blocks[e].size) == f
        &&& sl_of(blocks[e].size) == s
    }) by {
        if f == fl && s == sl {
            if k > 0 {
                assert(before.is_entry(f, s, k - 1));
            }
        } else {
            assert(before.is_entry(f, s, k));
        }
    }
    assert forall|g: int| #[trigger] blocks.contains_key(g) && !blocks[g].used implies listed_at(
        after,
        g,
        fl_of(blocks[g].size),
        sl_of(blocks[g].size),
    ) by {
        let f = fl_of(blocks[g].size);
        let s = sl_of(blocks[g].size);
        if g == h {
            assert(after.lists@[f][s][0] == h);
        } else {
            assert(listed_at(before, g, f, s));
            let k = before.lists@[f][s].index_of(g);
            assert(before.lists@[f][s][k] == g);
            if f == fl && s == sl {
                assert(after.lists@[f][s][k + 1] == g);
            } else {
                assert(after.lists@[f][s] == before.lists@[f][s]);
            }
        }
    }
}

/// Head and tail of the block at `g` hold in `mb` what they hold in `ma`.
pub(crate) open spec fn same_tags(
    ma: Seq<u8>,
    mb: Seq<u8>,
    blocks: Map<int, Block>,
    g: int,
) -> bool {
    &&& word_at(mb, g) == word_at(ma, g)
    &&& word_at(mb, g + 4 + blocks[g].size) == word_at(ma, g + 4 + blocks[g].size)
}

/// Writing link words into the payloads of the blocks at `e1` and `e2` leaves
/// head and tail of every block as they were.
pub(crate) proof fn lemma_links_keep_tags(
    cap: int,
    blocks: Map<int, Block>,
    pred: Map<int, int>,
    ma: Seq<u8>,
    mb: Seq<u8>,
    e1: int,
    e2: int,
)
    requires
        ma.len() == cap,
        mb.len() == cap,
        tiling(cap, blocks, pred),
        blocks.contains_key(e1),
        blocks.contains_key(e2),
        forall|o: int|
            0 <= o && o + 4 <= cap && off_links(o, e1) && off_links(o, e2) ==> #[trigger] word_at(
                mb,
                o,
            ) == word_at(ma, o),
    ensures
        forall|g: int| blocks.contains_key(g) ==> #[trigger] same_tags(ma, mb, blocks, g),
{
    assert forall|g: int| blocks.contains_key(g) implies #[trigger] same_tags(
        ma,
        mb,
        blocks,
        g,
    ) by {
        lemma_links_apart_from_tags(cap, blocks, pred, e1, g);
        lemma_links_apart_from_tags(cap, blocks, pred, e2, g);
    }
}

/// Writing the head of the block at `g1` and the tail of the block at `g2`
/// leaves head and tail of every other block as they were, and the index
/// well-formed.
pub(crate) proof fn lemma_tag_write_frame(
    cap: int,
    blocks: Map<int, Block>,
    pred: Map<int, int>,
    index: FreeIndex,
    ma: Seq<u8>,
    mb: Seq<u8>,
    g1: int,
    g2: int,
)
    requires
        ma.len() == cap,
        mb.len() == cap,
        tiling(cap, blocks, pred),
        blocks.contains_key(g1),
        blocks.contains_key(g2),
        index.wf(ma),
        forall|fl: int, sl: int, k: int| #[trigger]
            index.is_entry(fl, sl, k) ==> blocks.contains_key(index.lists@[fl][sl][k]),
        forall|o: int|
            0 <= o && o + 4 <= cap && apart_from(o, g1) && apart_from(o, g2 + 4 + blocks[g2].size)
                ==> #[trigger] word_at(mb, o) == word_at(ma, o),
    ensures
        index.wf(mb),
        forall|g: int|
            blocks.contains_key(g) && g != g1 && g != g2 ==> #[trigger] same_tags(ma, mb, blocks, g),
        g1 != g2 ==> word_at(mb, g1 + 4 + blocks[g1].size) == word_at(ma, g1 + 4 + blocks[g1].size),
        g1 != g2 ==> word_at(mb, g2) == word_at(ma, g2),
{
    assert(block_ok(cap, blocks, pred, g1));
    assert(block_ok(cap, blocks, pred, g2));
    assert(apart(blocks, g1, g2));
    assert forall|g: int| blocks.contains_key(g) && g != g1 && g != g2 implies #[trigger] same_tags(
        ma,
        mb,
        blocks,
        g,
    ) by {
        assert(block_ok(cap, blocks, pred, g));
        assert(apart(blocks, g, g1));
        assert(apart(blocks, g, g2));
    }
    assert forall|fl: int, sl: int, k: int| #[trigger] index.is_entry(fl, sl, k) implies word_at(
        mb,
        index.lists@[fl][sl][k] + 4,
    ) == word_at(ma, index.lists@[fl][sl][k] + 4) && word_at(mb, index.lists@[fl][sl][k] + 8)
        == word_at(ma, index.lists@[fl][sl][k] + 8) by {
        let e = index.lists@[fl][sl][k];
        assert(block_ok(cap, blocks, pred, e));
        assert(apart(blocks, e, g1));
        assert(apart(blocks, e, g2));
        assert(index.entry_ok(ma, fl, sl, k));
    }
    lemma_index_frame(index, ma, mb);
}

/// Whether freeing the block at `h` merges it with the block after it.
pub(crate) open spec fn merges_next(cap: int, blocks: Map<int, Block>, h: int) -> bool {
    h + 8 + blocks[h].size < cap && !blocks[h + 8 + blocks[h].size].used
}

/// Whether freeing the block at `h` merges it with the block before it.
pub(crate) open spec fn merges_prev(blocks: Map<int, Block>, pred: Map<int, int>, h: int) -> bool {
    h > 0 && !blocks[pred[h]].used
}

/// Where the free block starts that freeing the block at `h` makes.
pub(crate) open spec fn merged_start(blocks: Map<int, Block>, pred: Map<int, int>, h: int) -> int {
    if merges_prev(blocks, pred, h) {
        pred[h]
    } else {
        h
    }
}

/// Where the free block ends that freeing the block at `h` makes.
pub(crate) open spec fn merged_end(cap: int, blocks: Map<int, Block>, h: int) -> int {
    let n = h + 8 + blocks[h].size;
    if merges_next(cap, blocks, h) {
        n + 8 + blocks[n].size
    } else {
        n
    }
}

/// The blocks after the block at `h` was freed and merged with its free
/// neighbours.
pub(crate) open spec fn merged_blocks(
    cap: int,
    blocks: Map<int, Block>,
    pred: Map<int, int>,
    h: int,
) -> Map<int, Block> {
    let n = h + 8 + blocks[h].size;
    let blocks1 = if merges_next(cap, blocks, h) {
        blocks.remove(n)
    } else {
        blocks
    };
    let blocks2 = if merges_prev(blocks, pred, h) {
        blocks1.remove(h)
    } else {
        blocks1
    };
    blocks2.insert(
        merged_start(blocks, pred, h),
        Block {
            size: merged_end(cap, blocks, h) - merged_start(blocks, pred, h) - 8,
            used: false,
        },
    )
}

/// Which block stands before which, after the block at `h` was freed.
pub(crate) open spec fn merged_pred(
    cap: int,
    blocks: Map<int, Block>,
    pred: Map<int, int>,
    h: int,
) -> Map<int, int> {
    pred.insert(merged_end(cap, blocks, h), merged_start(blocks, pred, h))
}

/// Freeing the block at `h` and merging it with its free neighbours leaves
/// the arena tiled.
pub(crate) proof fn lemma_merge_tiling(cap: int, blocks: Map<int, Block>, pred: Map<int, int>, h: int)
    requires
        tiling(cap, blocks, pred),
        blocks.contains_key(h),
        blocks[h].used,
    ensures
        tiling(cap, merged_blocks(cap, blocks, pred, h), merged_pred(cap, blocks, pred, h)),
        forall|g: int| #[trigger]
            merged_blocks(cap, blocks, pred, h).contains_key(g) ==> blocks.contains_key(g),
{
    let blocks2 = merged_blocks(cap, blocks, pred, h);
    let pred2 = merged_pred(cap, blocks, pred, h);
    let n = h + 8 + blocks[h].size;
    let p = pred[h];
    let start = merged_start(blocks, pred, h);
    let end = merged_end(cap, blocks, h);
    assert(block_ok(cap, blocks, pred, h));
    if n < cap {
        assert(block_ok(cap, blocks, pred, n));
    }
    if h > 0 {
        assert(block_ok(cap, blocks, pred, p));
    }
    if end < cap {
        assert(block_ok(cap, blocks, pred, end));
    }
    assert(block_ok(cap, blocks, pred, start));
    assert(block_ok(cap, blocks2, pred2, start));
    assert forall|g: int| blocks2.contains_key(g) implies #[trigger] block_ok(
        cap,
        blocks2,
        pred2,
        g,
    ) by {
        if g != start {
            assert(blocks.contains_key(g));
            assert(block_ok(cap, blocks, pred, g));
            assert(apart(blocks, g, h));
            assert(apart(blocks, g, start));
            if n < cap {
                assert(apart(blocks, g, n));
            }
            let e = g + 8 + blocks[g].size;
            if e < cap {
                assert(block_ok(cap, blocks, pred, e));
            }
            if g > 0 {
                assert(block_ok(cap, blocks, pred, pred[g]));
            }
        }
    }
    assert forall|h1: int, h2: int|
        blocks2.contains_key(h1) && blocks2.contains_key(h2) implies #[trigger] apart(
        blocks2,
        h1,
        h2,
    ) by {
        assert(apart(blocks, h1, h2));
        assert(apart(blocks, h1, h));
        assert(apart(blocks, h2, h));
        if n < cap {
            assert(apart(blocks, h1, n));
            assert(apart(blocks, h2, n));
        }
        if h > 0 {
            assert(apart(blocks, h1, p));
            assert(apart(blocks, h2, p));
        }
    }
}

/// After the block at `h` was freed, with its free neighbours merged into it
/// and the flags of the allocated ones cleared to match, the tags agree with
/// the model.
pub(crate) proof fn lemma_merge_tags(
    cap: int,
    blocks: Map<int, Block>,
    pred: Map<int, int>,
    mem0: Seq<u8>,
    mem1: Seq<u8>,
    h: int,
)
    requires
        mem0.len() == cap,
        mem1.len() == cap,
        tiling(cap, blocks, pred),
        tags_ok(mem0, cap, blocks, pred),
        blocks.contains_key(h),
        blocks[h].used,
        ({
            let n = h + 8 + blocks[h].size;
            let p = pred[h];
            let start = merged_start(blocks, pred, h);
            let end = merged_end(cap, blocks, h);
            let tag = make_tag((end - start - 8) as u32, false, true, true);
            &&& word_at(mem1, start) == tag
            &&& word_at(mem1, end - 4) == tag
            &&& n < cap && blocks[n].used ==> word_at(mem1, n) == word_at(mem0, n) & !PREV_USED
                && word_at(mem1, n + 4 + blocks[n].size) == word_at(mem0, n) & !PREV_USED
            &&& h > 0 && blocks[p].used ==> word_at(mem1, p) == word_at(mem0, p) & !NEXT_USED
                && word_at(mem1, h - 4) == word_at(mem0, p) & !NEXT_USED
        }),
        forall|g: int|
            blocks.contains_key(g) && g != h && g != h + 8 + blocks[h].size && (h > 0 ==> g
                != pred[h]) ==> #[trigger] same_tags(mem0, mem1, blocks, g),
    ensures
        tags_ok(mem1, cap, merged_blocks(cap, blocks, pred, h), merged_pred(cap, blocks, pred, h)),
{
    let blocks2 = merged_blocks(cap, blocks, pred, h);
    let pred2 = merged_pred(cap, blocks, pred, h);
    let n = h + 8 + blocks[h].size;
    let p = pred[h];
    let start = merged_start(blocks, pred, h);
    let end = merged_end(cap, blocks, h);
    lemma_merge_tiling(cap, blocks, pred, h);
    assert(block_ok(cap, blocks, pred, h));
    if n < cap {
        assert(block_ok(cap, blocks, pred, n));
    }
    if h > 0 {
        assert(block_ok(cap, blocks, pred, p));
    }
    assert(block_ok(cap, blocks2, pred2, start));
    assert forall|g: int| blocks2.contains_key(g) implies word_at(mem1, g) == #[trigger] tag_of(
        cap,
        blocks2,
        pred2,
        g,
    ) && word_at(mem1, g + 4 + blocks2[g].size) == tag_of(cap, blocks2, pred2, g) by {
        if g == start {
            lemma_make_tag((end - start - 8) as u32, false, true, true);
            assert(block_ok(cap, blocks, pred, start));
            if end < cap {
                assert(block_ok(cap, blocks, pred, end));
                assert(apart(blocks, end, h));
                assert(blocks2[end] == blocks[end]);
            }
            if start > 0 {
                let pp = pred[start];
                assert(block_ok(cap, blocks, pred, pp));
                assert(apart(blocks, pp, h));
                assert(pred2[start] == pp);
                assert(blocks2[pp] == blocks[pp]);
            }
        } else {
            lemma_merge_tags_other(cap, blocks, pred, mem0, mem1, h, g);
        }
    }
}

/// The part of `lemma_merge_tags` for a block other than the merged one.
pub(crate) proof fn lemma_merge_tags_other(
    cap: int,
    blocks: Map<int, Block>,
    pred: Map<int, int>,
    mem0: Seq<u8>,
    mem1: Seq<u8>,
    h: int,
    g: int,
)
    requires
        tiling(cap, blocks, pred),
        tags_ok(mem0, cap, blocks, pred),
        blocks.contains_key(h),
        blocks[h].used,
        merged_blocks(cap, blocks, pred, h).contains_key(g),
        g != merged_start(blocks, pred, h),
        ({
            let n = h + 8 + blocks[h].size;
            let p = pred[h];
            &&& n < cap && blocks[n].used ==> word_at(mem1, n) == word_at(mem0, n) & !PREV_USED
                && word_at(mem1, n + 4 + blocks[n].size) == word_at(mem0, n) & !PREV_USED
            &&& h > 0 && blocks[p].used ==> word_at(mem1, p) == word_at(mem0, p) & !NEXT_USED
                && word_at(mem1, h - 4) == word_at(mem0, p) & !NEXT_USED
        }),
        blocks.contains_key(g) && g != h && g != h + 8 + blocks[h].size && (h > 0 ==> g != pred[h])
            ==> same_tags(mem0, mem1, blocks, g),
    ensures
        word_at(mem1, g) == tag_of(
            cap,
            merged_blocks(cap, blocks, pred, h),
            merged_pred(cap, blocks, pred, h),
            g,
        ),
        word_at(mem1, g + 4 + merged_blocks(cap, blocks, pred, h)[g].size) == tag_of(
            cap,
            merged_blocks(cap, blocks, pred, h),
            merged_pred(cap, blocks, pred, h),
            g,
        ),
{
    let blocks2 = merged_blocks(cap, blocks, pred, h);
    let pred2 = merged_pred(cap, blocks, pred, h);
    let n = h + 8 + blocks[h].size;
    let p = pred[h];
    let start = merged_start(blocks, pred, h);
    let end = merged_end(cap, blocks, h);
    assert(block_ok(cap, blocks, pred, h));
    if n < cap {
        assert(block_ok(cap, blocks, pred, n));
        assert(apart(blocks, g, n));
    }
    if h > 0 {
        assert(block_ok(cap, blocks, pred, p));
        assert(apart(blocks, g, p));
    }
    assert(blocks.contains_key(g));
    assert(apart(blocks, g, h));
    assert(block_ok(cap, blocks, pred, g));
    lemma_tag_fields(mem0, cap, blocks, pred, g);
    let w = word_at(mem0, g);
    lemma_flag_change(w);
    assert(blocks2[g] == blocks[g]);
    let e = g + 8 + blocks[g].size;
    if g == end {
        // the block after the merged one
        assert(pred2[g] == start);
        assert(!blocks2[start].used);
        if e < cap {
            assert(blocks2[e] == blocks[e]);
        }
    } else if e == start {
        // the block before the merged one
        if g > 0 {
            assert(block_ok(cap, blocks, pred, pred[g]));
            assert(blocks2[pred[g]] == blocks[pred[g]]);
            assert(pred2[g] == pred[g]);
        }
    } else {
        if e < cap {
            assert(block_ok(cap, blocks, pred, e));
            assert(apart(blocks, e, h));
            assert(blocks2[e] == blocks[e]);
        }
        if g > 0 {
            assert(block_ok(cap, blocks, pred, pred[g]));
            assert(apart(blocks, pred[g], h));
            assert(pred2[g] == pred[g]);
            assert(blocks2[pred[g]] == blocks[pred[g]]);
        }
    }
}

/// With the free block at `x` taken out of its bucket's list, every listed
/// block is still a free block of its bucket, `x` is in no list, and every
/// other free block that was listed still is.
pub(crate) proof fn lemma_remove_lists(
    blocks: Map<int, Block>,
    before: FreeIndex,
    after: FreeIndex,
    x: int,
    except: Set<int>,
    y: int,
)
    requires
        before.shape_ok(),
        before.distinct(),
        entries_free(before, blocks),
        free_listed(before, blocks, except),
        blocks.contains_key(x),
        !blocks[x].used,
        listed_at(before, x, fl_of(blocks[x].size), sl_of(blocks[x].size)),
        after.lists@ == removed(before.lists@, x, blocks[x].size),
    ensures
        entries_free(after, blocks),
        free_listed(after, blocks, except.insert(x)),
        after.unlisted(x),
        before.unlisted(y) ==> after.unlisted(y),
{
    let fl = fl_of(blocks[x].size);
    let sl = sl_of(blocks[x].size);
    let list = before.lists@[fl][sl];
    let k = list.index_of(x);
    assert(list[k] == x);
    assert(before.is_entry(fl, sl, k));
    list.remove_ensures(k);
    assert forall|f: int, s: int, j: int| #[trigger] after.is_entry(f, s, j) implies ({
        let e = after.lists@[f][s][j];
        &&& blocks.contains_key(e)
        &&& !blocks[e].used
        &&& fl_of(blocks[e].size) == f
        &&& sl_of(blocks[e].size) == s
        &&& spaced(e, x)
        &&& (before.unlisted(y) ==> spaced(e, y))
    }) by {
        let i = if f == fl && s == sl && j >= k {
            j + 1
        } else {
            j
        };
        assert(before.is_entry(f, s, i));
        assert(after.lists@[f][s][j] == before.lists@[f][s][i]);
    }
    assert forall|g: int| #[trigger]
        blocks.contains_key(g) && !blocks[g].used && !except.insert(x).contains(g) implies listed_at(
        after,
        g,
        fl_of(blocks[g].size),
        sl_of(blocks[g].size),
    ) by {
        let f = fl_of(blocks[g].size);
        let s = sl_of(blocks[g].size);
        assert(listed_at(before, g, f, s));
        let i = before.lists@[f][s].index_of(g);
        assert(before.lists@[f][s][i] == g);
        if f == fl && s == sl {
            if i < k {
                assert(after.lists@[f][s][i] == g);
            } else {
                assert(after.lists@[f][s][i - 1] == g);
            }
        } else {
            assert(after.lists@[f][s] == before.lists@[f][s]);
        }
    }
}

/// The block that ends where the block at `h` starts is the one that the
/// model's choice names.
pub(crate) proof fn lemma_before_is_pred(
    cap: int,
    blocks: Map<int, Block>,
    pred: Map<int, int>,
    buckets: Seq<Seq<Seq<int>>>,
    h: int,
)
    requires
        tiling(cap, blocks, pred),
        blocks.contains_key(h),
        h > 0,
    ensures
        (State { capacity: cap, blocks, buckets }).before(h) == pred[h],
{
    let st = State { capacity: cap, blocks, buckets };
    assert(block_ok(cap, blocks, pred, h));
    assert(st.is_block(pred[h]) && st.end_of(pred[h]) == h);
    let q = st.before(h);
    assert(st.is_block(q) && st.end_of(q) == h);
    assert(apart(blocks, q, pred[h]));
    assert(block_ok(cap, blocks, pred, q));
    assert(block_ok(cap, blocks, pred, pred[h]));
}

/// The free neighbours that freeing the block at `h` merges into it.
pub(crate) open spec fn merged_away(cap: int, blocks: Map<int, Block>, pred: Map<int, int>, h: int) -> Set<
    int,
> {
    let s1: Set<int> = if merges_next(cap, blocks, h) {
        set![h + 8 + blocks[h].size]
    } else {
        Set::empty()
    };
    if merges_prev(blocks, pred, h) {
        s1.insert(pred[h])
    } else {
        s1
    }
}

/// Once the neighbours of the allocated block at `h` are ready and the tag
/// of the merged free block is written, the model with the merged block
/// agrees with the arena in all but the list of that block.
pub(crate) proof fn lemma_merged_state(
    cap: int,
    blocks: Map<int, Block>,
    pred: Map<int, int>,
    index: FreeIndex,
    mem0: Seq<u8>,
    mem2: Seq<u8>,
    mem3: Seq<u8>,
    h: int,
)
    requires
        mem0.len() == cap,
        mem2.len() == cap,
        mem3.len() == cap,
        tiling(cap, blocks, pred),
        tags_ok(mem0, cap, blocks, pred),
        blocks.contains_key(h),
        blocks[h].used,
        index.wf(mem2),
        entries_free(index, blocks),
        free_listed(index, blocks, merged_away(cap, blocks, pred, h)),
        merges_next(cap, blocks, h) ==> index.unlisted(h + 8 + blocks[h].size),
        merges_prev(blocks, pred, h) ==> index.unlisted(pred[h]),
        ({
            let n = h + 8 + blocks[h].size;
            let p = pred[h];
            let start = merged_start(blocks, pred, h);
            let end = merged_end(cap, blocks, h);
            let tag = (end - start - 8) as u32 | (PREV_USED | NEXT_USED);
            &&& n < cap && blocks[n].used ==> word_at(mem2, n) == word_at(mem0, n) & !PREV_USED
                && word_at(mem2, n + 4 + blocks[n].size) == word_at(mem0, n) & !PREV_USED
            &&& h > 0 && blocks[p].used ==> word_at(mem2, p) == word_at(mem0, p) & !NEXT_USED
                && word_at(mem2, h - 4) == word_at(mem0, p) & !NEXT_USED
            &&& word_at(mem3, start) == tag
            &&& word_at(mem3, end - 4) == tag
            &&& forall|o: int|
                0 <= o && o + 4 <= cap && apart_from(o, start) && apart_from(o, end - 4)
                    ==> #[trigger] word_at(mem3, o) == word_at(mem2, o)
        }),
        forall|g: int|
            blocks.contains_key(g) && g != h && g != h + 8 + blocks[h].size && (h > 0 ==> g
                != pred[h]) ==> #[trigger] same_tags(mem0, mem2, blocks, g),
    ensures
        tiling(cap, merged_blocks(cap, blocks, pred, h), merged_pred(cap, blocks, pred, h)),
        tags_ok(mem3, cap, merged_blocks(cap, blocks, pred, h), merged_pred(cap, blocks, pred, h)),
        index.wf(mem3),
        index.unlisted(merged_start(blocks, pred, h)),
        entries_free(index, merged_blocks(cap, blocks, pred, h)),
        free_listed(
            index,
            merged_blocks(cap, blocks, pred, h),
            set![merged_start(blocks, pred, h)],
        ),
{
    let n = h + 8 + blocks[h].size;
    let p = pred[h];
    let start = merged_start(blocks, pred, h);
    let end = merged_end(cap, blocks, h);
    let blocks2 = merged_blocks(cap, blocks, pred, h);
    let last = if merges_next(cap, blocks, h) {
        n
    } else {
        h
    };
    assert(block_ok(cap, blocks, pred, h));
    if n < cap {
        assert(block_ok(cap, blocks, pred, n));
    }
    if h > 0 {
        assert(block_ok(cap, blocks, pred, p));
    }
    assert forall|fl: int, sl: int, k: int| #[trigger]
        index.is_entry(fl, sl, k) implies blocks.contains_key(index.lists@[fl][sl][k]) by {}
    lemma_tag_write_frame(cap, blocks, pred, index, mem2, mem3, start, last);
    lemma_written_tags((end - start - 8) as u32);
    assert forall|g: int|
        blocks.contains_key(g) && g != h && g != h + 8 + blocks[h].size && (h > 0 ==> g
            != pred[h]) implies #[trigger] same_tags(mem0, mem3, blocks, g) by {
        assert(same_tags(mem0, mem2, blocks, g));
        assert(same_tags(mem2, mem3, blocks, g));
    }
    if n < cap && blocks[n].used {
        assert(same_tags(mem2, mem3, blocks, n));
    }
    if h > 0 && blocks[p].used {
        assert(same_tags(mem2, mem3, blocks, p));
    }
    lemma_merge_tiling(cap, blocks, pred, h);
    lemma_merge_tags(cap, blocks, pred, mem0, mem3, h);
    lemma_merged_lists(cap, blocks, pred, index, h);
}

/// The part of `lemma_merged_state` that speaks of the lists.
pub(crate) proof fn lemma_merged_lists(
    cap: int,
    blocks: Map<int, Block>,
    pred: Map<int, int>,
    index: FreeIndex,
    h: int,
)
    requires
        tiling(cap, blocks, pred),
        blocks.contains_key(h),
        blocks[h].used,
        entries_free(index, blocks),
        free_listed(index, blocks, merged_away(cap, blocks, pred, h)),
        merges_next(cap, blocks, h) ==> index.unlisted(h + 8 + blocks[h].size),
        merges_prev(blocks, pred, h) ==> index.unlisted(pred[h]),
    ensures
        index.unlisted(merged_start(blocks, pred, h)),
        entries_free(index, merged_blocks(cap, blocks, pred, h)),
        free_listed(
            index,
            merged_blocks(cap, blocks, pred, h),
            set![merged_start(blocks, pred, h)],
        ),
{
    let n = h + 8 + blocks[h].size;
    let p = pred[h];
    let start = merged_start(blocks, pred, h);
    let blocks2 = merged_blocks(cap, blocks, pred, h);
    assert(block_ok(cap, blocks, pred, h));
    assert forall|fl: int, sl: int, k: int| #[trigger] index.is_entry(fl, sl, k) implies ({
        let e = index.lists@[fl][sl][k];
        &&& spaced(e, start)
        &&& blocks2.contains_key(e)
        &&& !blocks2[e].used
        &&& fl_of(blocks2[e].size) == fl
        &&& sl_of(blocks2[e].size) == sl
    }) by {
        let e = index.lists@[fl][sl][k];
        assert(blocks.contains_key(e));
        assert(apart(blocks, e, h));
        assert(block_ok(cap, blocks, pred, e));
        if merges_next(cap, blocks, h) {
            assert(spaced(e, n));
        }
        if merges_prev(blocks, pred, h) {
            assert(spaced(e, p));
        }
    }
    assert forall|g: int| #[trigger]
        blocks2.contains_key(g) && !blocks2[g].used && !set![start].contains(g) implies listed_at(
        index,
        g,
        fl_of(blocks2[g].size),
        sl_of(blocks2[g].size),
    ) by {
        assert(blocks.contains_key(g));
        assert(!merged_away(cap, blocks, pred, h).contains(g));
    }
}

/// The bytes `lo..hi` lie in the block at `e`, which is free or the block at
/// `except`, or they lie in the head or in the tail of that block; or the
/// range is empty.
pub(crate) open spec fn meta_range(
    blocks: Map<int, Block>,
    except: int,
    lo: int,
    hi: int,
    e: int,
) -> bool {
    lo >= hi || (blocks.contains_key(e) && e <= lo && hi <= e + 8 + blocks[e].size && (
    !blocks[e].used || e == except || hi <= e + 4 || lo >= e + 4 + blocks[e].size))
}

/// A change of bytes that are no payload of an allocated block changes no
/// payload of an allocated block.
pub(crate) proof fn lemma_meta_keeps_payloads(
    cap: int,
    blocks: Map<int, Block>,
    pred: Map<int, int>,
    ma: Seq<u8>,
    mb: Seq<u8>,
    except: int,
    lo1: int,
    hi1: int,
    e1: int,
    lo2: int,
    hi2: int,
    e2: int,
)
    requires
        ma.len() == cap,
        mb.len() == cap,
        tiling(cap, blocks, pred),
        bytes_kept(ma, mb, lo1, hi1, lo2, hi2),
        meta_range(blocks, except, lo1, hi1, e1),
        meta_range(blocks, except, lo2, hi2, e2),
    ensures
        payloads_kept(ma, mb, blocks, except),
{
    assert forall|g: int, i: int|
        #![trigger blocks.contains_key(g), byte_at(mb, i)]
        blocks.contains_key(g) && blocks[g].used && g != except && g + 4 <= i < g + 4
            + blocks[g].size implies byte_at(mb, i) == byte_at(ma, i) by {
        assert(block_ok(cap, blocks, pred, g));
        if lo1 < hi1 {
            assert(apart(blocks, g, e1));
            assert(block_ok(cap, blocks, pred, e1));
        }
        if lo2 < hi2 {
            assert(apart(blocks, g, e2));
            assert(block_ok(cap, blocks, pred, e2));
        }
    }
}

/// Payloads kept over two changes are kept over both.
pub(crate) proof fn lemma_payloads_kept_on(
    ma: Seq<u8>,
    mb: Seq<u8>,
    mc: Seq<u8>,
    blocks: Map<int, Block>,
    except: int,
)
    requires
        payloads_kept(ma, mb, blocks, except),
        payloads_kept(mb, mc, blocks, except),
    ensures
        payloads_kept(ma, mc, blocks, except),
{
    assert forall|g: int, i: int|
        #![trigger blocks.contains_key(g), byte_at(mc, i)]
        blocks.contains_key(g) && blocks[g].used && g != except && g + 4 <= i < g + 4
            + blocks[g].size implies byte_at(mc, i) == byte_at(ma, i) by {
        assert(byte_at(mb, i) == byte_at(ma, i));
    }
}

} // verus!
