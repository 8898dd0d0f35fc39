//! Blocks that do not overlap take no more bytes than the arena has.

use vstd::prelude::*;
use vstd::set_lib::{lemma_int_range, lemma_len_subset, lemma_set_disjoint_lens, set_int_range};

use crate::model::Block;

verus! {

/// The bytes that the blocks which `v` names take, each with `meta` bytes
/// beside its payload.
pub open spec fn weight(blocks: Map<int, Block>, v: Seq<int>, meta: int) -> int
    decreases v.len(),
{
    if v.len() == 0 {
        0
    } else {
        weight(blocks, v.drop_last(), meta) + blocks[v.last()].size + meta
    }
}

/// The offsets of the bytes that the blocks which `v` names take.
pub open spec fn covered(blocks: Map<int, Block>, v: Seq<int>, meta: int) -> Set<int>
    decreases v.len(),
{
    if v.len() == 0 {
        Set::empty()
    } else {
        covered(blocks, v.drop_last(), meta) + set_int_range(
            v.last(),
            v.last() + meta + blocks[v.last()].size,
        )
    }
}

/// Each block that `v` names lies in the arena, and no two of them overlap.
pub open spec fn packed(cap: int, blocks: Map<int, Block>, v: Seq<int>, meta: int) -> bool {
    &&& forall|i: int|
        0 <= i < v.len() ==> 0 <= #[trigger] v[i] && blocks[v[i]].size >= 0 && v[i] + meta
            + blocks[v[i]].size <= cap
    &&& forall|i: int, j: int|
        0 <= i < j < v.len() ==> #[trigger] v[i] + meta + blocks[v[i]].size <= #[trigger] v[j]
            || v[j] + meta + blocks[v[j]].size <= v[i]
}

/// The bytes of blocks that do not overlap are as many as the blocks weigh,
/// and all of them are bytes of the arena.
proof fn lemma_covered(cap: int, blocks: Map<int, Block>, v: Seq<int>, meta: int)
    requires
        0 <= cap,
        0 <= meta,
        packed(cap, blocks, v, meta),
    ensures
        covered(blocks, v, meta).finite(),
        covered(blocks, v, meta).len() == weight(blocks, v, meta),
        covered(blocks, v, meta).subset_of(set_int_range(0, cap)),
        forall|x: int| #[trigger]
            covered(blocks, v, meta).contains(x) ==> exists|i: int|
                0 <= i < v.len() && #[trigger] v[i] <= x < v[i] + meta + blocks[v[i]].size,
    decreases v.len(),
{
    if v.len() > 0 {
        let rest = v.drop_last();
        let e = v.last();
        assert(v[v.len() - 1] == e);
        assert forall|i: int| 0 <= i < rest.len() implies rest[i] == v[i] by {}
        lemma_covered(cap, blocks, rest, meta);
        let a = covered(blocks, rest, meta);
        let b = set_int_range(e, e + meta + blocks[e].size);
        lemma_int_range(e, e + meta + blocks[e].size);
        assert(a.disjoint(b)) by {
            assert forall|x: int| a.contains(x) implies !b.contains(x) by {
                let i = choose|i: int|
                    0 <= i < rest.len() && #[trigger] rest[i] <= x < rest[i] + meta
                        + blocks[rest[i]].size;
                assert(rest[i] == v[i]);
            }
        }
        lemma_set_disjoint_lens(a, b);
        assert forall|x: int| #[trigger] covered(blocks, v, meta).contains(x) implies exists|i: int|
            0 <= i < v.len() && #[trigger] v[i] <= x < v[i] + meta + blocks[v[i]].size by {
            if a.contains(x) {
                let i = choose|i: int|
                    0 <= i < rest.len() && #[trigger] rest[i] <= x < rest[i] + meta
                        + blocks[rest[i]].size;
                assert(rest[i] == v[i]);
            } else {
                assert(b.contains(x));
                assert(v[v.len() - 1] <= x);
            }
        }
    }
}

/// Blocks that lie in the arena and do not overlap weigh no more than the
/// arena holds.
pub proof fn lemma_weight_bounded(cap: int, blocks: Map<int, Block>, v: Seq<int>, meta: int)
    requires
        0 <= cap,
        0 <= meta,
        packed(cap, blocks, v, meta),
    ensures
        weight(blocks, v, meta) <= cap,
{
    lemma_covered(cap, blocks, v, meta);
    lemma_int_range(0, cap);
    lemma_len_subset(covered(blocks, v, meta), set_int_range(0, cap));
}

} // verus!
