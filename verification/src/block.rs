//! The block format: the tag word of a block's head and tail, and the links
//! that a free block keeps in its payload.

use vstd::prelude::*;

verus! {

/// Every payload size is a multiple of this.
pub const BLOCK_ALIGNMENT: u32 = 8;

/// Bytes of the tag word in front of a payload.
pub const BLOCK_HEAD_SIZE: u32 = 4;

/// Bytes of the tag word behind a payload.
pub const BLOCK_TAIL_SIZE: u32 = 4;

/// Bytes of both tag words of a block.
pub const BLOCK_META_SIZE: u32 = 8;

/// The smallest payload: room for the two links of a free block.
pub const MIN_PAYLOAD: u32 = 8;

/// The smallest block: both tag words and the smallest payload.
pub const MIN_BLOCK: u32 = 16;

/// The link that points nowhere.
pub const PACKED_NONE_PTR: u32 = 0xFFFF_FFFF;

/// Both links pointing nowhere.
pub const PACKED_NONE_DOUBLE_PTR: u64 = 0xFFFF_FFFF_FFFF_FFFF;

/// Tag bit: the block is allocated.
pub const USED: u32 = 1;

/// Tag bit: the block before this one is allocated, or there is none.
pub const PREV_USED: u32 = 2;

/// Tag bit: the block after this one is allocated, or there is none.
pub const NEXT_USED: u32 = 4;

/// The bits of a tag word that hold the payload size.
pub const SIZE_MASK: u32 = 0xFFFF_FFF8;

/// The payload size that a tag word holds.
pub open spec fn tag_size(w: u32) -> u32 {
    w & SIZE_MASK
}

/// The three flag bits of a tag word.
pub open spec fn tag_flags(w: u32) -> u32 {
    w & 7
}

/// Whether a tag word marks its block as allocated.
pub open spec fn tag_used(w: u32) -> bool {
    w & USED != 0
}

/// Whether a tag word marks the block before as allocated.
pub open spec fn tag_prev_used(w: u32) -> bool {
    w & PREV_USED != 0
}

/// Whether a tag word marks the block after as allocated.
pub open spec fn tag_next_used(w: u32) -> bool {
    w & NEXT_USED != 0
}

/// A tag word splits into a size that is a multiple of eight and three flags,
/// and is put together again from them.
pub proof fn lemma_tag_parts(w: u32)
    ensures
        tag_size(w) % 8 == 0,
        tag_flags(w) < 8,
        w == tag_size(w) | tag_flags(w),
        w == tag_size(w) + tag_flags(w),
        tag_used(w) <==> tag_flags(w) & USED != 0,
        tag_prev_used(w) <==> tag_flags(w) & PREV_USED != 0,
        tag_next_used(w) <==> tag_flags(w) & NEXT_USED != 0,
{
    assert((w & 0xFFFF_FFF8) % 8 == 0 && (w & 7) < 8 && w == (w & 0xFFFF_FFF8) | (w & 7) && w == (w
        & 0xFFFF_FFF8) + (w & 7) && ((w & 1 != 0) <==> ((w & 7) & 1 != 0)) && ((w & 2 != 0) <==> ((w
        & 7) & 2 != 0)) && ((w & 4 != 0) <==> ((w & 7) & 4 != 0))) by (bit_vector);
}

/// What a tag word holds when it is made of an aligned size and flag bits.
pub proof fn lemma_tag_compose(size: u32, flags: u32)
    requires
        size % 8 == 0,
        flags < 8,
    ensures
        tag_size(size | flags) == size,
        tag_flags(size | flags) == flags,
        tag_used(size | flags) <==> flags & USED != 0,
        tag_prev_used(size | flags) <==> flags & PREV_USED != 0,
        tag_next_used(size | flags) <==> flags & NEXT_USED != 0,
{
    assert(((size | flags) & 0xFFFF_FFF8) == size && ((size | flags) & 7) == flags && (((size
        | flags) & 1 != 0) <==> (flags & 1 != 0)) && (((size | flags) & 2 != 0) <==> (flags & 2
        != 0)) && (((size | flags) & 4 != 0) <==> (flags & 4 != 0))) by (bit_vector)
        requires
            size % 8 == 0,
            flags < 8,
    ;
}

/// Setting flag bits keeps the size and the other flags.
pub proof fn lemma_tag_or(w: u32, flags: u32)
    requires
        flags < 8,
    ensures
        tag_size(w | flags) == tag_size(w),
        tag_flags(w | flags) == tag_flags(w) | flags,
        tag_used(w | flags) <==> tag_used(w) || flags & USED != 0,
        tag_prev_used(w | flags) <==> tag_prev_used(w) || flags & PREV_USED != 0,
        tag_next_used(w | flags) <==> tag_next_used(w) || flags & NEXT_USED != 0,
{
    assert(((w | flags) & 0xFFFF_FFF8) == (w & 0xFFFF_FFF8) && ((w | flags) & 7) == ((w & 7)
        | flags) && (((w | flags) & 1 != 0) <==> (w & 1 != 0 || flags & 1 != 0)) && (((w | flags)
        & 2 != 0) <==> (w & 2 != 0 || flags & 2 != 0)) && (((w | flags) & 4 != 0) <==> (w & 4 != 0
        || flags & 4 != 0))) by (bit_vector)
        requires
            flags < 8,
    ;
}

/// Clearing flag bits keeps the size and the other flags.
pub proof fn lemma_tag_clear(w: u32, flags: u32)
    requires
        flags < 8,
    ensures
        tag_size(w & !flags) == tag_size(w),
        tag_flags(w & !flags) == tag_flags(w) & !flags,
        tag_used(w & !flags) <==> tag_used(w) && flags & USED == 0,
        tag_prev_used(w & !flags) <==> tag_prev_used(w) && flags & PREV_USED == 0,
        tag_next_used(w & !flags) <==> tag_next_used(w) && flags & NEXT_USED == 0,
{
    assert(((w & !flags) & 0xFFFF_FFF8) == (w & 0xFFFF_FFF8) && ((w & !flags) & 7) == ((w & 7)
        & !flags) && (((w & !flags) & 1 != 0) <==> (w & 1 != 0 && flags & 1 == 0)) && (((w
        & !flags) & 2 != 0) <==> (w & 2 != 0 && flags & 2 == 0)) && (((w & !flags) & 4 != 0) <==> (w
        & 4 != 0 && flags & 4 == 0))) by (bit_vector)
        requires
            flags < 8,
    ;
}

/// The three flag bits for a block's own state and that of its neighbours.
pub open spec fn flag_bits(used: bool, prev_used: bool, next_used: bool) -> u32 {
    (if used {
        USED
    } else {
        0
    }) | (if prev_used {
        PREV_USED
    } else {
        0
    }) | (if next_used {
        NEXT_USED
    } else {
        0
    })
}

/// The tag word of a block with payload `size` and the given states.
pub open spec fn make_tag(size: u32, used: bool, prev_used: bool, next_used: bool) -> u32 {
    size | flag_bits(used, prev_used, next_used)
}

/// A tag word made of an aligned size and three states gives them back.
pub proof fn lemma_make_tag(size: u32, used: bool, prev_used: bool, next_used: bool)
    requires
        size % 8 == 0,
    ensures
        tag_size(make_tag(size, used, prev_used, next_used)) == size,
        tag_used(make_tag(size, used, prev_used, next_used)) == used,
        tag_prev_used(make_tag(size, used, prev_used, next_used)) == prev_used,
        tag_next_used(make_tag(size, used, prev_used, next_used)) == next_used,
        flag_bits(used, prev_used, next_used) < 8,
{
    let f = flag_bits(used, prev_used, next_used);
    assert(f < 8 && (f & 1 != 0 <==> used) && (f & 2 != 0 <==> prev_used) && (f & 4 != 0
        <==> next_used)) by (bit_vector)
        requires
            f == (if used {
                1u32
            } else {
                0
            }) | (if prev_used {
                2u32
            } else {
                0
            }) | (if next_used {
                4u32
            } else {
                0
            }),
    ;
    lemma_tag_compose(size, f);
}

/// Every tag word is the tag of its own size and states.
pub proof fn lemma_tag_is_made(w: u32)
    ensures
        w == make_tag(tag_size(w), tag_used(w), tag_prev_used(w), tag_next_used(w)),
        tag_size(w) % 8 == 0,
{
    assert(w == (w & 0xFFFF_FFF8) | ((if w & 1 != 0 {
        1u32
    } else {
        0
    }) | (if w & 2 != 0 {
        2u32
    } else {
        0
    }) | (if w & 4 != 0 {
        4u32
    } else {
        0
    })) && (w & 0xFFFF_FFF8) % 8 == 0) by (bit_vector);
}

/// Setting or clearing flag bits in a tag word changes the states they stand
/// for and nothing else.
pub proof fn lemma_tag_flags_change(w: u32, flags: u32)
    requires
        flags < 8,
    ensures
        w | flags == make_tag(
            tag_size(w),
            tag_used(w) || flags & USED != 0,
            tag_prev_used(w) || flags & PREV_USED != 0,
            tag_next_used(w) || flags & NEXT_USED != 0,
        ),
        w & !flags == make_tag(
            tag_size(w),
            tag_used(w) && flags & USED == 0,
            tag_prev_used(w) && flags & PREV_USED == 0,
            tag_next_used(w) && flags & NEXT_USED == 0,
        ),
{
    lemma_tag_or(w, flags);
    lemma_tag_clear(w, flags);
    lemma_tag_is_made(w | flags);
    lemma_tag_is_made(w & !flags);
}

/// What setting or clearing one neighbour flag makes of a tag word.
pub proof fn lemma_flag_change(w: u32)
    ensures
        w | PREV_USED == make_tag(tag_size(w), tag_used(w), true, tag_next_used(w)),
        w | NEXT_USED == make_tag(tag_size(w), tag_used(w), tag_prev_used(w), true),
        w & !PREV_USED == make_tag(tag_size(w), tag_used(w), false, tag_next_used(w)),
        w & !NEXT_USED == make_tag(tag_size(w), tag_used(w), tag_prev_used(w), false),
{
    lemma_tag_flags_change(w, PREV_USED);
    lemma_tag_flags_change(w, NEXT_USED);
    assert(2u32 & 1 == 0 && 2u32 & 2 != 0 && 2u32 & 4 == 0 && 4u32 & 1 == 0 && 4u32 & 2 == 0 && 4u32
        & 4 != 0) by (bit_vector);
}

/// The tag words that the allocator writes whole: an allocated block between
/// allocated ones, an allocated block before a free one, and a free block.
pub proof fn lemma_written_tags(size: u32)
    ensures
        size | (USED | PREV_USED | NEXT_USED) == make_tag(size, true, true, true),
        size | (USED | PREV_USED) == make_tag(size, true, true, false),
        size | (PREV_USED | NEXT_USED) == make_tag(size, false, true, true),
{
    assert((1u32 | 2 | 4) == (1u32 | 2u32 | 4u32) && (1u32 | 2) == (1u32 | 2u32 | 0u32) && (2u32 | 4)
        == (0u32 | 2u32 | 4u32)) by (bit_vector);
}

/// The two links packed into one word: `prev` in the high half, `next` in the
/// low half.
pub open spec fn pack_links(prev: u32, next: u32) -> u64 {
    ((prev as u64) << 32) | (next as u64)
}

/// The link to the block before, out of a packed pair.
pub open spec fn links_prev(links: u64) -> u32 {
    (links >> 32) as u32
}

/// The link to the block after, out of a packed pair.
pub open spec fn links_next(links: u64) -> u32 {
    (links & 0xFFFF_FFFF) as u32
}

/// Packing two links and taking them out again gives them back.
pub proof fn lemma_pack_links(prev: u32, next: u32)
    ensures
        links_prev(pack_links(prev, next)) == prev,
        links_next(pack_links(prev, next)) == next,
        pack_links(PACKED_NONE_PTR, PACKED_NONE_PTR) == PACKED_NONE_DOUBLE_PTR,
{
    assert(((((prev as u64) << 32) | (next as u64)) >> 32) as u32 == prev && ((((prev as u64) << 32)
        | (next as u64)) & 0xFFFF_FFFF) as u32 == next && ((0xFFFF_FFFFu32 as u64) << 32) | (
    0xFFFF_FFFFu32 as u64) == 0xFFFF_FFFF_FFFF_FFFFu64) by (bit_vector);
}

/// The head of a free block, read out of the arena: its tag word and the two
/// links that the first eight bytes of its payload hold.
#[derive(Debug, Clone, Copy)]
pub struct FreeBlockHead {
    pub size_and_flags: u32,
    pub links: u64,
}

impl FreeBlockHead {
    /// A head with the given tag word and packed links.
    pub fn new(size_and_flags: u32, links: u64) -> (head: Self)
        ensures
            head.size_and_flags == size_and_flags,
            head.links == links,
    {
        FreeBlockHead { size_and_flags, links }
    }

    /// The links as the pair `(prev, next)`.
    pub fn link_offsets(&self) -> (r: (u32, u32))
        ensures
            r.0 == links_prev(self.links),
            r.1 == links_next(self.links),
    {
        let links = self.links;
        assert((links >> 32) <= 0xFFFF_FFFF && (links & 0xFFFF_FFFF) <= 0xFFFF_FFFF)
            by (bit_vector);
        let next_link = (links & 0xFFFF_FFFF) as u32;
        let prev_link = (links >> 32) as u32;
        (prev_link, next_link)
    }

    /// Replaces both links.
    pub fn set_links(&mut self, links: u64)
        ensures
            final(self).links == links,
            final(self).size_and_flags == old(self).size_and_flags,
    {
        self.links = links;
    }

    /// Replaces the link to the block before and keeps the other.
    pub fn set_prev_link(&mut self, link: u32)
        ensures
            final(self).links == pack_links(link, links_next(old(self).links)),
            final(self).size_and_flags == old(self).size_and_flags,
    {
        let links = self.links;
        assert(((links & 0xFFFF_FFFF) | ((link as u64) << 32)) == (((link as u64) << 32) | (((links
            & 0xFFFF_FFFF) as u32) as u64))) by (bit_vector);
        let links_masked = links & 0xFFFF_FFFF;
        self.links = links_masked | ((link as u64) << 32);
    }

    /// Replaces the link to the block after and keeps the other.
    pub fn set_next_link(&mut self, link: u32)
        ensures
            final(self).links == pack_links(links_prev(old(self).links), link),
            final(self).size_and_flags == old(self).size_and_flags,
    {
        let links = self.links;
        assert(((links & 0xFFFF_FFFF_0000_0000) | (link as u64)) == (((((links >> 32) as u32) as u64)
            << 32) | (link as u64))) by (bit_vector);
        let links_masked = links & 0xFFFF_FFFF_0000_0000;
        self.links = links_masked | (link as u64);
    }
}

} // verus!
