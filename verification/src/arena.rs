//! Reading and writing 32-bit words in the byte arena.

use vstd::prelude::*;

use crate::block::{lemma_tag_parts, tag_size, BLOCK_HEAD_SIZE, SIZE_MASK};

verus! {

/// The word that four bytes make, lowest byte first.
pub open spec fn word_of_bytes(b0: u8, b1: u8, b2: u8, b3: u8) -> u32 {
    (b0 as u32) | ((b1 as u32) << 8) | ((b2 as u32) << 16) | ((b3 as u32) << 24)
}

/// The word that the four bytes of `mem` from `off` on hold.
pub open spec fn word_at(mem: Seq<u8>, off: int) -> u32 {
    word_of_bytes(mem[off], mem[off + 1], mem[off + 2], mem[off + 3])
}

/// The words at offsets `o` and `off` share no byte.
pub open spec fn apart_from(o: int, off: int) -> bool {
    o + 4 <= off || off + 4 <= o
}

/// The byte of `mem` at offset `i`.
pub open spec fn byte_at(mem: Seq<u8>, i: int) -> u8 {
    mem[i]
}

/// Every byte outside the two ranges `lo1..hi1` and `lo2..hi2` is in `mb`
/// what it is in `ma`.
pub open spec fn bytes_kept(
    ma: Seq<u8>,
    mb: Seq<u8>,
    lo1: int,
    hi1: int,
    lo2: int,
    hi2: int,
) -> bool {
    forall|i: int|
        0 <= i < ma.len() && !(lo1 <= i < hi1) && !(lo2 <= i < hi2) ==> #[trigger] byte_at(mb, i)
            == byte_at(ma, i)
}

/// Reads the word at byte offset `off`.
pub fn read_word(mem: &Vec<u8>, off: u32) -> (w: u32)
    requires
        off + 4 <= mem.len(),
    ensures
        w == word_at(mem@, off as int),
{
    let i = off as usize;
    let b0 = mem[i] as u32;
    let b1 = mem[i + 1] as u32;
    let b2 = mem[i + 2] as u32;
    let b3 = mem[i + 3] as u32;
    b0 | (b1 << 8) | (b2 << 16) | (b3 << 24)
}

/// Writes the word `w` at byte offset `off`; every byte outside those four
/// stays as it was.
pub fn write_word(mem: &mut Vec<u8>, off: u32, w: u32)
    requires
        off + 4 <= old(mem).len(),
    ensures
        final(mem).len() == old(mem).len(),
        word_at(final(mem)@, off as int) == w,
        bytes_kept(old(mem)@, final(mem)@, off as int, off + 4, off as int, off + 4),
        forall|o: int|
            0 <= o && o + 4 <= old(mem).len() && apart_from(o, off as int) ==> #[trigger] word_at(
                final(mem)@,
                o,
            ) == word_at(old(mem)@, o),
{
    let i = off as usize;
    assert(word_of_bytes(
        (w & 0xFF) as u8,
        ((w >> 8) & 0xFF) as u8,
        ((w >> 16) & 0xFF) as u8,
        ((w >> 24) & 0xFF) as u8,
    ) == w && (w & 0xFF) < 256 && ((w >> 8) & 0xFF) < 256 && ((w >> 16) & 0xFF) < 256 && ((w >> 24)
        & 0xFF) < 256) by (bit_vector);
    mem[i] = (w & 0xFF) as u8;
    mem[i + 1] = ((w >> 8) & 0xFF) as u8;
    mem[i + 2] = ((w >> 16) & 0xFF) as u8;
    mem[i + 3] = ((w >> 24) & 0xFF) as u8;
}

/// Writes the tag word `size | flags` as head and as tail of the block at
/// `h` with payload `size`.
pub fn write_tags(mem: &mut Vec<u8>, h: u32, size: u32, flags: u32)
    requires
        h + 8 + size <= old(mem).len() <= u32::MAX,
    ensures
        final(mem).len() == old(mem).len(),
        word_at(final(mem)@, h as int) == size | flags,
        word_at(final(mem)@, h + 4 + size) == size | flags,
        bytes_kept(old(mem)@, final(mem)@, h as int, h + 4, h + 4 + size, h + 8 + size),
        forall|o: int|
            0 <= o && o + 4 <= old(mem).len() && apart_from(o, h as int) && apart_from(
                o,
                h + 4 + size,
            ) ==> #[trigger] word_at(final(mem)@, o) == word_at(old(mem)@, o),
{
    let tag: u32 = size | flags;
    write_word(mem, h, tag);
    write_word(mem, h + BLOCK_HEAD_SIZE + size, tag);
}

/// Sets the flag bits `flags` in the head and in the tail of the block at `h`.
pub fn or_flags(mem: &mut Vec<u8>, h: u32, flags: u32)
    requires
        h + 8 + tag_size(word_at(old(mem)@, h as int)) <= old(mem).len() <= u32::MAX,
    ensures
        final(mem).len() == old(mem).len(),
        word_at(final(mem)@, h as int) == word_at(old(mem)@, h as int) | flags,
        word_at(final(mem)@, h + 4 + tag_size(word_at(old(mem)@, h as int))) == word_at(
            old(mem)@,
            h as int,
        ) | flags,
        bytes_kept(
            old(mem)@,
            final(mem)@,
            h as int,
            h + 4,
            h + 4 + tag_size(word_at(old(mem)@, h as int)),
            h + 8 + tag_size(word_at(old(mem)@, h as int)),
        ),
        forall|o: int|
            0 <= o && o + 4 <= old(mem).len() && apart_from(o, h as int) && apart_from(
                o,
                h + 4 + tag_size(word_at(old(mem)@, h as int)),
            ) ==> #[trigger] word_at(final(mem)@, o) == word_at(old(mem)@, o),
{
    let tag = read_word(mem, h);
    let size: u32 = tag & SIZE_MASK;
    proof {
        lemma_tag_parts(tag);
    }
    write_word(mem, h, tag | flags);
    write_word(mem, h + BLOCK_HEAD_SIZE + size, tag | flags);
}

/// Clears the flag bits `flags` in the head and in the tail of the block at
/// `h`.
pub fn clear_or_flags(mem: &mut Vec<u8>, h: u32, flags: u32)
    requires
        h + 8 + tag_size(word_at(old(mem)@, h as int)) <= old(mem).len() <= u32::MAX,
    ensures
        final(mem).len() == old(mem).len(),
        word_at(final(mem)@, h as int) == word_at(old(mem)@, h as int) & !flags,
        word_at(final(mem)@, h + 4 + tag_size(word_at(old(mem)@, h as int))) == word_at(
            old(mem)@,
            h as int,
        ) & !flags,
        bytes_kept(
            old(mem)@,
            final(mem)@,
            h as int,
            h + 4,
            h + 4 + tag_size(word_at(old(mem)@, h as int)),
            h + 8 + tag_size(word_at(old(mem)@, h as int)),
        ),
        forall|o: int|
            0 <= o && o + 4 <= old(mem).len() && apart_from(o, h as int) && apart_from(
                o,
                h + 4 + tag_size(word_at(old(mem)@, h as int)),
            ) ==> #[trigger] word_at(final(mem)@, o) == word_at(old(mem)@, o),
{
    let tag = read_word(mem, h);
    let size: u32 = tag & SIZE_MASK;
    proof {
        lemma_tag_parts(tag);
    }
    write_word(mem, h, tag & !flags);
    write_word(mem, h + BLOCK_HEAD_SIZE + size, tag & !flags);
}

} // verus!
