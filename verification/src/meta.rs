//! Size arithmetic and bit masks shared by the allocator.

use vstd::prelude::*;

use crate::block::{BLOCK_HEAD_SIZE, BLOCK_META_SIZE, BLOCK_TAIL_SIZE};
use vstd::std_specs::bits::{axiom_u32_trailing_zeros, u32_trailing_zeros};

verus! {

/// Whether bit `i` of `w` is set.
pub open spec fn bit_set(w: u32, i: u32) -> bool {
    (w >> i) & 1 == 1
}

/// Whether `a` is a power of two.
pub open spec fn is_pow2(a: u32) -> bool {
    a != 0 && a & ((a - 1) as u32) == 0
}

/// The least multiple of `align` that is not below `x`.
pub open spec fn align_up_spec(x: int, align: int) -> int {
    if x % align == 0 {
        x
    } else {
        x - x % align + align
    }
}

/// The word whose bits `index..32` are set and whose lower bits are clear.
pub fn left_mask_from(index: u32) -> (mask: u32)
    requires
        index < 32,
    ensures
        mask == u32::MAX << index,
        forall|i: u32| i < 32 ==> (#[trigger] bit_set(mask, i) <==> i >= index),
{
    assert(forall|i: u32| i < 32 ==> (#[trigger] bit_set(u32::MAX << index, i) <==> i >= index))
        by (bit_vector)
        requires
            index < 32,
    ;
    u32::MAX << index
}

/// Rounds `x` up to the next multiple of the power of two `align`.
pub fn align_up(x: u32, align: u32) -> (r: u32)
    requires
        is_pow2(align),
        x + align - 1 <= u32::MAX,
    ensures
        r == align_up_spec(x as int, align as int),
        r % align == 0,
        x <= r < x + align,
{
    let low: u32 = align - 1;
    let r: u32 = (x + low) & !low;
    proof {
        lemma_align_mask(x, align);
        lemma_mask_is_mod(r, align);
        lemma_mask_is_mod(x, align);
    }
    r
}

/// Adding `align - 1` and clearing the low bits gives the next value at or
/// above `x` whose low bits are clear.
proof fn lemma_align_mask(x: u32, align: u32)
    by (bit_vector)
    requires
        align != 0 && align & ((align - 1) as u32) == 0,
        x + align - 1 <= u32::MAX,
    ensures
        ({
            let low = (align - 1) as u32;
            let r = ((x + low) as u32) & !low;
            &&& r & low == 0
            &&& x <= r < x + align
            &&& (x & low == 0 ==> r == x)
            &&& r + (x & low) == x + align || r == x
        }),
{
}

/// For a power of two, the low bits of a value are its remainder.
proof fn lemma_mask_is_mod(v: u32, align: u32)
    requires
        align != 0 && align & ((align - 1) as u32) == 0,
    ensures
        v & ((align - 1) as u32) == v % align,
{
    let low = (align - 1) as u32;
    let q = v >> u32_trailing_zeros(align);
    let n = u32_trailing_zeros(align);
    axiom_u32_trailing_zeros(align);
    assert(align == 1u32 << n) by (bit_vector)
        requires
            align != 0 && align & ((align - 1) as u32) == 0,
            n < 32,
            (align >> n) & 1 == 1,
            align << ((32 - n) as u32) == 0,
    ;
    assert(v == (v >> n) * (1u32 << n) + (v & (((1u32 << n) - 1) as u32)) && (v & (((1u32 << n) - 1) as u32)) < (1u32 << n)) by (bit_vector)
        requires
            n < 32,
    ;
    vstd::arithmetic::div_mod::lemma_fundamental_div_mod_converse(v as int, align as int, (v >> n) as int, (v & low) as int);
}

/// The payload size of a block that takes `size` bytes in all.
pub fn strip_meta(size: u32) -> (r: u32)
    requires
        size >= BLOCK_META_SIZE,
    ensures
        r == size - BLOCK_META_SIZE,
{
    size - BLOCK_META_SIZE
}

/// The bytes that a block with a payload of `size` bytes takes in all.
pub fn with_meta(size: u32) -> (r: u32)
    requires
        size + BLOCK_META_SIZE <= u32::MAX,
    ensures
        r == size + BLOCK_META_SIZE,
{
    size + BLOCK_META_SIZE
}

/// The distance from a block's head to its tail, for a payload of `size` bytes.
pub fn with_head(size: u32) -> (r: u32)
    requires
        size + BLOCK_HEAD_SIZE <= u32::MAX,
    ensures
        r == size + BLOCK_HEAD_SIZE,
{
    size + BLOCK_HEAD_SIZE
}

/// The distance from a block's payload to the end of the block.
pub fn with_tail(size: u32) -> (r: u32)
    requires
        size + BLOCK_TAIL_SIZE <= u32::MAX,
    ensures
        r == size + BLOCK_TAIL_SIZE,
{
    size + BLOCK_TAIL_SIZE
}

/// The payload size of the block whose head is at offset `head` and whose
/// tail is at offset `tail`.
pub fn size_between_meta(head: u32, tail: u32) -> (r: u32)
    requires
        head + BLOCK_HEAD_SIZE <= tail,
    ensures
        r == tail - head - BLOCK_HEAD_SIZE,
{
    tail - head - BLOCK_HEAD_SIZE
}

/// No bit of zero is set, and a word that is not zero has a set bit: the one
/// that its count of trailing zeros names.
pub proof fn lemma_bits_of_zero(w: u32)
    ensures
        w == 0 ==> forall|i: u32| i < 32 ==> !#[trigger] bit_set(w, i),
        w != 0 ==> u32_trailing_zeros(w) < 32 && bit_set(w, u32_trailing_zeros(w)),
        forall|i: u32| i < u32_trailing_zeros(w) ==> !#[trigger] bit_set(w, i),
{
    axiom_u32_trailing_zeros(w);
    assert(forall|i: u32| i < 32 ==> !#[trigger] bit_set(0u32, i)) by (bit_vector);
    assert forall|i: u32| i < u32_trailing_zeros(w) implies !#[trigger] bit_set(w, i) by {
        assert((w >> i) & 1u32 == 0u32);
    }
}

/// The bits of `a | (1 << i)` are those of `a` and bit `i`.
pub proof fn lemma_bit_or(a: u32, i: u32)
    by (bit_vector)
    requires
        i < 32,
    ensures
        forall|j: u32| j < 32 ==> (#[trigger] bit_set(a | (1u32 << i), j) <==> bit_set(a, j) || j == i),
        a | (1u32 << i) != 0,
{
}

/// The bits of `a & !(1 << i)` are those of `a` but for bit `i`.
pub proof fn lemma_bit_clear(a: u32, i: u32)
    by (bit_vector)
    requires
        i < 32,
    ensures
        forall|j: u32| j < 32 ==> (#[trigger] bit_set(a & !(1u32 << i), j) <==> bit_set(a, j) && j != i),
{
}

/// The bits of `a & b` are those set in both.
pub proof fn lemma_bit_and(a: u32, b: u32)
    by (bit_vector)
    ensures
        forall|j: u32| j < 32 ==> (#[trigger] bit_set(a & b, j) <==> bit_set(a, j) && bit_set(b, j)),
{
}

} // verus!
