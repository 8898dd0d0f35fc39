//! The mapping from a payload size to its bucket: a first-level class by the
//! size's highest bit, cut into eight second-level classes of equal width.

use vstd::prelude::*;
use vstd::std_specs::bits::{axiom_u32_leading_zeros, u32_leading_zeros};

verus! {

/// Bits of a word, and the number of first-level classes.
pub const WORD_BITS: u32 = 32;

/// Second-level classes in each first-level class.
pub const SL_COUNT: u32 = 8;

/// The binary logarithm of `SL_COUNT`.
pub const SL_BITS: u32 = 3;

/// The first-level class of a size: the position of its highest set bit.
pub open spec fn fl_index(size: u32) -> u32 {
    (31 - u32_leading_zeros(size)) as u32
}

/// The second-level class of a size within the first-level class `fl`.
pub open spec fn sl_index(size: u32, fl: u32) -> u32 {
    let base = 1u64 << fl;
    let offset = ((size as u64) - base) as u64;
    ((offset << 3) >> fl) as u32
}

/// The number of the bucket `(fl, sl)` among all buckets, in rising order of
/// the sizes that they hold.
pub open spec fn bucket_number(fl: u32, sl: u32) -> int {
    fl * 8 + sl
}

/// The number of the bucket in which a free block with payload `size` lies.
pub open spec fn bucket_of(size: u32) -> int {
    bucket_number(fl_index(size), sl_index(size, fl_index(size)))
}

/// The smallest size that lies in bucket `(fl, sl)`, for `fl >= 3`.
pub open spec fn bucket_floor(fl: u32, sl: u32) -> u64 {
    ((8 + sl) as u64) << ((fl - 3) as u64)
}

/// The first-level class `fl` of a size is below 32 and is the one power of
/// two with `2^fl <= size < 2^(fl + 1)`.
pub proof fn lemma_fl_index(size: u32)
    requires
        size > 0,
    ensures
        fl_index(size) < 32,
        size >> fl_index(size) == 1,
        (1u64 << fl_index(size)) <= size < (2u64 << fl_index(size)),
        size >= 8 ==> fl_index(size) >= 3,
{
    axiom_u32_leading_zeros(size);
    let lz = u32_leading_zeros(size);
    let fl = fl_index(size);
    assert(size >> fl == 1 && (1u64 << fl) <= size && size < (2u64 << fl) && (size >= 8 ==> fl
        >= 3)) by (bit_vector)
        requires
            lz < 32,
            fl == 31 - lz,
            (size >> ((31u32 - lz) as u32)) & 1 != 0,
            size >> ((32 - lz) as u32) == 0,
    ;
}

/// A size lies in the bucket of its two indices: the second-level index is
/// below eight, and the size is at least the bucket's floor and below the next
/// bucket's.
pub proof fn lemma_sl_index(size: u32, fl: u32)
    by (bit_vector)
    requires
        fl < 32,
        size >> fl == 1,
    ensures
        sl_index(size, fl) < 8,
        fl >= 3 ==> bucket_floor(fl, sl_index(size, fl)) <= size,
        fl >= 3 ==> (size as u64) < bucket_floor(fl, sl_index(size, fl)) + (1u64 << ((fl - 3) as u64)),
{
}

/// A larger size never lies in a lower bucket.
pub proof fn lemma_bucket_monotone(s1: u32, s2: u32)
    requires
        0 < s1 <= s2,
    ensures
        bucket_of(s1) <= bucket_of(s2),
{
    lemma_fl_index(s1);
    lemma_fl_index(s2);
    let f1 = fl_index(s1);
    let f2 = fl_index(s2);
    lemma_sl_index(s1, f1);
    lemma_sl_index(s2, f2);
    assert(f1 <= f2 && (f1 == f2 ==> sl_index(s1, f1) <= sl_index(s2, f2))) by (bit_vector)
        requires
            f1 < 32,
            f2 < 32,
            s1 >> f1 == 1,
            s2 >> f2 == 1,
            s1 <= s2,
    ;
}

/// The second-level index of `size` in its first-level class `fl`.
pub fn calc_sl_index_for_fl(size: u32, fl: u32) -> (sl: u32)
    requires
        fl < 32,
        size >> fl == 1,
    ensures
        sl == sl_index(size, fl),
        sl < 8,
{
    proof {
        lemma_sl_index(size, fl);
    }
    assert((1u64 << fl) <= (size as u64) && ((((size as u64) - (1u64 << fl)) as u64) << 3) >> fl
        < 8) by (bit_vector)
        requires
            fl < 32,
            size >> fl == 1,
    ;
    let base: u64 = 1u64 << fl;
    let offset: u64 = (size as u64) - base;
    ((offset << SL_BITS) >> fl) as u32
}

/// The bucket `(fl, sl)` in which a free block with payload `size` belongs.
pub fn mapping_insert(size: u32) -> (r: (u32, u32))
    requires
        size > 0,
    ensures
        r.0 == fl_index(size),
        r.1 == sl_index(size, r.0),
        r.0 < 32,
        r.1 < 8,
        bucket_number(r.0, r.1) == bucket_of(size),
{
    proof {
        lemma_fl_index(size);
        axiom_u32_leading_zeros(size);
    }
    let fl_idx: u32 = (WORD_BITS - 1) - size.leading_zeros();
    let sl_idx = calc_sl_index_for_fl(size, fl_idx);
    (fl_idx, sl_idx)
}

} // verus!
