//! The free-list index: one doubly linked list of free blocks for each
//! bucket, with its links kept inside the blocks, and two levels of bitmaps
//! that say which lists are not empty.

use vstd::prelude::*;

use crate::arena::{bytes_kept, read_word, word_at, write_word};
use crate::block::{
    lemma_pack_links, links_next, links_prev, pack_links, tag_size, FreeBlockHead, PACKED_NONE_PTR,
    SIZE_MASK,
};
use crate::mapping::{
    bucket_number, fl_index, lemma_fl_index, mapping_insert, sl_index, WORD_BITS,
};
use crate::meta::{
    bit_set, left_mask_from, lemma_bit_and, lemma_bit_clear, lemma_bit_or, lemma_bits_of_zero,
};

verus! {

/// The offset of a list's first block as a link: none for the empty list.
pub open spec fn head_link(list: Seq<int>) -> int {
    if list.len() == 0 {
        PACKED_NONE_PTR as int
    } else {
        list[0]
    }
}

/// The lists with the list of bucket `(fl, sl)` replaced.
pub open spec fn with_bucket(lists: Seq<Seq<Seq<int>>>, fl: int, sl: int, list: Seq<int>) -> Seq<
    Seq<Seq<int>>,
> {
    lists.update(fl, lists[fl].update(sl, list))
}

/// The first non-empty bucket above bucket number `from`, or none.
pub open spec fn first_bucket_above(lists: Seq<Seq<Seq<int>>>, from: int) -> Option<(u32, u32)> {
    if exists|fl: u32, sl: u32| bucket_above(lists, from, fl, sl) {
        let (fl, sl) = choose|fl: u32, sl: u32| first_above(lists, from, fl, sl);
        Some((fl, sl))
    } else {
        None
    }
}

/// Bucket `(fl, sl)` is not empty and lies above bucket number `from`.
pub open spec fn bucket_above(lists: Seq<Seq<Seq<int>>>, from: int, fl: u32, sl: u32) -> bool {
    &&& fl < 32
    &&& sl < 8
    &&& bucket_number(fl, sl) > from
    &&& lists[fl as int][sl as int].len() > 0
}

/// Bucket `(fl, sl)` is the lowest of the non-empty buckets above `from`.
pub open spec fn first_above(lists: Seq<Seq<Seq<int>>>, from: int, fl: u32, sl: u32) -> bool {
    &&& bucket_above(lists, from, fl, sl)
    &&& forall|f: u32, s: u32| #[trigger]
        bucket_above(lists, from, f, s) ==> bucket_number(fl, sl) <= bucket_number(f, s)
}

/// The lowest non-empty bucket above `from` is the only one that is lowest.
pub proof fn lemma_first_bucket_above(lists: Seq<Seq<Seq<int>>>, from: int, fl: u32, sl: u32)
    requires
        first_above(lists, from, fl, sl),
    ensures
        first_bucket_above(lists, from) == Some((fl, sl)),
{
    assert(bucket_above(lists, from, fl, sl));
    let (f, s) = choose|f: u32, s: u32| first_above(lists, from, f, s);
    assert(first_above(lists, from, f, s));
    assert(bucket_above(lists, from, f, s));
    assert(bucket_number(f, s) <= bucket_number(fl, sl));
    assert(bucket_number(fl, sl) <= bucket_number(f, s));
}

/// The word at `o` shares no byte with the two link words of the block at
/// `h`.
pub open spec fn off_links(o: int, h: int) -> bool {
    o <= h || h + 12 <= o
}

/// The range of the bytes of the two link words of block `k` of `list`; an
/// empty range where the list has no such block.
pub open spec fn link_range(list: Seq<int>, k: int) -> (int, int) {
    if 0 <= k < list.len() {
        (list[k] + 4, list[k] + 12)
    } else {
        (0, 0)
    }
}

/// The blocks at `e1` and `e2`, of sixteen bytes at least, do not overlap.
pub open spec fn spaced(e1: int, e2: int) -> bool {
    e1 + 16 <= e2 || e2 + 16 <= e1
}

/// The head of the free block at `h`: the tag word and the two links behind it.
pub fn load_free_head(mem: &Vec<u8>, h: u32) -> (head: FreeBlockHead)
    requires
        h + 12 <= mem.len() <= u32::MAX,
    ensures
        head.size_and_flags == word_at(mem@, h as int),
        head.links == pack_links(word_at(mem@, h + 4), word_at(mem@, h + 8)),
{
    let tag = read_word(mem, h);
    let prev = read_word(mem, h + 4);
    let next = read_word(mem, h + 8);
    FreeBlockHead::new(tag, ((prev as u64) << 32) | (next as u64))
}

/// Writes the two links of `head` into the payload of the block at `h`.
pub fn store_links(mem: &mut Vec<u8>, h: u32, head: &FreeBlockHead)
    requires
        h + 12 <= old(mem).len() <= u32::MAX,
    ensures
        final(mem).len() == old(mem).len(),
        word_at(final(mem)@, h + 4) == links_prev(head.links),
        word_at(final(mem)@, h + 8) == links_next(head.links),
        bytes_kept(old(mem)@, final(mem)@, h + 4, h + 12, h + 4, h + 12),
        forall|o: int|
            0 <= o && o + 4 <= old(mem).len() && off_links(o, h as int) ==> #[trigger] word_at(
                final(mem)@,
                o,
            ) == word_at(old(mem)@, o),
{
    let (prev, next) = head.link_offsets();
    write_word(mem, h + 4, prev);
    write_word(mem, h + 8, next);
}

/// `shorter` is `list` without its element `k`.
pub open spec fn is_removal(list: Seq<int>, k: int, shorter: Seq<int>) -> bool {
    &&& 0 <= k < list.len()
    &&& shorter.len() == list.len() - 1
    &&& forall|j: int| 0 <= j < k ==> #[trigger] shorter[j] == list[j]
    &&& forall|j: int| k <= j < shorter.len() ==> #[trigger] shorter[j] == list[j + 1]
}

/// Taking block `k` out of bucket `(fl, sl)` and linking its two neighbours
/// to each other leaves every list linked as the model says.
proof fn lemma_remove_links(
    before: FreeIndex,
    after: FreeIndex,
    mem0: Seq<u8>,
    mem2: Seq<u8>,
    fl: int,
    sl: int,
    k: int,
    shorter: Seq<int>,
)
    requires
        before.shape_ok(),
        before.links_ok(mem0),
        before.distinct(),
        before.is_entry(fl, sl, k),
        mem2.len() == mem0.len(),
        mem0.len() <= u32::MAX,
        is_removal(before.lists@[fl][sl], k, shorter),
        after.lists@ == with_bucket(before.lists@, fl, sl, shorter),
        ({
            let list = before.lists@[fl][sl];
            &&& forall|o: int|
                0 <= o && o + 4 <= mem0.len() && (k + 1 < list.len() ==> off_links(o, list[k + 1]))
                    && (k > 0 ==> off_links(o, list[k - 1])) ==> #[trigger] word_at(mem2, o)
                    == word_at(mem0, o)
            &&& k + 1 < list.len() ==> word_at(mem2, list[k + 1] + 4) as int == (if k == 0 {
                PACKED_NONE_PTR as int
            } else {
                list[k - 1]
            }) && word_at(mem2, list[k + 1] + 8) == word_at(mem0, list[k + 1] + 8)
            &&& k > 0 ==> word_at(mem2, list[k - 1] + 8) as int == (if k + 1 == list.len() {
                PACKED_NONE_PTR as int
            } else {
                list[k + 1]
            }) && word_at(mem2, list[k - 1] + 4) == word_at(mem0, list[k - 1] + 4)
        }),
    ensures
        after.links_ok(mem2),
{
    let list = before.lists@[fl][sl];
    if k + 1 < list.len() {
        assert(before.is_entry(fl, sl, k + 1));
        assert(before.entry_ok(mem0, fl, sl, k + 1));
    }
    if k > 0 {
        assert(before.is_entry(fl, sl, k - 1));
        assert(before.entry_ok(mem0, fl, sl, k - 1));
    }
    assert forall|f: int, s: int, j: int| #[trigger] after.is_entry(f, s, j) implies after.entry_ok(
        mem2,
        f,
        s,
        j,
    ) by {
        if f == fl && s == sl {
            let i = if j >= k {
                j + 1
            } else {
                j
            };
            assert(before.is_entry(f, s, i));
            assert(before.entry_ok(mem0, f, s, i));
            let e = list[i];
            assert(shorter[j] == e);
            if i == k + 1 {
                assert(word_at(mem2, e + 8) == word_at(mem0, e + 8));
            } else if i == k - 1 {
                assert(word_at(mem2, e + 4) == word_at(mem0, e + 4));
            } else {
                assert(word_at(mem2, e + 4) == word_at(mem0, e + 4));
                assert(word_at(mem2, e + 8) == word_at(mem0, e + 8));
            }
        } else {
            assert(before.is_entry(f, s, j));
            assert(before.entry_ok(mem0, f, s, j));
            let e = before.lists@[f][s][j];
            assert(after.lists@[f][s] == before.lists@[f][s]);
            assert(word_at(mem2, e + 4) == word_at(mem0, e + 4));
            assert(word_at(mem2, e + 8) == word_at(mem0, e + 8));
        }
    }
}

/// Taking a block out of a list leaves no block listed twice.
proof fn lemma_remove_distinct(
    before: FreeIndex,
    after: FreeIndex,
    fl: int,
    sl: int,
    k: int,
    shorter: Seq<int>,
)
    requires
        before.shape_ok(),
        before.distinct(),
        before.is_entry(fl, sl, k),
        is_removal(before.lists@[fl][sl], k, shorter),
        after.lists@ == with_bucket(before.lists@, fl, sl, shorter),
    ensures
        after.shape_ok(),
        after.distinct(),
{
    assert forall|fl1: int, sl1: int, k1: int, fl2: int, sl2: int, k2: int|
        #![trigger after.is_entry(fl1, sl1, k1), after.is_entry(fl2, sl2, k2)]
        after.is_entry(fl1, sl1, k1) && after.is_entry(fl2, sl2, k2) && !(fl1 == fl2 && sl1 == sl2
            && k1 == k2) implies spaced(after.lists@[fl1][sl1][k1], after.lists@[fl2][sl2][k2]) by {
        let j1 = if fl1 == fl && sl1 == sl && k1 >= k {
            k1 + 1
        } else {
            k1
        };
        let j2 = if fl2 == fl && sl2 == sl && k2 >= k {
            k2 + 1
        } else {
            k2
        };
        assert(before.is_entry(fl1, sl1, j1));
        assert(before.is_entry(fl2, sl2, j2));
    }
}

/// The free-list index. `lists` is the model: for each bucket the offsets of
/// its free blocks, first block first.
pub struct FreeIndex {
    pub fl_bitmap: u32,
    pub sl_bitmaps: [u32; 32],
    pub free_heads: [[u32; 8]; 32],
    pub lists: Ghost<Seq<Seq<Seq<int>>>>,
}

impl FreeIndex {
    /// The offsets of the free blocks of bucket `(fl, sl)`, first block first.
    pub open spec fn bucket(&self, fl: int, sl: int) -> Seq<int> {
        self.lists@[fl][sl]
    }

    /// There are 32 times 8 lists.
    pub open spec fn shape_ok(&self) -> bool {
        &&& self.lists@.len() == 32
        &&& forall|fl: int| 0 <= fl < 32 ==> (#[trigger] self.lists@[fl]).len() == 8
    }

    /// Block `k` of bucket `(fl, sl)` lies in the arena and its two links name
    /// the blocks before and after it in the list.
    pub open spec fn entry_ok(&self, mem: Seq<u8>, fl: int, sl: int, k: int) -> bool {
        let list = self.lists@[fl][sl];
        let e = list[k];
        &&& 0 <= e
        &&& e + 16 <= mem.len()
        &&& word_at(mem, e + 4) as int == (if k == 0 {
            PACKED_NONE_PTR as int
        } else {
            list[k - 1]
        })
        &&& word_at(mem, e + 8) as int == (if k + 1 == list.len() {
            PACKED_NONE_PTR as int
        } else {
            list[k + 1]
        })
    }

    /// `k` is a position in bucket `(fl, sl)`.
    pub open spec fn is_entry(&self, fl: int, sl: int, k: int) -> bool {
        &&& 0 <= fl < 32
        &&& 0 <= sl < 8
        &&& 0 <= k < self.lists@[fl][sl].len()
    }

    /// Every listed block is linked as its list says.
    pub open spec fn links_ok(&self, mem: Seq<u8>) -> bool {
        forall|fl: int, sl: int, k: int| #[trigger]
            self.is_entry(fl, sl, k) ==> self.entry_ok(mem, fl, sl, k)
    }

    /// No block is listed twice, in one list or in two, and no two listed
    /// blocks overlap.
    pub open spec fn distinct(&self) -> bool {
        forall|fl1: int, sl1: int, k1: int, fl2: int, sl2: int, k2: int|
            #![trigger self.is_entry(fl1, sl1, k1), self.is_entry(fl2, sl2, k2)]
            self.is_entry(fl1, sl1, k1) && self.is_entry(fl2, sl2, k2) && !(fl1 == fl2 && sl1
                == sl2 && k1 == k2) ==> spaced(self.lists@[fl1][sl1][k1], self.lists@[fl2][sl2][k2])
    }

    /// Each bucket's head is the first block of its list.
    pub open spec fn heads_ok(&self) -> bool {
        forall|fl: int, sl: int|
            0 <= fl < 32 && 0 <= sl < 8 ==> (#[trigger] self.free_heads[fl][sl]) as int
                == head_link(self.lists@[fl][sl])
    }

    /// A second-level bit is set where the bucket's list is not empty, and a
    /// first-level bit where one of its second-level bits is set.
    pub open spec fn bitmaps_ok(&self) -> bool {
        &&& forall|fl: u32, sl: u32|
            fl < 32 && sl < 32 ==> (#[trigger] bit_set(self.sl_bitmaps[fl as int], sl) <==> sl < 8
                && self.lists@[fl as int][sl as int].len() > 0)
        &&& forall|fl: u32|
            fl < 32 ==> (#[trigger] bit_set(self.fl_bitmap, fl) <==> self.sl_bitmaps[fl as int]
                != 0)
    }

    /// The index is consistent with itself and with the links in the arena.
    pub open spec fn wf(&self, mem: Seq<u8>) -> bool {
        &&& mem.len() <= u32::MAX
        &&& self.shape_ok()
        &&& self.links_ok(mem)
        &&& self.distinct()
        &&& self.heads_ok()
        &&& self.bitmaps_ok()
    }

    /// No listed block overlaps the block at `h`: it is in no list.
    pub open spec fn unlisted(&self, h: int) -> bool {
        forall|fl: int, sl: int, k: int| #[trigger]
            self.is_entry(fl, sl, k) ==> spaced(self.lists@[fl][sl][k], h)
    }

    /// An index with every list empty.
    pub fn new() -> (index: Self)
        ensures
            index.shape_ok(),
            forall|fl: int, sl: int| 0 <= fl < 32 && 0 <= sl < 8 ==> index.bucket(fl, sl).len() == 0,
            forall|mem: Seq<u8>| mem.len() <= u32::MAX ==> index.wf(mem),
    {
        let index = FreeIndex {
            fl_bitmap: 0,
            sl_bitmaps: [0u32;32],
            free_heads: [[PACKED_NONE_PTR;8];32],
            lists: Ghost(Seq::new(32, |fl: int| Seq::new(8, |sl: int| Seq::<int>::empty()))),
        };
        proof {
            lemma_bits_of_zero(0u32);
        }
        index
    }

    /// Marks bucket `(fli, sli)` as not empty.
    pub fn set_bitmap_index_available(&mut self, fli: u32, sli: u32)
        requires
            fli < 32,
            sli < 8,
        ensures
            final(self).free_heads == old(self).free_heads,
            final(self).lists == old(self).lists,
            forall|fl: int|
                0 <= fl < 32 && fl != fli ==> final(self).sl_bitmaps[fl] == old(
                    self,
                ).sl_bitmaps[fl],
            final(self).sl_bitmaps[fli as int] != 0,
            forall|sl: u32|
                sl < 32 ==> (#[trigger] bit_set(final(self).sl_bitmaps[fli as int], sl) <==> bit_set(
                    old(self).sl_bitmaps[fli as int],
                    sl,
                ) || sl == sli),
            forall|fl: u32|
                fl < 32 ==> (#[trigger] bit_set(final(self).fl_bitmap, fl) <==> bit_set(
                    old(self).fl_bitmap,
                    fl,
                ) || fl == fli),
    {
        proof {
            lemma_bit_or(self.fl_bitmap, fli);
            lemma_bit_or(self.sl_bitmaps[fli as int], sli);
        }
        let fl_mask: u32 = 1u32 << fli;
        self.fl_bitmap |= fl_mask;
        let sl_mask: u32 = 1u32 << sli;
        let row: u32 = self.sl_bitmaps[fli as usize];
        self.sl_bitmaps[fli as usize] = row | sl_mask;
    }

    /// Marks bucket `(fli, sli)` as empty, and its first-level class too when
    /// that was its last bucket.
    pub fn set_bitmap_index_empty(&mut self, fli: u32, sli: u32)
        requires
            fli < 32,
            sli < 8,
        ensures
            final(self).free_heads == old(self).free_heads,
            final(self).lists == old(self).lists,
            forall|fl: int|
                0 <= fl < 32 && fl != fli ==> final(self).sl_bitmaps[fl] == old(
                    self,
                ).sl_bitmaps[fl],
            forall|sl: u32|
                sl < 32 ==> (#[trigger] bit_set(final(self).sl_bitmaps[fli as int], sl) <==> bit_set(
                    old(self).sl_bitmaps[fli as int],
                    sl,
                ) && sl != sli),
            forall|fl: u32|
                fl < 32 ==> (#[trigger] bit_set(final(self).fl_bitmap, fl) <==> bit_set(
                    old(self).fl_bitmap,
                    fl,
                ) && (fl != fli || final(self).sl_bitmaps[fli as int] != 0)),
    {
        proof {
            lemma_bit_clear(self.fl_bitmap, fli);
            lemma_bit_clear(self.sl_bitmaps[fli as int], sli);
        }
        let sl_mask: u32 = 1u32 << sli;
        let row: u32 = self.sl_bitmaps[fli as usize];
        self.sl_bitmaps[fli as usize] = row & !sl_mask;
        if self.sl_bitmaps[fli as usize] == 0 {
            let fl_mask: u32 = 1u32 << fli;
            self.fl_bitmap &= !fl_mask;
        }
    }

    /// Puts the free block at `h` in front of the list of its size's bucket.
    pub fn push_front(&mut self, mem: &mut Vec<u8>, h: u32)
        requires
            old(self).wf(old(mem)@),
            h + 16 <= old(mem).len(),
            tag_size(word_at(old(mem)@, h as int)) > 0,
            old(self).unlisted(h as int),
        ensures
            final(self).wf(final(mem)@),
            final(mem).len() == old(mem).len(),
            ({
                let size = tag_size(word_at(old(mem)@, h as int));
                let fl = fl_index(size) as int;
                let sl = sl_index(size, fl_index(size)) as int;
                let list = old(self).lists@[fl][sl];
                &&& final(self).lists@ == with_bucket(
                    old(self).lists@,
                    fl,
                    sl,
                    seq![h as int] + list,
                )
                &&& forall|o: int|
                    0 <= o && o + 4 <= old(mem).len() && off_links(o, h as int) && (list.len() > 0
                        ==> off_links(o, list[0])) ==> #[trigger] word_at(final(mem)@, o)
                        == word_at(old(mem)@, o)
                &&& bytes_kept(
                    old(mem)@,
                    final(mem)@,
                    h + 4,
                    h + 12,
                    link_range(list, 0).0,
                    link_range(list, 0).1,
                )
            }),
    {
        let ghost mem0 = mem@;
        let tag = read_word(mem, h);
        let (fli, sli) = mapping_insert(tag & SIZE_MASK);
        let ghost fl = fli as int;
        let ghost sl = sli as int;
        let ghost list = self.lists@[fl][sl];
        let last = self.free_heads[fli as usize][sli as usize];
        self.free_heads[fli as usize][sli as usize] = h;
        let mut head = load_free_head(mem, h);
        proof {
            lemma_pack_links(PACKED_NONE_PTR, last);
            assert(old(self).is_entry(fl, sl, 0) ==> old(self).entry_ok(mem0, fl, sl, 0));
        }
        if last != PACKED_NONE_PTR {
            let mut last_head = load_free_head(mem, last);
            proof {
                lemma_pack_links(h, links_next(last_head.links));
                lemma_pack_links(word_at(mem0, last + 4), word_at(mem0, last + 8));
            }
            last_head.set_prev_link(h);
            store_links(mem, last, &last_head);
            head.set_links(((PACKED_NONE_PTR as u64) << 32) | (last as u64));
        } else {
            head.set_links(((PACKED_NONE_PTR as u64) << 32) | (PACKED_NONE_PTR as u64));
        }
        store_links(mem, h, &head);
        self.set_bitmap_index_available(fli, sli);
        proof {
            self.lists = Ghost(with_bucket(self.lists@, fl, sl, seq![h as int] + list));
            let mem1 = mem@;
            assert forall|f: int, s: int, k: int| #[trigger]
                self.is_entry(f, s, k) implies self.entry_ok(mem1, f, s, k) by {
                if f == fl && s == sl {
                    if k > 0 {
                        assert(old(self).is_entry(f, s, k - 1));
                        assert(old(self).entry_ok(mem0, f, s, k - 1));
                        assert(old(self).is_entry(f, s, 0));
                    }
                } else {
                    assert(old(self).is_entry(f, s, k));
                    assert(old(self).entry_ok(mem0, f, s, k));
                    if list.len() > 0 {
                        assert(old(self).is_entry(fl, sl, 0));
                    }
                }
            }
            assert forall|fl1: int, sl1: int, k1: int, fl2: int, sl2: int, k2: int|
                #![trigger self.is_entry(fl1, sl1, k1), self.is_entry(fl2, sl2, k2)]
                self.is_entry(fl1, sl1, k1) && self.is_entry(fl2, sl2, k2) && !(fl1 == fl2 && sl1
                    == sl2 && k1 == k2) implies spaced(
                self.lists@[fl1][sl1][k1],
                self.lists@[fl2][sl2][k2],
            ) by {
                let j1 = if fl1 == fl && sl1 == sl { k1 - 1 } else { k1 };
                let j2 = if fl2 == fl && sl2 == sl { k2 - 1 } else { k2 };
                if j1 >= 0 {
                    assert(old(self).is_entry(fl1, sl1, j1));
                }
                if j2 >= 0 {
                    assert(old(self).is_entry(fl2, sl2, j2));
                }
            }
        }
    }

    /// Takes the first block off the list of bucket `(fli, sli)`.
    pub fn pop_front(&mut self, mem: &mut Vec<u8>, fli: u32, sli: u32) -> (h: u32)
        requires
            old(self).wf(old(mem)@),
            fli < 32,
            sli < 8,
            old(self).lists@[fli as int][sli as int].len() > 0,
        ensures
            final(self).wf(final(mem)@),
            final(mem).len() == old(mem).len(),
            ({
                let list = old(self).lists@[fli as int][sli as int];
                &&& h == list[0]
                &&& final(self).lists@ == with_bucket(
                    old(self).lists@,
                    fli as int,
                    sli as int,
                    list.drop_first(),
                )
                &&& forall|o: int|
                    0 <= o && o + 4 <= old(mem).len() && (list.len() > 1 ==> off_links(o, list[1]))
                        ==> #[trigger] word_at(final(mem)@, o) == word_at(old(mem)@, o)
                &&& bytes_kept(
                    old(mem)@,
                    final(mem)@,
                    link_range(list, 1).0,
                    link_range(list, 1).1,
                    link_range(list, 1).0,
                    link_range(list, 1).1,
                )
            }),
    {
        let ghost mem0 = mem@;
        let ghost fl = fli as int;
        let ghost sl = sli as int;
        let ghost list = self.lists@[fl][sl];
        let h = self.free_heads[fli as usize][sli as usize];
        proof {
            assert(self.is_entry(fl, sl, 0));
            assert(self.entry_ok(mem0, fl, sl, 0));
            if list.len() > 1 {
                assert(self.is_entry(fl, sl, 1));
                assert(self.entry_ok(mem0, fl, sl, 1));
            }
            lemma_pack_links(word_at(mem0, h + 4), word_at(mem0, h + 8));
        }
        let head = load_free_head(mem, h);
        let (_, next) = head.link_offsets();
        self.free_heads[fli as usize][sli as usize] = next;
        if next != PACKED_NONE_PTR {
            proof {
                assert(old(self).is_entry(fl, sl, 1));
                assert(old(self).entry_ok(mem0, fl, sl, 1));
            }
            let mut next_head = load_free_head(mem, next);
            proof {
                lemma_pack_links(PACKED_NONE_PTR, links_next(next_head.links));
                lemma_pack_links(word_at(mem0, next + 4), word_at(mem0, next + 8));
            }
            next_head.set_prev_link(PACKED_NONE_PTR);
            store_links(mem, next, &next_head);
        } else {
            self.set_bitmap_index_empty(fli, sli);
        }
        proof {
            self.lists = Ghost(with_bucket(self.lists@, fl, sl, list.drop_first()));
            let mem1 = mem@;
            assert forall|f: int, s: int, k: int| #[trigger]
                self.is_entry(f, s, k) implies self.entry_ok(mem1, f, s, k) by {
                if f == fl && s == sl {
                    assert(old(self).is_entry(f, s, k + 1));
                    assert(old(self).entry_ok(mem0, f, s, k + 1));
                    assert(old(self).is_entry(f, s, 1));
                } else {
                    assert(old(self).is_entry(f, s, k));
                    assert(old(self).entry_ok(mem0, f, s, k));
                    if list.len() > 1 {
                        assert(old(self).is_entry(fl, sl, 1));
                    }
                }
            }
            assert forall|fl1: int, sl1: int, k1: int, fl2: int, sl2: int, k2: int|
                #![trigger self.is_entry(fl1, sl1, k1), self.is_entry(fl2, sl2, k2)]
                self.is_entry(fl1, sl1, k1) && self.is_entry(fl2, sl2, k2) && !(fl1 == fl2 && sl1
                    == sl2 && k1 == k2) implies spaced(
                self.lists@[fl1][sl1][k1],
                self.lists@[fl2][sl2][k2],
            ) by {
                let j1 = if fl1 == fl && sl1 == sl { k1 + 1 } else { k1 };
                let j2 = if fl2 == fl && sl2 == sl { k2 + 1 } else { k2 };
                assert(old(self).is_entry(fl1, sl1, j1));
                assert(old(self).is_entry(fl2, sl2, j2));
            }
            assert forall|f: u32, s: u32| f < 32 && s < 32 implies (#[trigger] bit_set(
                self.sl_bitmaps[f as int],
                s,
            ) <==> s < 8 && self.lists@[f as int][s as int].len() > 0) by {
                assert(bit_set(old(self).sl_bitmaps[f as int], s) <==> s < 8 && old(
                    self,
                ).lists@[f as int][s as int].len() > 0);
            }
            assert forall|f: u32| f < 32 implies (#[trigger] bit_set(self.fl_bitmap, f)
                <==> self.sl_bitmaps[f as int] != 0) by {
                assert(bit_set(old(self).fl_bitmap, f) <==> old(self).sl_bitmaps[f as int] != 0);
                lemma_bits_of_zero(old(self).sl_bitmaps[fl]);
                assert(bit_set(old(self).sl_bitmaps[fl], sli));
            }
        }
        h
    }

    /// Takes the free block at `h` out of the list of its size's bucket,
    /// wherever in the list it stands.
    pub fn remove(&mut self, mem: &mut Vec<u8>, h: u32)
        requires
            old(self).wf(old(mem)@),
            tag_size(word_at(old(mem)@, h as int)) > 0,
            ({
                let size = tag_size(word_at(old(mem)@, h as int));
                old(self).lists@[fl_index(size) as int][sl_index(size, fl_index(size)) as int].contains(
                    h as int,
                )
            }),
        ensures
            final(self).wf(final(mem)@),
            final(mem).len() == old(mem).len(),
            ({
                let size = tag_size(word_at(old(mem)@, h as int));
                let fl = fl_index(size) as int;
                let sl = sl_index(size, fl_index(size)) as int;
                let list = old(self).lists@[fl][sl];
                let k = list.index_of(h as int);
                &&& 0 <= k < list.len()
                &&& list[k] == h
                &&& final(self).lists@ == with_bucket(old(self).lists@, fl, sl, list.remove(k))
                &&& forall|o: int|
                    0 <= o && o + 4 <= old(mem).len() && (k + 1 < list.len() ==> off_links(
                        o,
                        list[k + 1],
                    )) && (k > 0 ==> off_links(o, list[k - 1])) ==> #[trigger] word_at(
                        final(mem)@,
                        o,
                    ) == word_at(old(mem)@, o)
                &&& bytes_kept(
                    old(mem)@,
                    final(mem)@,
                    link_range(list, k + 1).0,
                    link_range(list, k + 1).1,
                    link_range(list, k - 1).0,
                    link_range(list, k - 1).1,
                )
            }),
    {
        let ghost mem0 = mem@;
        proof {
            lemma_fl_index(tag_size(word_at(mem0, h as int)));
            crate::mapping::lemma_sl_index(
                tag_size(word_at(mem0, h as int)),
                fl_index(tag_size(word_at(mem0, h as int))),
            );
        }
        let ghost fl = fl_index(tag_size(word_at(mem0, h as int))) as int;
        let ghost sl = sl_index(
            tag_size(word_at(mem0, h as int)),
            fl_index(tag_size(word_at(mem0, h as int))),
        ) as int;
        let ghost list = self.lists@[fl][sl];
        let ghost k = list.index_of(h as int);
        proof {
            assert(self.is_entry(fl, sl, k));
            assert(self.entry_ok(mem0, fl, sl, k));
            assert(self.is_entry(fl, sl, 0));
            if k > 0 {
                assert(self.is_entry(fl, sl, k - 1));
                assert(self.entry_ok(mem0, fl, sl, k - 1));
            }
            if k + 1 < list.len() {
                assert(self.is_entry(fl, sl, k + 1));
                assert(self.entry_ok(mem0, fl, sl, k + 1));
            }
            lemma_pack_links(word_at(mem0, h + 4), word_at(mem0, h + 8));
        }
        let tag = read_word(mem, h);
        let (fli, sli) = mapping_insert(tag & SIZE_MASK);
        let head = load_free_head(mem, h);
        let (prev, next) = head.link_offsets();
        if next != PACKED_NONE_PTR {
            let mut next_head = load_free_head(mem, next);
            proof {
                lemma_pack_links(prev, links_next(next_head.links));
                lemma_pack_links(word_at(mem0, next + 4), word_at(mem0, next + 8));
            }
            next_head.set_prev_link(prev);
            store_links(mem, next, &next_head);
        }
        let ghost mem1 = mem@;
        if prev != PACKED_NONE_PTR {
            let mut prev_head = load_free_head(mem, prev);
            proof {
                lemma_pack_links(links_prev(prev_head.links), next);
                lemma_pack_links(word_at(mem1, prev + 4), word_at(mem1, prev + 8));
            }
            prev_head.set_next_link(next);
            store_links(mem, prev, &prev_head);
        }
        if self.free_heads[fli as usize][sli as usize] == h {
            self.free_heads[fli as usize][sli as usize] = next;
        }
        if self.free_heads[fli as usize][sli as usize] == PACKED_NONE_PTR {
            self.set_bitmap_index_empty(fli, sli);
        }
        proof {
            self.lists = Ghost(with_bucket(self.lists@, fl, sl, list.remove(k)));
            let mem2 = mem@;
            assert(word_at(mem1, h + 4) == word_at(mem0, h + 4));
            assert(word_at(mem1, h + 8) == word_at(mem0, h + 8));
            if k > 0 {
                assert(word_at(mem1, prev + 4) == word_at(mem0, prev + 4));
                assert(word_at(mem1, prev + 8) == word_at(mem0, prev + 8));
            }
            list.remove_ensures(k);
            lemma_remove_links(*old(self), *self, mem0, mem2, fl, sl, k, list.remove(k));
            lemma_remove_distinct(*old(self), *self, fl, sl, k, list.remove(k));
            assert forall|f: u32, s: u32| f < 32 && s < 32 implies (#[trigger] bit_set(
                self.sl_bitmaps[f as int],
                s,
            ) <==> s < 8 && self.lists@[f as int][s as int].len() > 0) by {
                assert(bit_set(old(self).sl_bitmaps[f as int], s) <==> s < 8 && old(
                    self,
                ).lists@[f as int][s as int].len() > 0);
            }
            assert forall|f: u32| f < 32 implies (#[trigger] bit_set(self.fl_bitmap, f)
                <==> self.sl_bitmaps[f as int] != 0) by {
                assert(bit_set(old(self).fl_bitmap, f) <==> old(self).sl_bitmaps[f as int] != 0);
                lemma_bits_of_zero(old(self).sl_bitmaps[fl]);
                assert(bit_set(old(self).sl_bitmaps[fl], sli));
            }
        }
    }

    /// The lowest bucket above the one in which `size` itself lies that is not
    /// empty, if there is one. Every block in a bucket above that of `size` is
    /// larger than `size`.
    pub fn search(&self, size: u32) -> (r: Option<(u32, u32)>)
        requires
            self.shape_ok(),
            self.bitmaps_ok(),
            size > 0,
        ensures
            match r {
                Some((fl, sl)) => first_above(self.lists@, crate::mapping::bucket_of(size), fl, sl),
                None => forall|f: u32, s: u32|
                    !#[trigger] bucket_above(self.lists@, crate::mapping::bucket_of(size), f, s),
            },
    {
        let (fl0, sl0) = mapping_insert(size);
        let sl_mask = left_mask_from(sl0 + 1);
        let row: u32 = self.sl_bitmaps[fl0 as usize];
        let avail_sl: u32 = row & sl_mask;
        proof {
            lemma_bit_and(row, sl_mask);
            lemma_bits_of_zero(avail_sl);
        }
        let ghost from = crate::mapping::bucket_of(size);
        if avail_sl != 0 {
            let sl1 = avail_sl.trailing_zeros();
            proof {
                assert(bit_set(avail_sl, sl1));
                assert(bit_set(row, sl1) && bit_set(sl_mask, sl1));
                assert forall|f: u32, s: u32| #[trigger]
                    bucket_above(self.lists@, from, f, s) implies bucket_number(fl0, sl1)
                    <= bucket_number(f, s) by {
                    if f == fl0 {
                        assert(bit_set(self.sl_bitmaps[f as int], s));
                        assert(bit_set(sl_mask, s));
                        assert(bit_set(avail_sl, s));
                    }
                }
            }
            return Some((fl0, sl1));
        }
        proof {
            assert forall|s: u32| s < 8 && s > sl0 implies self.lists@[fl0 as int][s as int].len()
                == 0 by {
                assert(bit_set(sl_mask, s));
                assert(!bit_set(avail_sl, s));
                assert(!bit_set(self.sl_bitmaps[fl0 as int], s));
            }
        }
        if fl0 + 1 >= WORD_BITS {
            return None;
        }
        let fl_mask = left_mask_from(fl0 + 1);
        let avail_fl: u32 = self.fl_bitmap & fl_mask;
        proof {
            lemma_bit_and(self.fl_bitmap, fl_mask);
            lemma_bits_of_zero(avail_fl);
            assert forall|f: u32| f < 32 && !bit_set(self.fl_bitmap, f) implies forall|s: u32|
                s < 32 ==> !#[trigger] bit_set(self.sl_bitmaps[f as int], s) by {
                lemma_bits_of_zero(self.sl_bitmaps[f as int]);
            }
        }
        if avail_fl == 0 {
            proof {
                assert forall|f: u32, s: u32| !#[trigger] bucket_above(
                    self.lists@,
                    from,
                    f,
                    s,
                ) by {
                    if f < 32 && s < 8 && f > fl0 {
                        assert(bit_set(fl_mask, f));
                        assert(!bit_set(avail_fl, f));
                        assert(!bit_set(self.fl_bitmap, f));
                        assert(!bit_set(self.sl_bitmaps[f as int], s));
                    }
                }
            }
            return None;
        }
        let fl1 = avail_fl.trailing_zeros();
        let row1: u32 = self.sl_bitmaps[fl1 as usize];
        proof {
            lemma_bits_of_zero(row1);
            assert(bit_set(avail_fl, fl1));
            assert(bit_set(self.fl_bitmap, fl1) && bit_set(fl_mask, fl1));
        }
        let sl1 = row1.trailing_zeros();
        proof {
            assert(bit_set(row1, sl1));
            assert forall|f: u32, s: u32| #[trigger]
                bucket_above(self.lists@, from, f, s) implies bucket_number(fl1, sl1)
                <= bucket_number(f, s) by {
                if f > fl0 && f < fl1 {
                    assert(bit_set(fl_mask, f));
                    assert(!bit_set(avail_fl, f));
                    assert(!bit_set(self.fl_bitmap, f));
                    assert(!bit_set(self.sl_bitmaps[f as int], s));
                }
                if f == fl1 {
                    assert(bit_set(self.sl_bitmaps[f as int], s));
                }
            }
        }
        Some((fl1, sl1))
    }
}

} // verus!
