use vstd::prelude::*;
use bitmaps::Bitmap;

verus! {

/// Bytes at the end of a page that hold the slot bitmap and reserved metadata.
pub const TAIL_SIZE: usize = 64;
/// Bytes of the slot bitmap.
pub const BITMAP_SIZE: usize = 32;
/// Bits of the slot bitmap: one per record slot at most.
pub const BITMAP_BIT_SIZE: usize = 256;

/// A bitmaps `Bitmap<256>`: the free-slot bits of a page.
#[verifier::external_body]
pub struct SlotBitmap {
    bits: Bitmap<256>,
}

/// The bits a slot bitmap holds, in index order.
pub uninterp spec fn bitmap_bits(b: SlotBitmap) -> Seq<bool>;

/// Relies on bitmaps' `Bitmap::new`: 256 bits, all false.
#[verifier::external_body]
fn bitmap_new() -> (r: SlotBitmap)
    ensures
        bitmap_bits(r) == Seq::new(256, |i: int| false),
{
    SlotBitmap { bits: Bitmap::<256>::new() }
}

/// Relies on bitmaps' `Bitmap::set`: writes one bit, the others stay
/// (it indexes past its two words, and panics, when `index >= 256`).
#[verifier::external_body]
fn bitmap_set(b: &mut SlotBitmap, index: usize, value: bool)
    requires
        index < 256,
        bitmap_bits(*old(b)).len() == 256,
    ensures
        bitmap_bits(*final(b)) == bitmap_bits(*old(b)).update(index as int, value),
{
    b.bits.set(index, value);
}

/// Relies on bitmaps' `Bitmap::first_false_index`: the lowest index of a
/// false bit, or `None` when every bit is true.
#[verifier::external_body]
fn bitmap_first_false(b: &SlotBitmap) -> (r: Option<usize>)
    requires
        bitmap_bits(*b).len() == 256,
    ensures
        match r {
            Some(x) => x < 256 && !bitmap_bits(*b)[x as int]
                && forall|j: int| 0 <= j < x ==> bitmap_bits(*b)[j],
            None => forall|j: int| 0 <= j < 256 ==> bitmap_bits(*b)[j],
        },
{
    b.bits.first_false_index()
}

/// Bit `k` (least significant first) of a byte.
pub open spec fn byte_bit(b: u8, k: int) -> bool {
    ((b >> (k as u8)) & 1u8) == 1u8
}

/// The slot bits stored little-endian in the 32 bitmap bytes starting at `offset`.
pub open spec fn decoded_bitmap(bytes: Seq<u8>, offset: int) -> Seq<bool> {
    Seq::new(256, |i: int| byte_bit(bytes[offset + i / 8], i % 8))
}

/// The first free slot at or after `i` below `limit`.
pub open spec fn first_free_from(bits: Seq<bool>, limit: int, i: int) -> Option<int>
    decreases limit - i, bits.len() - i,
{
    if i >= limit || i >= bits.len() || i < 0 {
        None
    } else if !bits[i] {
        Some(i)
    } else {
        first_free_from(bits, limit, i + 1)
    }
}

proof fn lemma_first_free_is(bits: Seq<bool>, limit: int, i: int, x: int)
    requires
        0 <= i <= x,
        x < limit,
        x < bits.len(),
        !bits[x],
        forall|j: int| i <= j < x ==> bits[j],
    ensures
        first_free_from(bits, limit, i) == Some(x),
    decreases x - i,
{
    if i < x {
        lemma_first_free_is(bits, limit, i + 1, x);
    }
}

proof fn lemma_no_free_from(bits: Seq<bool>, limit: int, i: int)
    requires
        0 <= i,
        forall|j: int| i <= j < limit && j < bits.len() ==> bits[j],
    ensures
        first_free_from(bits, limit, i) is None,
    decreases limit - i, bits.len() - i,
{
    if i < limit && i < bits.len() {
        lemma_no_free_from(bits, limit, i + 1);
    }
}

/// On a page whose bitmap is all zero the first free slot is slot 0; once slot 0
/// is busy it is slot 1, or none when the page has a single slot.
pub proof fn lemma_fresh_page_slots(bits: Seq<bool>, item_num: int)
    requires
        bits.len() == BITMAP_BIT_SIZE,
        forall|j: int| 0 <= j < bits.len() ==> !bits[j],
        item_num >= 1,
    ensures
        first_free_from(bits, item_num, 0) == Some(0int),
        item_num > 1 ==> first_free_from(bits.update(0, true), item_num, 0) == Some(1int),
        item_num == 1 ==> first_free_from(bits.update(0, true), item_num, 0) is None,
{
    let b2 = bits.update(0, true);
    assert(first_free_from(b2, item_num, 1) == (if 1 < item_num { Some(1int) } else { None }));
}

/// A page buffer read as fixed-size records followed by a tail that holds the
/// free-slot bitmap (bit `i` set when record slot `i` is in use).
pub struct DataPage<'a, const PAGE_SIZE: usize> {
    /// Where the slot bitmap starts.
    bitmap_offset: usize,
    /// Where the reserved metadata after the bitmap starts.
    meta_data: usize,
    slot_bitmap: SlotBitmap,
    item_size: usize,
    item_num: usize,
    data: &'a [u8; PAGE_SIZE],
}

impl<'a, const PAGE_SIZE: usize> DataPage<'a, PAGE_SIZE> {
    pub closed spec fn wf(&self) -> bool {
        &&& PAGE_SIZE >= TAIL_SIZE
        &&& self.item_size > 0
        &&& self.item_num == (PAGE_SIZE - TAIL_SIZE) as int / self.item_size as int
        &&& self.bitmap_offset == PAGE_SIZE - TAIL_SIZE
        &&& bitmap_bits(self.slot_bitmap).len() == BITMAP_BIT_SIZE
    }

    /// The slot bits.
    pub closed spec fn slots(&self) -> Seq<bool> {
        bitmap_bits(self.slot_bitmap)
    }

    /// A well-formed page has one slot bit per bitmap bit.
    pub proof fn lemma_slots_len(&self)
        requires
            self.wf(),
        ensures
            self.slots().len() == BITMAP_BIT_SIZE,
    {
    }

    /// Number of record slots in the data region.
    pub closed spec fn capacity(&self) -> int {
        self.item_num as int
    }

    pub closed spec fn record_size(&self) -> int {
        self.item_size as int
    }

    /// The page bytes.
    pub closed spec fn bytes(&self) -> Seq<u8> {
        self.data@
    }

    /// Reads the slot bitmap out of the tail of `page_data`.
    pub fn new(item_size: usize, page_data: &'a [u8; PAGE_SIZE]) -> (r: Self)
        requires
            item_size > 0,
            PAGE_SIZE >= TAIL_SIZE,
        ensures
            r.wf(),
            r.record_size() == item_size,
            r.capacity() == (PAGE_SIZE - TAIL_SIZE) as int / item_size as int,
            r.bytes() == page_data@,
            r.slots().len() == BITMAP_BIT_SIZE,
            r.slots() == decoded_bitmap(page_data@, (PAGE_SIZE - TAIL_SIZE) as int),
    {
        let bitmap_offset = PAGE_SIZE - TAIL_SIZE;
        let mut slot_bitmap = bitmap_new();
        let mut i: usize = 0;
        while i < BITMAP_BIT_SIZE
            invariant
                i <= BITMAP_BIT_SIZE,
                bitmap_offset == PAGE_SIZE - TAIL_SIZE,
                PAGE_SIZE >= TAIL_SIZE,
                page_data@.len() == PAGE_SIZE,
                bitmap_bits(slot_bitmap) == Seq::new(256, |k: int|
                    if k < i { byte_bit(page_data@[bitmap_offset + k / 8], k % 8) } else { false }),
            decreases BITMAP_BIT_SIZE - i,
        {
            let byte = page_data[bitmap_offset + i / 8];
            let bit = ((byte >> ((i % 8) as u8)) & 1u8) == 1u8;
            bitmap_set(&mut slot_bitmap, i, bit);
            proof {
                assert(bitmap_bits(slot_bitmap) =~= Seq::new(256, |k: int|
                    if k < i + 1 { byte_bit(page_data@[bitmap_offset + k / 8], k % 8) } else { false }));
            }
            i = i + 1;
        }
        proof {
            assert(bitmap_bits(slot_bitmap) =~= decoded_bitmap(page_data@, (PAGE_SIZE - TAIL_SIZE) as int));
        }
        DataPage {
            bitmap_offset,
            meta_data: PAGE_SIZE - TAIL_SIZE + BITMAP_SIZE,
            slot_bitmap,
            item_size,
            item_num: (PAGE_SIZE - TAIL_SIZE) / item_size,
            data: page_data,
        }
    }

    /// The lowest free record slot, if any.
    pub fn find_free_slot(&self) -> (r: Option<usize>)
        requires
            self.wf(),
        ensures
            r matches Some(x) ==> first_free_from(self.slots(), self.capacity(), 0) == Some(x as int),
            r is None ==> first_free_from(self.slots(), self.capacity(), 0) is None,
            self.slots().len() == BITMAP_BIT_SIZE,
    {
        match bitmap_first_false(&self.slot_bitmap) {
            Some(x) => {
                if x < self.item_num {
                    proof {
                        lemma_first_free_is(self.slots(), self.capacity(), 0, x as int);
                    }
                    Some(x)
                } else {
                    proof {
                        lemma_no_free_from(self.slots(), self.capacity(), 0);
                    }
                    None
                }
            },
            None => {
                proof {
                    lemma_no_free_from(self.slots(), self.capacity(), 0);
                }
                None
            },
        }
    }

    /// Marks every slot free.
    pub fn clear_slot(&mut self)
        requires
            old(self).wf(),
        ensures
            final(self).wf(),
            final(self).slots() == Seq::new(256, |i: int| false),
            final(self).slots().len() == BITMAP_BIT_SIZE,
            final(self).capacity() == old(self).capacity(),
            final(self).record_size() == old(self).record_size(),
            final(self).bytes() == old(self).bytes(),
    {
        self.slot_bitmap = bitmap_new();
    }

    pub fn set_slot_free(&mut self, index: usize)
        requires
            old(self).wf(),
            index < old(self).capacity(),
            index < BITMAP_BIT_SIZE,
        ensures
            final(self).wf(),
            final(self).slots() == old(self).slots().update(index as int, false),
            final(self).slots().len() == BITMAP_BIT_SIZE,
            final(self).capacity() == old(self).capacity(),
            final(self).record_size() == old(self).record_size(),
            final(self).bytes() == old(self).bytes(),
    {
        bitmap_set(&mut self.slot_bitmap, index, false);
    }

    pub fn set_slot_busy(&mut self, index: usize)
        requires
            old(self).wf(),
            index < old(self).capacity(),
            index < BITMAP_BIT_SIZE,
        ensures
            final(self).wf(),
            final(self).slots() == old(self).slots().update(index as int, true),
            final(self).slots().len() == BITMAP_BIT_SIZE,
            final(self).capacity() == old(self).capacity(),
            final(self).record_size() == old(self).record_size(),
            final(self).bytes() == old(self).bytes(),
    {
        bitmap_set(&mut self.slot_bitmap, index, true);
    }

    /// A copy of the bytes of record slot `index`.
    pub fn read_item(&self, index: usize) -> (r: Vec<u8>)
        requires
            self.wf(),
            index < self.capacity(),
        ensures
            r@ == self.bytes().subrange(
                index * self.record_size(),
                (index + 1) * self.record_size(),
            ),
    {
        let size = self.item_size;
        let region = PAGE_SIZE - TAIL_SIZE;
        proof {
            let n = region as int / size as int;
            assert((index as int + 1) * size <= n * size) by (nonlinear_arith)
                requires index < n, size > 0;
            assert(n * size <= region) by (nonlinear_arith)
                requires n == region as int / size as int, size > 0;
            assert(index as int * size + size == (index as int + 1) * size) by (nonlinear_arith);
        }
        let item_start: usize = size * index;
        let mut out: Vec<u8> = Vec::new();
        let mut k: usize = 0;
        while k < size
            invariant
                k <= size,
                size == self.item_size,
                item_start == index * size,
                item_start + size <= region,
                region == PAGE_SIZE - TAIL_SIZE,
                self.data@.len() == PAGE_SIZE,
                out@ == self.data@.subrange(item_start as int, item_start + k),
            decreases size - k,
        {
            out.push(self.data[item_start + k]);
            k = k + 1;
            proof {
                assert(out@ =~= self.data@.subrange(item_start as int, item_start + k));
            }
        }
        proof {
            assert(item_start + size == (index as int + 1) * size) by (nonlinear_arith)
                requires item_start == index * size;
        }
        out
    }
}

} // verus!
