use vstd::prelude::*;

use crate::codec::{
    le16, le64, lemma_le16, lemma_le64, lemma_read_u16_after_write, lemma_read_u64_after_write, read_u16,
    read_u64, splice, u16_le, u64_le, write_bytes, write_u16, write_u64, zeros,
};
use crate::error::{BasaltError, Result};
use crate::page_laws::{lemma_delete, lemma_insert, lemma_vacuum};

verus! {

/// Size of a page on disk and in memory.
pub const PAGE_SIZE: usize = 4096;

/// Size of one slot: 2 bytes record offset, 2 bytes record length.
pub const SLOT_SIZE: usize = 4;

pub const OFFSET_PAGE_ID: usize = 0;

pub const OFFSET_LSN: usize = 8;

pub const OFFSET_FREESPACE_UPPER_BOUND: usize = 16;

pub const OFFSET_FREESPACE_LOWER_BOUND: usize = 18;

pub const OFFSET_NUMBER_OF_SLOTS: usize = 20;

pub const OFFSET_RESERVED: usize = 24;

pub const PAGE_HEADER_SIZE: usize = 24;

// ---------------------------------------------------------------------------
// The page layout, read off a byte image of a page.
// [header (24 bytes)] [slot array ->] ... free space ... [<- records]
// ---------------------------------------------------------------------------

pub open spec fn hdr_page_id(d: Seq<u8>) -> int {
    u64_le(d, OFFSET_PAGE_ID as int)
}

pub open spec fn hdr_lsn(d: Seq<u8>) -> int {
    u64_le(d, OFFSET_LSN as int)
}

/// Start of the record area (the free space ends here).
pub open spec fn hdr_upper(d: Seq<u8>) -> int {
    u16_le(d, OFFSET_FREESPACE_UPPER_BOUND as int)
}

/// End of the slot array (the free space starts here).
pub open spec fn hdr_lower(d: Seq<u8>) -> int {
    u16_le(d, OFFSET_FREESPACE_LOWER_BOUND as int)
}

pub open spec fn hdr_slots(d: Seq<u8>) -> int {
    u16_le(d, OFFSET_NUMBER_OF_SLOTS as int)
}

/// Byte position of slot `i`.
pub open spec fn slot_pos(i: int) -> int {
    PAGE_HEADER_SIZE + SLOT_SIZE * i
}

/// Slot `i` lies inside the page.
pub open spec fn slot_fits(i: int) -> bool {
    0 <= i && slot_pos(i) + SLOT_SIZE <= PAGE_SIZE
}

pub open spec fn slot_offset(d: Seq<u8>, i: int) -> int {
    u16_le(d, slot_pos(i))
}

pub open spec fn slot_len(d: Seq<u8>, i: int) -> int {
    u16_le(d, slot_pos(i) + 2)
}

/// A deleted slot: offset and length both zero.
pub open spec fn is_tombstone(d: Seq<u8>, i: int) -> bool {
    slot_offset(d, i) == 0 && slot_len(d, i) == 0
}

/// A slot that `insert` may hand out again: offset or length zero.
pub open spec fn is_reusable(d: Seq<u8>, i: int) -> bool {
    slot_offset(d, i) == 0 || slot_len(d, i) == 0
}

/// The record of slot `i` lies inside the page.
pub open spec fn record_in_page(d: Seq<u8>, i: int) -> bool {
    slot_offset(d, i) + slot_len(d, i) <= PAGE_SIZE
}

/// The bytes slot `i` points at.
pub open spec fn record_bytes(d: Seq<u8>, i: int) -> Seq<u8> {
    d.subrange(slot_offset(d, i), slot_offset(d, i) + slot_len(d, i))
}

/// Free bytes between the slot array and the record area.
pub open spec fn free_space(d: Seq<u8>) -> int {
    hdr_upper(d) - hdr_lower(d)
}

/// Sum of the record lengths of the first `k` slots.
pub open spec fn len_sum(d: Seq<u8>, k: int) -> int
    decreases k,
{
    if k <= 0 {
        0
    } else {
        len_sum(d, k - 1) + slot_len(d, k - 1)
    }
}

/// A consistent page: the slot array ends at the lower bound, every live
/// record lies in the record area, and the records fit in that area.
pub open spec fn page_wf(d: Seq<u8>) -> bool {
    &&& d.len() == PAGE_SIZE
    &&& hdr_lower(d) == slot_pos(hdr_slots(d))
    &&& hdr_lower(d) <= hdr_upper(d) <= PAGE_SIZE
    &&& forall|i: int|
        0 <= i < hdr_slots(d) && !is_tombstone(d, i) ==> hdr_upper(d) <= #[trigger] slot_offset(d, i)
            && slot_offset(d, i) + slot_len(d, i) <= PAGE_SIZE
    &&& len_sum(d, hdr_slots(d)) <= PAGE_SIZE - hdr_upper(d)
}

/// The image of a freshly initialised page.
pub open spec fn fresh_page(page_id: u64) -> Seq<u8> {
    let z = zeros(PAGE_SIZE as nat);
    let d1 = splice(z, OFFSET_PAGE_ID as int, le64(page_id as int));
    let d2 = splice(d1, OFFSET_LSN as int, le64(0));
    let d3 = splice(d2, OFFSET_NUMBER_OF_SLOTS as int, le16(0));
    let d4 = splice(d3, OFFSET_FREESPACE_UPPER_BOUND as int, le16(PAGE_SIZE as int));
    splice(d4, OFFSET_FREESPACE_LOWER_BOUND as int, le16(PAGE_HEADER_SIZE as int))
}

/// The error a lookup of slot `i` reports, if any: out of bounds first,
/// then a deleted slot.
pub open spec fn slot_lookup_error(d: Seq<u8>, i: int) -> Option<BasaltError> {
    if i >= hdr_slots(d) {
        Some(BasaltError::SlotOutOfBounds(i as u32))
    } else if is_tombstone(d, i) {
        Some(BasaltError::TombstoneSlot(i as u32))
    } else {
        None
    }
}

/// The error a record lookup of slot `i` reports, if any.
pub open spec fn record_lookup_error(d: Seq<u8>, i: int) -> Option<BasaltError> {
    if slot_lookup_error(d, i) is Some {
        slot_lookup_error(d, i)
    } else if !record_in_page(d, i) {
        Some(BasaltError::CorruptedPage)
    } else {
        None
    }
}

/// A slot index that can be looked up without reading past the page.
pub open spec fn slot_readable(d: Seq<u8>, i: int) -> bool {
    i < hdr_slots(d) ==> slot_fits(i)
}

/// The first reusable slot among slots `i..n`, or `n` if there is none.
pub open spec fn find_reusable(d: Seq<u8>, i: int, n: int) -> int
    decreases n - i,
{
    if i >= n {
        n
    } else if is_reusable(d, i) {
        i
    } else {
        find_reusable(d, i + 1, n)
    }
}

pub proof fn lemma_find_reusable(d: Seq<u8>, i: int, n: int)
    requires
        i <= n,
    ensures
        i <= find_reusable(d, i, n) <= n,
        find_reusable(d, i, n) < n ==> is_reusable(d, find_reusable(d, i, n)),
        forall|j: int| i <= j < find_reusable(d, i, n) ==> !#[trigger] is_reusable(d, j),
    decreases n - i,
{
    if i < n && !is_reusable(d, i) {
        lemma_find_reusable(d, i + 1, n);
    }
}

/// The slot `insert` fills: the first reusable slot, or a new one at the end.
pub open spec fn insert_target(d: Seq<u8>) -> int {
    find_reusable(d, 0, hdr_slots(d))
}

/// The slots `insert` reads while looking for a reusable one lie inside the page.
pub open spec fn insert_scan_safe(d: Seq<u8>) -> bool {
    let n = hdr_slots(d);
    let t = insert_target(d);
    &&& t < n ==> slot_fits(t)
    &&& t >= n && n > 0 ==> slot_fits(n - 1)
}

/// Bytes `insert` needs for a record of `rlen` bytes: the record, plus a
/// new slot when no slot can be reused.
pub open spec fn insert_needed(d: Seq<u8>, rlen: int) -> int {
    rlen + if insert_target(d) < hdr_slots(d) {
        0
    } else {
        SLOT_SIZE as int
    }
}

/// `insert` stores a record of `rlen` bytes: it is smaller than a page and
/// fits, with its slot, in the free space.
pub open spec fn insert_accepts(d: Seq<u8>, rlen: int) -> bool {
    rlen < PAGE_SIZE && insert_needed(d, rlen) <= free_space(d)
}

/// What `insert` needs of the page so that it never reads or writes past it,
/// for a record of `len` bytes.
pub open spec fn insert_safe(d: Seq<u8>, len: int) -> bool {
    len < PAGE_SIZE ==> {
        &&& insert_scan_safe(d)
        &&& hdr_lower(d) <= hdr_upper(d)
        &&& insert_accepts(d, len) ==> {
            &&& hdr_upper(d) <= PAGE_SIZE
            &&& slot_fits(insert_target(d))
        }
    }
}

/// The page image after `insert` has placed `rec` in slot `s`: the record
/// goes right below the record area, the slot points at it, and the header
/// bounds (and, for a new slot, the slot count) move.
pub open spec fn inserted_image(d: Seq<u8>, rec: Seq<u8>, s: int) -> Seq<u8> {
    let n = hdr_slots(d);
    let new_upper = hdr_upper(d) - rec.len();
    let appended = s >= n;
    let d1 = splice(d, new_upper, rec);
    let d2 = splice(d1, slot_pos(s), le16(new_upper));
    let d3 = splice(d2, slot_pos(s) + 2, le16(rec.len() as int));
    let d4 = splice(d3, OFFSET_FREESPACE_UPPER_BOUND as int, le16(new_upper));
    let d5 = splice(
        d4,
        OFFSET_FREESPACE_LOWER_BOUND as int,
        le16(hdr_lower(d) + if appended {
            SLOT_SIZE as int
        } else {
            0
        }),
    );
    if appended {
        splice(d5, OFFSET_NUMBER_OF_SLOTS as int, le16(n + 1))
    } else {
        d5
    }
}

pub proof fn lemma_len_sum_monotone(d: Seq<u8>, i: int, j: int)
    requires
        i <= j,
    ensures
        len_sum(d, i) <= len_sum(d, j),
    decreases j - i,
{
    if i < j {
        lemma_len_sum_monotone(d, i, j - 1);
    }
}

/// The first slot among `i..n` whose live record reaches past the page, or `n`.
pub open spec fn find_corrupt(d: Seq<u8>, i: int, n: int) -> int
    decreases n - i,
{
    if i >= n {
        n
    } else if !is_tombstone(d, i) && !record_in_page(d, i) {
        i
    } else {
        find_corrupt(d, i + 1, n)
    }
}

pub proof fn lemma_find_corrupt(d: Seq<u8>, i: int, n: int)
    requires
        i <= n,
    ensures
        i <= find_corrupt(d, i, n) <= n,
        find_corrupt(d, i, n) < n ==> !is_tombstone(d, find_corrupt(d, i, n)) && !record_in_page(
            d,
            find_corrupt(d, i, n),
        ),
        forall|j: int|
            i <= j < find_corrupt(d, i, n) ==> is_tombstone(d, j) || #[trigger] record_in_page(d, j),
    decreases n - i,
{
    if i < n && (is_tombstone(d, i) || record_in_page(d, i)) {
        lemma_find_corrupt(d, i + 1, n);
    }
}

/// The slot at which `vacuum` stops with `CorruptedPage`, or the slot count.
pub open spec fn vacuum_stop(d: Seq<u8>) -> int {
    find_corrupt(d, 0, hdr_slots(d))
}

/// What `vacuum` needs of the page so that it never reads or writes past it.
pub open spec fn vacuum_safe(d: Seq<u8>) -> bool {
    let n = hdr_slots(d);
    let k = vacuum_stop(d);
    &&& hdr_lower(d) <= PAGE_SIZE
    &&& k < n ==> slot_fits(k)
    &&& k >= n && n > 0 ==> slot_fits(n - 1)
    &&& len_sum(d, k) <= PAGE_SIZE
}

/// The compacted image `vacuum` has built after the first `k` slots, and
/// where its record area starts: the header and slot array are copied, and
/// each live record is packed right below the previous one.
pub open spec fn vacuum_state(d: Seq<u8>, k: int) -> (Seq<u8>, int)
    decreases k,
{
    if k <= 0 {
        (splice(zeros(PAGE_SIZE as nat), 0, d.subrange(0, hdr_lower(d))), PAGE_SIZE as int)
    } else {
        let (buf, ub) = vacuum_state(d, k - 1);
        let i = k - 1;
        if is_tombstone(d, i) {
            (buf, ub)
        } else {
            let len = slot_len(d, i);
            let nub = ub - len;
            let b1 = splice(buf, nub, record_bytes(d, i));
            let b2 = splice(b1, slot_pos(i), le16(nub));
            let b3 = splice(b2, slot_pos(i) + 2, le16(len));
            (b3, nub)
        }
    }
}

/// The page image after `vacuum`.
pub open spec fn vacuumed(d: Seq<u8>) -> Seq<u8> {
    let (buf, ub) = vacuum_state(d, hdr_slots(d));
    splice(buf, OFFSET_FREESPACE_UPPER_BOUND as int, le16(ub))
}

pub proof fn lemma_vacuum_state_upper(d: Seq<u8>, k: int)
    requires
        k >= 0,
    ensures
        vacuum_state(d, k).1 == PAGE_SIZE - len_sum(d, k),
        vacuum_state(d, k).0.len() == PAGE_SIZE,
    decreases k,
{
    if k > 0 {
        lemma_vacuum_state_upper(d, k - 1);
    }
}

/// A slotted page of `PAGE_SIZE` bytes.
pub struct Page {
    data: [u8; PAGE_SIZE],
}

impl View for Page {
    type V = Seq<u8>;

    closed spec fn view(&self) -> Seq<u8> {
        self.data@
    }
}

impl Page {
    pub fn new(page_id: u64) -> (page: Self)
        ensures
            page@ == fresh_page(page_id),
            page_wf(page@),
            hdr_page_id(page@) == page_id,
            hdr_lsn(page@) == 0,
            hdr_slots(page@) == 0,
            hdr_upper(page@) == PAGE_SIZE,
            hdr_lower(page@) == PAGE_HEADER_SIZE,
    {
        let mut page = Self { data: [0u8; PAGE_SIZE] };
        assert(page.data@ =~= zeros(PAGE_SIZE as nat));
        page.set_page_id(page_id);
        page.set_lsn(0);
        page.set_no_of_slots(0);
        page.set_freespace_upper_bound_offset(PAGE_SIZE as u16);
        page.set_freespace_lower_bound_offset(PAGE_HEADER_SIZE as u16);
        proof {
            let d = page.data@;
            lemma_le64(page_id as int);
            lemma_le64(0);
            lemma_le16(0);
            lemma_le16(PAGE_SIZE as int);
            lemma_le16(PAGE_HEADER_SIZE as int);
            assert(d.subrange(0, 8) =~= le64(page_id as int));
            assert(d.subrange(8, 16) =~= le64(0));
            assert(u64_le(d, 0) == u64_le(d.subrange(0, 8), 0));
            assert(u64_le(d, 8) == u64_le(d.subrange(8, 16), 0));
            assert(len_sum(d, 0) == 0);
        }
        page
    }

    /// A page image is always `PAGE_SIZE` bytes long.
    pub proof fn lemma_view_len(&self)
        ensures
            self@.len() == PAGE_SIZE,
    {
    }

    /// Wraps a page image read from disk.
    pub fn from_bytes(data: [u8; PAGE_SIZE]) -> (page: Self)
        ensures
            page@ == data@,
    {
        Self { data }
    }

    /// The page image, as written to disk.
    pub fn as_bytes(&self) -> (r: &[u8; PAGE_SIZE])
        ensures
            r@ == self@,
    {
        &self.data
    }

    pub fn get_page_id(&self) -> (r: u64)
        ensures
            r == hdr_page_id(self@),
    {
        read_u64(&self.data, OFFSET_PAGE_ID)
    }

    pub fn set_page_id(&mut self, page_id: u64)
        ensures
            final(self)@ == splice(old(self)@, OFFSET_PAGE_ID as int, le64(page_id as int)),
            hdr_page_id(final(self)@) == page_id,
    {
        write_u64(&mut self.data, OFFSET_PAGE_ID, page_id);
        proof { lemma_read_u64_after_write(old(self)@, OFFSET_PAGE_ID as int, page_id as int) }
    }

    pub fn get_lsn(&self) -> (r: u64)
        ensures
            r == hdr_lsn(self@),
    {
        read_u64(&self.data, OFFSET_LSN)
    }

    pub fn set_lsn(&mut self, lsn: u64)
        ensures
            final(self)@ == splice(old(self)@, OFFSET_LSN as int, le64(lsn as int)),
            hdr_lsn(final(self)@) == lsn,
    {
        write_u64(&mut self.data, OFFSET_LSN, lsn);
        proof { lemma_read_u64_after_write(old(self)@, OFFSET_LSN as int, lsn as int) }
    }

    pub fn get_no_of_slots(&self) -> (r: u16)
        ensures
            r == hdr_slots(self@),
    {
        read_u16(&self.data, OFFSET_NUMBER_OF_SLOTS)
    }

    pub fn set_no_of_slots(&mut self, no_of_slots: u16)
        ensures
            final(self)@ == splice(old(self)@, OFFSET_NUMBER_OF_SLOTS as int, le16(no_of_slots as int)),
            hdr_slots(final(self)@) == no_of_slots,
    {
        write_u16(&mut self.data, OFFSET_NUMBER_OF_SLOTS, no_of_slots);
        proof { lemma_read_u16_after_write(old(self)@, OFFSET_NUMBER_OF_SLOTS as int, no_of_slots as int) }
    }

    pub fn get_freespace_lower_bound_offset(&self) -> (r: u16)
        ensures
            r == hdr_lower(self@),
    {
        read_u16(&self.data, OFFSET_FREESPACE_LOWER_BOUND)
    }

    pub fn set_freespace_lower_bound_offset(&mut self, new_offset: u16)
        ensures
            final(self)@ == splice(old(self)@, OFFSET_FREESPACE_LOWER_BOUND as int, le16(new_offset as int)),
            hdr_lower(final(self)@) == new_offset,
    {
        write_u16(&mut self.data, OFFSET_FREESPACE_LOWER_BOUND, new_offset);
        proof { lemma_read_u16_after_write(old(self)@, OFFSET_FREESPACE_LOWER_BOUND as int, new_offset as int) }
    }

    pub fn get_freespace_upper_bound_offset(&self) -> (r: u16)
        ensures
            r == hdr_upper(self@),
    {
        read_u16(&self.data, OFFSET_FREESPACE_UPPER_BOUND)
    }

    pub fn set_freespace_upper_bound_offset(&mut self, new_offset: u16)
        ensures
            final(self)@ == splice(old(self)@, OFFSET_FREESPACE_UPPER_BOUND as int, le16(new_offset as int)),
            hdr_upper(final(self)@) == new_offset,
    {
        write_u16(&mut self.data, OFFSET_FREESPACE_UPPER_BOUND, new_offset);
        proof { lemma_read_u16_after_write(old(self)@, OFFSET_FREESPACE_UPPER_BOUND as int, new_offset as int) }
    }

    /// Bytes between the slot array and the record area.
    pub fn get_freespace(&self) -> (r: u16)
        requires
            hdr_lower(self@) <= hdr_upper(self@),
        ensures
            r == free_space(self@),
    {
        self.get_freespace_upper_bound_offset() - self.get_freespace_lower_bound_offset()
    }

    /// Whether slot `slot_idx` is a tombstone (offset and length zero).
    pub fn is_tombstone_slot(&self, slot_idx: u16) -> (r: Result<bool>)
        requires
            slot_readable(self@, slot_idx as int),
        ensures
            slot_idx >= hdr_slots(self@) ==> r == Err::<bool, BasaltError>(
                BasaltError::SlotOutOfBounds(slot_idx as u32),
            ),
            slot_idx < hdr_slots(self@) ==> r == Ok::<bool, BasaltError>(
                is_tombstone(self@, slot_idx as int),
            ),
    {
        match self.get_record_offset_len_tuple(slot_idx) {
            Ok((record_offset, record_len)) => Ok(record_offset == 0 && record_len == 0),
            Err(e) => Err(e),
        }
    }

    /// The four bytes of slot `slot_idx`, which must be live.
    pub fn get_slot(&self, slot_idx: u16) -> (r: Result<&[u8]>)
        requires
            slot_readable(self@, slot_idx as int),
        ensures
            match slot_lookup_error(self@, slot_idx as int) {
                Some(e) => r == Err::<&[u8], BasaltError>(e),
                None => r is Ok && r->Ok_0@ == self@.subrange(
                    slot_pos(slot_idx as int),
                    slot_pos(slot_idx as int) + SLOT_SIZE,
                ),
            },
    {
        if slot_idx >= self.get_no_of_slots() {
            return Err(BasaltError::SlotOutOfBounds(slot_idx as u32));
        }
        match self.is_tombstone_slot(slot_idx) {
            Ok(true) => {
                return Err(BasaltError::TombstoneSlot(slot_idx as u32));
            },
            Ok(false) => {},
            Err(e) => {
                return Err(e);
            },
        }
        let slot_offset = PAGE_HEADER_SIZE + (slot_idx as usize * SLOT_SIZE);
        Ok(&self.data[slot_offset..slot_offset + SLOT_SIZE])
    }

    /// Mutable access to the four bytes of slot `slot_idx`, which must be live.
    pub fn get_slot_mut(&mut self, slot_idx: u16) -> (r: Result<&mut [u8]>)
        requires
            slot_readable(old(self)@, slot_idx as int),
        ensures
            match slot_lookup_error(old(self)@, slot_idx as int) {
                Some(e) => r == Err::<&mut [u8], BasaltError>(e) && final(self)@ == old(self)@,
                None => r is Ok && (*r->Ok_0)@ == old(self)@.subrange(
                    slot_pos(slot_idx as int),
                    slot_pos(slot_idx as int) + SLOT_SIZE,
                ) && final(self)@ == old(self)@.subrange(0, slot_pos(slot_idx as int))
                    + final(r->Ok_0)@ + old(self)@.subrange(
                    slot_pos(slot_idx as int) + SLOT_SIZE,
                    PAGE_SIZE as int,
                ),
            },
    {
        if slot_idx >= self.get_no_of_slots() {
            return Err(BasaltError::SlotOutOfBounds(slot_idx as u32));
        }
        match self.is_tombstone_slot(slot_idx) {
            Ok(true) => {
                return Err(BasaltError::TombstoneSlot(slot_idx as u32));
            },
            Ok(false) => {},
            Err(e) => {
                return Err(e);
            },
        }
        let slot_offset = PAGE_HEADER_SIZE + (slot_idx as usize * SLOT_SIZE);
        Ok(Self::window_mut(&mut self.data, slot_offset, slot_offset + SLOT_SIZE))
    }

    /// Mutable access to bytes `a..b` of a page image.
    fn window_mut(data: &mut [u8; PAGE_SIZE], a: usize, b: usize) -> (r: &mut [u8])
        requires
            a <= b <= PAGE_SIZE,
        ensures
            r@ == old(data)@.subrange(a as int, b as int),
            final(data)@ == old(data)@.subrange(0, a as int) + final(r)@ + old(data)@.subrange(
                b as int,
                PAGE_SIZE as int,
            ),
    {
        let s: &mut [u8] = data;
        let (_, rest) = s.split_at_mut(a);
        let (mid, _) = rest.split_at_mut(b - a);
        mid
    }

    /// The four bytes of slot `slot_idx`, live or not.
    fn get_slot_raw(&self, slot_idx: u16) -> (r: Result<&[u8]>)
        requires
            slot_readable(self@, slot_idx as int),
        ensures
            slot_idx >= hdr_slots(self@) ==> r == Err::<&[u8], BasaltError>(
                BasaltError::SlotOutOfBounds(slot_idx as u32),
            ),
            slot_idx < hdr_slots(self@) ==> r is Ok && r->Ok_0@ == self@.subrange(
                slot_pos(slot_idx as int),
                slot_pos(slot_idx as int) + SLOT_SIZE,
            ),
    {
        if slot_idx >= self.get_no_of_slots() {
            return Err(BasaltError::SlotOutOfBounds(slot_idx as u32));
        }
        let slot_offset = PAGE_HEADER_SIZE + (slot_idx as usize * SLOT_SIZE);
        Ok(&self.data[slot_offset..slot_offset + SLOT_SIZE])
    }

    /// Offset and length of the record slot `slot_idx` points at, live or not.
    pub fn get_record_offset_len_tuple(&self, slot_idx: u16) -> (r: Result<(usize, usize)>)
        requires
            slot_readable(self@, slot_idx as int),
        ensures
            slot_idx >= hdr_slots(self@) ==> r == Err::<(usize, usize), BasaltError>(
                BasaltError::SlotOutOfBounds(slot_idx as u32),
            ),
            slot_idx < hdr_slots(self@) ==> r is Ok && r->Ok_0.0 == slot_offset(
                self@,
                slot_idx as int,
            ) && r->Ok_0.1 == slot_len(self@, slot_idx as int),
    {
        let slot = match self.get_slot_raw(slot_idx) {
            Ok(s) => s,
            Err(e) => {
                return Err(e);
            },
        };
        let record_offset = slot[0] as usize + slot[1] as usize * 256;
        let record_len = slot[2] as usize + slot[3] as usize * 256;
        Ok((record_offset, record_len))
    }

    /// The record of slot `slot_idx`.
    pub fn get_record(&self, slot_idx: u16) -> (r: Result<&[u8]>)
        requires
            slot_readable(self@, slot_idx as int),
        ensures
            match record_lookup_error(self@, slot_idx as int) {
                Some(e) => r == Err::<&[u8], BasaltError>(e),
                None => r is Ok && r->Ok_0@ == record_bytes(self@, slot_idx as int),
            },
    {
        if self.is_tombstone_slot(slot_idx)? {
            return Err(BasaltError::TombstoneSlot(slot_idx as u32));
        }
        let (record_offset, record_len) = self.get_record_offset_len_tuple(slot_idx)?;
        // protection against data corruption on disk
        if record_offset + record_len > PAGE_SIZE {
            return Err(BasaltError::CorruptedPage);
        }
        Ok(&self.data[record_offset..record_offset + record_len])
    }

    /// Mutable access to the record of slot `slot_idx`.
    pub fn get_record_mut(&mut self, slot_idx: u16) -> (r: Result<&mut [u8]>)
        requires
            slot_readable(old(self)@, slot_idx as int),
        ensures
            match record_lookup_error(old(self)@, slot_idx as int) {
                Some(e) => r == Err::<&mut [u8], BasaltError>(e) && final(self)@ == old(self)@,
                None => r is Ok && (*r->Ok_0)@ == record_bytes(old(self)@, slot_idx as int)
                    && final(self)@ == old(self)@.subrange(0, slot_offset(old(self)@, slot_idx as int))
                    + final(r->Ok_0)@ + old(self)@.subrange(
                    slot_offset(old(self)@, slot_idx as int) + slot_len(old(self)@, slot_idx as int),
                    PAGE_SIZE as int,
                ),
            },
    {
        if self.is_tombstone_slot(slot_idx)? {
            return Err(BasaltError::TombstoneSlot(slot_idx as u32));
        }
        let (record_offset, record_len) = self.get_record_offset_len_tuple(slot_idx)?;
        // protection against data corruption on disk
        if record_offset + record_len > PAGE_SIZE {
            return Err(BasaltError::CorruptedPage);
        }
        Ok(Self::window_mut(&mut self.data, record_offset, record_offset + record_len))
    }

    /// Deletes the record of slot `slot_idx` by turning the slot into a tombstone.
    pub fn delete(&mut self, slot_idx: u16) -> (r: Result<()>)
        requires
            slot_readable(old(self)@, slot_idx as int),
        ensures
            match slot_lookup_error(old(self)@, slot_idx as int) {
                Some(e) => r == Err::<(), BasaltError>(e) && final(self)@ == old(self)@,
                None => r is Ok && final(self)@ == splice(
                    old(self)@,
                    slot_pos(slot_idx as int),
                    zeros(SLOT_SIZE as nat),
                ),
            },
            page_wf(old(self)@) ==> page_wf(final(self)@),
    {
        let tombstone_slot = self.get_slot_mut(slot_idx)?;
        tombstone_slot[0] = 0;
        tombstone_slot[1] = 0;
        tombstone_slot[2] = 0;
        tombstone_slot[3] = 0;
        proof {
            assert(tombstone_slot@ =~= zeros(SLOT_SIZE as nat));
        }
        proof {
            if page_wf(old(self)@) {
                lemma_delete(old(self)@, slot_idx as int);
            }
        }
        Ok(())
    }
    /// Stores `record` and returns its slot, reusing the first reusable slot
    /// or appending a new one; `None` when the record does not fit.
    pub fn insert(&mut self, record: &[u8]) -> (r: Option<u16>)
        requires
            insert_safe(old(self)@, record@.len() as int),
        ensures
            ({
                let d = old(self)@;
                let rlen = record@.len() as int;
                match r {
                    None => !insert_accepts(d, rlen) && final(self)@ == d,
                    Some(s) => {
                        &&& insert_accepts(d, rlen)
                        &&& s == insert_target(d)
                        &&& final(self)@ == inserted_image(d, record@, s as int)
                    },
                }
            }),
            page_wf(old(self)@) ==> page_wf(final(self)@),
            page_wf(old(self)@) && r is Some ==> record_lookup_error(final(self)@, r->0 as int) is None
                && record_bytes(final(self)@, r->0 as int) == record@,
    {
        let ghost d = self@;
        // Sanity check: is the record itself bigger than the page?
        if record.len() >= PAGE_SIZE {
            return None;
        }
        let record_len = record.len() as u16;
        let lower_bound_offset = self.get_freespace_lower_bound_offset() as usize;
        let upper_bound_offset = self.get_freespace_upper_bound_offset() as usize;
        let slots_no = self.get_no_of_slots();
        // hunt for the first reusable slot
        let mut tombstone_slot_idx: Option<u16> = None;
        let mut i: u16 = 0;
        while i < slots_no
            invariant_except_break
                tombstone_slot_idx is None,
            invariant
                self@ == d,
                slots_no == hdr_slots(d),
                0 <= i <= slots_no,
                insert_scan_safe(d),
                find_reusable(d, i as int, slots_no as int) == insert_target(d),
            ensures
                tombstone_slot_idx is Some ==> tombstone_slot_idx->0 == insert_target(d)
                    && insert_target(d) < slots_no,
                tombstone_slot_idx is None ==> insert_target(d) == slots_no,
            decreases slots_no - i,
        {
            proof {
                lemma_find_reusable(d, i as int, slots_no as int);
            }
            let (record_offset, record_len) = match self.get_record_offset_len_tuple(i) {
                Ok(t) => t,
                Err(_) => {
                    proof {
                        assert(false);
                    }
                    (0, 0)
                },
            };
            if record_offset > 0 && record_len > 0 {
                i = i + 1;
                continue;
            }
            tombstone_slot_idx = Some(i);
            break;
        }
        let extra_space_needed_for_slot: u16 = if tombstone_slot_idx.is_some() {
            0
        } else {
            SLOT_SIZE as u16
        };
        let total_record_len = record_len + extra_space_needed_for_slot;
        let free_space = self.get_freespace();
        if free_space < total_record_len {
            return None;
        }
        // place the record right below the record area
        let new_upper_offset = upper_bound_offset - record_len as usize;
        write_bytes(&mut self.data, new_upper_offset, record);
        // reuse the slot found, or append a new one after the slot array
        let final_slot_idx = match tombstone_slot_idx {
            Some(t) => t,
            None => slots_no,
        };
        let slot_offset = PAGE_HEADER_SIZE + (final_slot_idx as usize * SLOT_SIZE);
        write_u16(&mut self.data, slot_offset, new_upper_offset as u16);
        write_u16(&mut self.data, slot_offset + 2, record_len);
        let new_lower_offset = if tombstone_slot_idx.is_some() {
            lower_bound_offset
        } else {
            lower_bound_offset + SLOT_SIZE
        };
        // update headers
        self.set_freespace_upper_bound_offset(new_upper_offset as u16);
        self.set_freespace_lower_bound_offset(new_lower_offset as u16);
        // only increase if new slot was assigned
        if tombstone_slot_idx.is_none() {
            self.set_no_of_slots(slots_no + 1);
        }
        proof {
            if page_wf(d) {
                lemma_insert(d, record@);
            }
        }
        Some(final_slot_idx)
    }
    /// Compacts the record area: every live record is moved so that the
    /// records lie packed at the end of the page, and the free space grows
    /// by the bytes deleted records held.
    pub fn vacuum(&mut self) -> (r: Result<()>)
        requires
            vacuum_safe(old(self)@),
        ensures
            vacuum_stop(old(self)@) < hdr_slots(old(self)@) ==> r == Err::<(), BasaltError>(
                BasaltError::CorruptedPage,
            ) && final(self)@ == old(self)@,
            vacuum_stop(old(self)@) >= hdr_slots(old(self)@) ==> r is Ok && final(self)@ == vacuumed(
                old(self)@,
            ),
            page_wf(old(self)@) ==> r is Ok && page_wf(final(self)@),
    {
        let ghost d = self@;
        let mut temp_buf = [0u8; PAGE_SIZE];
        assert(temp_buf@ =~= zeros(PAGE_SIZE as nat));
        // copy the header and the slot array
        let lower_bound = self.get_freespace_lower_bound_offset() as usize;
        write_bytes(&mut temp_buf, 0, &self.data[0..lower_bound]);
        let mut new_upper_bound: usize = PAGE_SIZE;
        let total_slots = self.get_no_of_slots();
        let mut i: u16 = 0;
        proof {
            lemma_find_corrupt(d, 0, total_slots as int);
        }
        while i < total_slots
            invariant
                self@ == d,
                total_slots == hdr_slots(d),
                0 <= i <= total_slots,
                vacuum_safe(d),
                i <= vacuum_stop(d),
                forall|j: int|
                    0 <= j < vacuum_stop(d) ==> is_tombstone(d, j) || #[trigger] record_in_page(d, j),
                vacuum_stop(d) < total_slots ==> !is_tombstone(d, vacuum_stop(d)) && !record_in_page(
                    d,
                    vacuum_stop(d),
                ),
                temp_buf@ == vacuum_state(d, i as int).0,
                new_upper_bound == vacuum_state(d, i as int).1,
                new_upper_bound == PAGE_SIZE - len_sum(d, i as int),
            decreases total_slots - i,
        {
            proof {
                lemma_vacuum_state_upper(d, i as int + 1);
                lemma_len_sum_monotone(d, 0, i as int);
                if (i as int) < vacuum_stop(d) {
                    lemma_len_sum_monotone(d, i as int + 1, vacuum_stop(d));
                }
                if vacuum_stop(d) < total_slots {
                    assert(slot_fits(vacuum_stop(d)));
                } else {
                    assert(slot_fits(total_slots - 1));
                }
                assert(slot_fits(i as int));
            }
            let tomb = match self.is_tombstone_slot(i) {
                Ok(b) => b,
                Err(e) => {
                    return Err(e);
                },
            };
            if tomb {
                i = i + 1;
                continue;
            }
            let record_len = match self.get_record_offset_len_tuple(i) {
                Ok((_, l)) => l,
                Err(e) => {
                    return Err(e);
                },
            };
            let live_record = match self.get_record(i) {
                Ok(rec) => rec,
                Err(e) => {
                    return Err(e);
                },
            };
            assert((i as int) < vacuum_stop(d));
            assert(live_record@ == record_bytes(d, i as int));
            assert(live_record@.len() == record_len);
            assert(len_sum(d, i as int + 1) == len_sum(d, i as int) + record_len);
            assert(len_sum(d, i as int + 1) <= PAGE_SIZE);
            let upper_bound = new_upper_bound - record_len;
            new_upper_bound = upper_bound;
            write_bytes(&mut temp_buf, upper_bound, live_record);
            let slot_offset = PAGE_HEADER_SIZE + (i as usize * SLOT_SIZE);
            write_u16(&mut temp_buf, slot_offset, upper_bound as u16);
            write_u16(&mut temp_buf, slot_offset + 2, record_len as u16);
            proof {
                let ii = i as int;
                assert(!is_tombstone(d, ii));
                assert(vacuum_state(d, ii + 1).1 == upper_bound);
                assert(temp_buf@ == vacuum_state(d, ii + 1).0);
            }
            i = i + 1;
        }
        proof {
            assert(i == total_slots);
            lemma_len_sum_monotone(d, 0, i as int);
            lemma_vacuum_state_upper(d, i as int);
        }
        self.data = temp_buf;
        self.set_freespace_upper_bound_offset(new_upper_bound as u16);
        assert(self@ == vacuumed(d));
        proof {
            if page_wf(d) {
                lemma_vacuum(d);
            }
        }
        Ok(())
    }

    /// Whether the page is consistent (`page_wf`): the slot array ends at
    /// the lower bound, every live record lies in the record area, and the
    /// records fit in that area. Every operation can be used on such a page.
    pub fn is_consistent(&self) -> (r: bool)
        ensures
            r == page_wf(self@),
    {
        let ghost d = self@;
        let n = self.get_no_of_slots() as usize;
        let lower = self.get_freespace_lower_bound_offset() as usize;
        let upper = self.get_freespace_upper_bound_offset() as usize;
        if lower != PAGE_HEADER_SIZE + SLOT_SIZE * n || lower > upper || upper > PAGE_SIZE {
            return false;
        }
        let mut sum: usize = 0;
        let mut i: usize = 0;
        while i < n
            invariant
                self@ == d,
                d.len() == PAGE_SIZE,
                n == hdr_slots(d),
                upper == hdr_upper(d),
                lower == hdr_lower(d),
                lower == slot_pos(n as int),
                lower <= upper <= PAGE_SIZE,
                i <= n,
                sum == len_sum(d, i as int),
                sum <= 0x1_0000 * i,
                forall|j: int|
                    0 <= j < i && !is_tombstone(d, j) ==> upper <= #[trigger] slot_offset(d, j)
                        && slot_offset(d, j) + slot_len(d, j) <= PAGE_SIZE,
            decreases n - i,
        {
            let slot_at = PAGE_HEADER_SIZE + i * SLOT_SIZE;
            let off = read_u16(&self.data, slot_at) as usize;
            let len = read_u16(&self.data, slot_at + 2) as usize;
            if !(off == 0 && len == 0) && (off < upper || off + len > PAGE_SIZE) {
                assert(slot_offset(d, i as int) == off && slot_len(d, i as int) == len);
                return false;
            }
            sum = sum + len;
            i = i + 1;
        }
        sum <= PAGE_SIZE - upper
    }
}

} // verus!
