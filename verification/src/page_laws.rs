//! What the page operations keep and what they guarantee, proved over the
//! byte images their contracts describe.
use vstd::prelude::*;

use crate::codec::{le16, lemma_le16, splice, u16_le, zeros};
use crate::page::{
    OFFSET_FREESPACE_LOWER_BOUND, OFFSET_FREESPACE_UPPER_BOUND, OFFSET_NUMBER_OF_SLOTS,
    PAGE_HEADER_SIZE, PAGE_SIZE, SLOT_SIZE, free_space, hdr_lower, hdr_lsn, hdr_page_id, hdr_slots,
    hdr_upper, insert_accepts, insert_needed, insert_safe, insert_scan_safe, insert_target,
    inserted_image, is_reusable, is_tombstone, len_sum, lemma_find_reusable, page_wf,
    record_bytes, record_in_page, record_lookup_error, slot_len, slot_lookup_error,
    slot_offset, slot_pos, slot_readable, vacuum_safe, vacuum_state, vacuum_stop, vacuumed,
    lemma_find_corrupt, lemma_len_sum_monotone, lemma_vacuum_state_upper,
};
use crate::error::BasaltError;

verus! {

/// Two images agree on bytes `a..b`.
pub open spec fn agree(x: Seq<u8>, y: Seq<u8>, a: int, b: int) -> bool {
    forall|j: int| a <= j < b ==> #[trigger] x[j] == y[j]
}

proof fn lemma_agree_u16(x: Seq<u8>, y: Seq<u8>, p: int)
    requires
        agree(x, y, p, p + 2),
    ensures
        u16_le(x, p) == u16_le(y, p),
{
    assert(x[p] == y[p]);
    assert(x[p + 1] == y[p + 1]);
}

proof fn lemma_agree_subrange(x: Seq<u8>, y: Seq<u8>, a: int, b: int)
    requires
        agree(x, y, a, b),
        0 <= a <= b <= x.len(),
        b <= y.len(),
    ensures
        x.subrange(a, b) == y.subrange(a, b),
{
    assert(x.subrange(a, b) =~= y.subrange(a, b));
}

/// Lengths that agree outside slot `t` sum up the same, up to slot `t`'s change.
pub proof fn lemma_len_sum_frame(d: Seq<u8>, e: Seq<u8>, k: int, t: int)
    requires
        forall|i: int| 0 <= i < k && i != t ==> slot_len(e, i) == slot_len(d, i),
    ensures
        len_sum(e, k) == len_sum(d, k) + if 0 <= t < k {
            slot_len(e, t) - slot_len(d, t)
        } else {
            0
        },
    decreases k,
{
    if k > 0 {
        lemma_len_sum_frame(d, e, k - 1, t);
    }
}

/// On a consistent page a reusable slot holds an empty record.
pub proof fn lemma_wf_reusable_empty(d: Seq<u8>, i: int)
    requires
        page_wf(d),
        0 <= i < hdr_slots(d),
        is_reusable(d, i),
    ensures
        slot_len(d, i) == 0,
{
    if !is_tombstone(d, i) {
        assert(hdr_upper(d) <= slot_offset(d, i));
    }
}

/// On a consistent page every slot can be looked up, every record can be
/// handed to insert, and lookups report exactly the
/// out-of-bounds and deleted slots.
pub proof fn lemma_wf_safe(d: Seq<u8>, len: int)
    requires
        page_wf(d),
        0 <= len,
    ensures
        forall|i: int| 0 <= i ==> #[trigger] slot_readable(d, i),
        insert_safe(d, len),
        forall|i: int|
            0 <= i < hdr_slots(d) ==> #[trigger] record_lookup_error(d, i) == slot_lookup_error(d, i),
{
    let n = hdr_slots(d);
    let t = insert_target(d);
    lemma_find_reusable(d, 0, n);
    assert forall|i: int| 0 <= i implies #[trigger] slot_readable(d, i) by {
        if i < n {
            assert(slot_pos(i) + SLOT_SIZE <= hdr_lower(d));
        }
    }
    assert(insert_scan_safe(d)) by {
        if t < n {
            assert(slot_pos(t) + SLOT_SIZE <= hdr_lower(d));
        }
        if t >= n && n > 0 {
            assert(slot_pos(n - 1) + SLOT_SIZE <= hdr_lower(d));
        }
    }
    assert forall|i: int| 0 <= i < hdr_slots(d) implies #[trigger] record_lookup_error(d, i)
        == slot_lookup_error(d, i) by {
        if !is_tombstone(d, i) {
            assert(hdr_upper(d) <= slot_offset(d, i));
        }
    }
    if insert_accepts(d, len) {
        if t < n {
            assert(slot_pos(t) + SLOT_SIZE <= hdr_lower(d));
        }
    }
}

/// Insert on a consistent page: the page stays consistent, the record can
/// be read back from the slot it was given, every other slot keeps its
/// record, the free space shrinks by exactly what the record (and a new
/// slot) take, and the page id and log sequence number stay.
pub proof fn lemma_insert(d: Seq<u8>, rec: Seq<u8>)
    requires
        page_wf(d),
        insert_accepts(d, rec.len() as int),
    ensures
        ({
            let t = insert_target(d);
            let e = inserted_image(d, rec, t);
            let n = hdr_slots(d);
            &&& page_wf(e)
            &&& hdr_slots(e) == if t < n {
                n
            } else {
                n + 1
            }
            &&& 0 <= t < hdr_slots(e)
            &&& t < n ==> is_reusable(d, t)
            &&& record_lookup_error(e, t) is None
            &&& record_bytes(e, t) == rec
            &&& slot_offset(e, t) == hdr_upper(e)
            &&& slot_len(e, t) == rec.len()
            &&& forall|i: int|
                0 <= i < n && i != t ==> #[trigger] is_tombstone(e, i) == is_tombstone(d, i)
                    && slot_offset(e, i) == slot_offset(d, i) && slot_len(e, i) == slot_len(d, i)
                    && (!is_tombstone(d, i) ==> record_bytes(e, i) == record_bytes(d, i))
            &&& free_space(e) == free_space(d) - insert_needed(d, rec.len() as int)
            &&& hdr_page_id(e) == hdr_page_id(d)
            &&& hdr_lsn(e) == hdr_lsn(d)
        }),
{
    let n = hdr_slots(d);
    let t = insert_target(d);
    let rlen = rec.len() as int;
    let upper = hdr_upper(d);
    let lower = hdr_lower(d);
    let new_upper = upper - rlen;
    let appended = t >= n;
    let new_lower = lower + if appended {
        SLOT_SIZE as int
    } else {
        0
    };
    let pos = slot_pos(t);
    lemma_find_reusable(d, 0, n);
    if !appended {
        lemma_wf_reusable_empty(d, t);
    }
    assert(pos + SLOT_SIZE <= new_upper);
    assert(pos >= PAGE_HEADER_SIZE);
    let d1 = splice(d, new_upper, rec);
    let d2 = splice(d1, pos, le16(new_upper));
    let d3 = splice(d2, pos + 2, le16(rlen));
    let d4 = splice(d3, OFFSET_FREESPACE_UPPER_BOUND as int, le16(new_upper));
    let d5 = splice(d4, OFFSET_FREESPACE_LOWER_BOUND as int, le16(new_lower));
    let e = inserted_image(d, rec, t);
    lemma_le16(new_upper);
    lemma_le16(rlen);
    lemma_le16(new_lower);
    lemma_le16(n + 1);
    // bytes nothing wrote to
    assert forall|j: int|
        0 <= j < PAGE_SIZE && !(new_upper <= j < upper) && !(pos <= j < pos + SLOT_SIZE) && !(
        OFFSET_FREESPACE_UPPER_BOUND <= j < OFFSET_NUMBER_OF_SLOTS + 2) implies #[trigger] e[j]
        == d[j] by {}
    // the record
    assert forall|j: int| new_upper <= j < upper implies #[trigger] e[j] == rec[j - new_upper] by {}
    // the slot
    assert(u16_le(e, pos) == new_upper) by {
        assert(e[pos] == le16(new_upper)[0]);
        assert(e[pos + 1] == le16(new_upper)[1]);
    }
    assert(u16_le(e, pos + 2) == rlen) by {
        assert(e[pos + 2] == le16(rlen)[0]);
        assert(e[pos + 3] == le16(rlen)[1]);
    }
    // the header
    assert(hdr_upper(e) == new_upper) by {
        assert(e[16] == le16(new_upper)[0]);
        assert(e[17] == le16(new_upper)[1]);
    }
    assert(hdr_lower(e) == new_lower) by {
        assert(e[18] == le16(new_lower)[0]);
        assert(e[19] == le16(new_lower)[1]);
    }
    assert(hdr_slots(e) == if appended {
        n + 1
    } else {
        n
    }) by {
        if appended {
            assert(e[20] == le16(n + 1)[0]);
            assert(e[21] == le16(n + 1)[1]);
        } else {
            assert(e[20] == d[20]);
            assert(e[21] == d[21]);
        }
    }
    assert(hdr_page_id(e) == hdr_page_id(d)) by {
        assert(agree(e, d, 0, 16));
        assert(e.subrange(0, 8) =~= d.subrange(0, 8));
    }
    assert(hdr_lsn(e) == hdr_lsn(d)) by {
        assert(agree(e, d, 0, 16));
    }
    assert(record_bytes(e, t) == rec) by {
        assert(e.subrange(new_upper, upper) =~= rec);
    }
    // other slots and their records
    assert forall|i: int| 0 <= i < n && i != t implies #[trigger] is_tombstone(e, i) == is_tombstone(
        d,
        i,
    ) && slot_offset(e, i) == slot_offset(d, i) && slot_len(e, i) == slot_len(d, i) && (
    !is_tombstone(d, i) ==> record_bytes(e, i) == record_bytes(d, i)) by {
        assert(slot_pos(i) + SLOT_SIZE <= lower);
        assert(agree(e, d, slot_pos(i), slot_pos(i) + SLOT_SIZE));
        lemma_agree_u16(e, d, slot_pos(i));
        lemma_agree_u16(e, d, slot_pos(i) + 2);
        if !is_tombstone(d, i) {
            assert(upper <= slot_offset(d, i));
            assert(agree(e, d, slot_offset(d, i), slot_offset(d, i) + slot_len(d, i)));
            lemma_agree_subrange(e, d, slot_offset(d, i), slot_offset(d, i) + slot_len(d, i));
        }
    }
    let n2 = hdr_slots(e);
    // the lengths
    assert(len_sum(e, n2) == len_sum(d, n) + rlen) by {
        lemma_len_sum_frame(d, e, n, t);
        if appended {
            assert(len_sum(e, n + 1) == len_sum(e, n) + slot_len(e, n));
        }
    }
    assert forall|i: int| 0 <= i < n2 && !is_tombstone(e, i) implies hdr_upper(e)
        <= #[trigger] slot_offset(e, i) && slot_offset(e, i) + slot_len(e, i) <= PAGE_SIZE by {
        if i != t {
            assert(slot_offset(e, i) == slot_offset(d, i));
            assert(slot_len(e, i) == slot_len(d, i));
            assert(is_tombstone(e, i) == is_tombstone(d, i));
        }
    }
    assert(record_in_page(e, t));
    assert(!is_tombstone(e, t));
}

/// Delete on a consistent page: the slot becomes a tombstone that lookups
/// report as deleted, every other slot keeps its record, the page stays
/// consistent, and the free space, slot count, page id and log sequence
/// number do not change.
pub proof fn lemma_delete(d: Seq<u8>, i: int)
    requires
        page_wf(d),
        0 <= i < hdr_slots(d),
        !is_tombstone(d, i),
    ensures
        ({
            let e = splice(d, slot_pos(i), zeros(SLOT_SIZE as nat));
            &&& page_wf(e)
            &&& is_tombstone(e, i)
            &&& slot_lookup_error(e, i) == Some(BasaltError::TombstoneSlot(i as u32))
            &&& record_lookup_error(e, i) == Some(BasaltError::TombstoneSlot(i as u32))
            &&& forall|j: int|
                0 <= j < hdr_slots(d) && j != i ==> #[trigger] is_tombstone(e, j) == is_tombstone(d, j)
                    && slot_offset(e, j) == slot_offset(d, j) && slot_len(e, j) == slot_len(d, j)
                    && record_bytes(e, j) == record_bytes(d, j)
            &&& hdr_slots(e) == hdr_slots(d)
            &&& free_space(e) == free_space(d)
            &&& hdr_page_id(e) == hdr_page_id(d)
            &&& hdr_lsn(e) == hdr_lsn(d)
        }),
{
    let n = hdr_slots(d);
    let pos = slot_pos(i);
    let e = splice(d, pos, zeros(SLOT_SIZE as nat));
    assert(pos + SLOT_SIZE <= hdr_lower(d));
    assert(agree(e, d, 0, pos));
    assert(agree(e, d, pos + SLOT_SIZE, PAGE_SIZE as int));
    assert(slot_offset(e, i) == 0) by {
        assert(e[pos] == 0 && e[pos + 1] == 0);
    }
    assert(slot_len(e, i) == 0) by {
        assert(e[pos + 2] == 0 && e[pos + 3] == 0);
    }
    lemma_agree_u16(e, d, 16);
    lemma_agree_u16(e, d, 18);
    lemma_agree_u16(e, d, 20);
    assert(hdr_page_id(e) == hdr_page_id(d)) by {
        assert(agree(e, d, 0, 16));
    }
    assert(hdr_lsn(e) == hdr_lsn(d)) by {
        assert(agree(e, d, 0, 16));
    }
    assert forall|j: int| 0 <= j < n && j != i implies #[trigger] is_tombstone(e, j) == is_tombstone(
        d,
        j,
    ) && slot_offset(e, j) == slot_offset(d, j) && slot_len(e, j) == slot_len(d, j) && record_bytes(
        e,
        j,
    ) == record_bytes(d, j) by {
        assert(slot_pos(j) + SLOT_SIZE <= hdr_lower(d));
        assert(agree(e, d, slot_pos(j), slot_pos(j) + SLOT_SIZE));
        lemma_agree_u16(e, d, slot_pos(j));
        lemma_agree_u16(e, d, slot_pos(j) + 2);
        if !is_tombstone(d, j) {
            assert(hdr_upper(d) <= slot_offset(d, j));
            assert(agree(e, d, slot_offset(d, j), slot_offset(d, j) + slot_len(d, j)));
            lemma_agree_subrange(e, d, slot_offset(d, j), slot_offset(d, j) + slot_len(d, j));
        } else {
            assert(record_bytes(e, j) =~= record_bytes(d, j));
        }
    }
    lemma_len_sum_frame(d, e, n, i);
    lemma_len_sum_monotone(d, 0, n);
}

/// Where `vacuum` moves the record of live slot `i`.
pub open spec fn packed_offset(d: Seq<u8>, i: int) -> int {
    PAGE_SIZE - len_sum(d, i + 1)
}

/// What holds of the image `vacuum` has built after the first `k` slots.
spec fn vacuum_progress(d: Seq<u8>, k: int) -> bool {
    let (buf, ub) = vacuum_state(d, k);
    let n = hdr_slots(d);
    &&& buf.len() == PAGE_SIZE
    &&& ub == PAGE_SIZE - len_sum(d, k)
    &&& agree(buf, d, 0, PAGE_HEADER_SIZE as int)
    &&& forall|i: int|
        0 <= i < n && (i >= k || is_tombstone(d, i)) ==> agree(
            buf,
            d,
            slot_pos(i),
            #[trigger] slot_pos(i) + SLOT_SIZE,
        )
    &&& forall|i: int|
        0 <= i < k && !is_tombstone(d, i) ==> #[trigger] slot_offset(buf, i) == packed_offset(d, i)
            && slot_len(buf, i) == slot_len(d, i) && buf.subrange(
            packed_offset(d, i),
            packed_offset(d, i) + slot_len(d, i),
        ) == record_bytes(d, i)
}

/// The three writes `vacuum` makes for one live record: the record into
/// the record area, then its offset and length into its slot.
proof fn lemma_vacuum_write(buf: Seq<u8>, nub: int, rec: Seq<u8>, pos: int, len: int)
    requires
        buf.len() == PAGE_SIZE,
        rec.len() == len,
        0 <= len,
        PAGE_HEADER_SIZE <= pos,
        pos + SLOT_SIZE <= nub,
        nub + len <= PAGE_SIZE,
    ensures
        ({
            let nbuf = splice(splice(splice(buf, nub, rec), pos, le16(nub)), pos + 2, le16(len));
            &&& nbuf.len() == PAGE_SIZE
            &&& agree(nbuf, buf, 0, pos)
            &&& agree(nbuf, buf, pos + SLOT_SIZE, nub)
            &&& agree(nbuf, buf, nub + len, PAGE_SIZE as int)
            &&& nbuf.subrange(nub, nub + len) == rec
            &&& u16_le(nbuf, pos) == nub
            &&& u16_le(nbuf, pos + 2) == len
        }),
{
    let nbuf = splice(splice(splice(buf, nub, rec), pos, le16(nub)), pos + 2, le16(len));
    lemma_le16(nub);
    lemma_le16(len);
    assert(nbuf.subrange(nub, nub + len) =~= rec);
    assert(nbuf[pos] == le16(nub)[0]);
    assert(nbuf[pos + 1] == le16(nub)[1]);
    assert(nbuf[pos + 2] == le16(len)[0]);
    assert(nbuf[pos + 3] == le16(len)[1]);
}

proof fn lemma_vacuum_progress(d: Seq<u8>, k: int)
    requires
        page_wf(d),
        0 <= k <= hdr_slots(d),
    ensures
        vacuum_progress(d, k),
    decreases k,
{
    if k == 0 {
        lemma_vacuum_state_upper(d, 0);
        let buf = vacuum_state(d, 0).0;
        assert(agree(buf, d, 0, hdr_lower(d)));
    } else {
        lemma_vacuum_progress(d, k - 1);
        if is_tombstone(d, k - 1) {
            lemma_vacuum_step_tombstone(d, k);
        } else {
            lemma_vacuum_step_live(d, k);
        }
    }
}

proof fn lemma_vacuum_step_tombstone(d: Seq<u8>, k: int)
    requires
        page_wf(d),
        0 < k <= hdr_slots(d),
        vacuum_progress(d, k - 1),
        is_tombstone(d, k - 1),
    ensures
        vacuum_progress(d, k),
{
    lemma_vacuum_state_upper(d, k);
}

#[verifier::rlimit(40)]
proof fn lemma_vacuum_step_live(d: Seq<u8>, k: int)
    requires
        page_wf(d),
        0 < k <= hdr_slots(d),
        vacuum_progress(d, k - 1),
        !is_tombstone(d, k - 1),
    ensures
        vacuum_progress(d, k),
{
    let n = hdr_slots(d);
    lemma_vacuum_state_upper(d, k);
    lemma_len_sum_monotone(d, k, n);
    lemma_len_sum_monotone(d, 0, k - 1);
    let i = k - 1;
    let (buf, ub) = vacuum_state(d, k - 1);
    let (nbuf, nub) = vacuum_state(d, k);
    let len = slot_len(d, i);
    let pos = slot_pos(i);
    assert(hdr_upper(d) <= slot_offset(d, i));
    assert(nub >= hdr_upper(d));
    assert(pos + SLOT_SIZE <= hdr_lower(d));
    lemma_vacuum_write(buf, nub, record_bytes(d, i), pos, len);
    assert(slot_offset(nbuf, i) == nub);
    assert(slot_len(nbuf, i) == len);
    assert(nbuf.subrange(nub, ub) == record_bytes(d, i));
    assert(agree(nbuf, d, 0, PAGE_HEADER_SIZE as int));
    assert forall|j: int|
        0 <= j < k && !is_tombstone(d, j) implies #[trigger] slot_offset(nbuf, j) == packed_offset(
        d,
        j,
    ) && slot_len(nbuf, j) == slot_len(d, j) && nbuf.subrange(
        packed_offset(d, j),
        packed_offset(d, j) + slot_len(d, j),
    ) == record_bytes(d, j) by {
        if j < i {
            assert(slot_offset(buf, j) == packed_offset(d, j));
            assert(slot_pos(j) + SLOT_SIZE <= pos);
            assert(agree(nbuf, buf, slot_pos(j), slot_pos(j) + SLOT_SIZE));
            lemma_agree_u16(nbuf, buf, slot_pos(j));
            lemma_agree_u16(nbuf, buf, slot_pos(j) + 2);
            lemma_len_sum_monotone(d, j + 1, i);
            lemma_len_sum_monotone(d, 0, j);
            let a = packed_offset(d, j);
            let b = a + slot_len(d, j);
            assert(a >= ub);
            assert(agree(nbuf, buf, a, b));
            lemma_agree_subrange(nbuf, buf, a, b);
        }
    }
    assert forall|j: int|
        0 <= j < n && (j >= k || is_tombstone(d, j)) implies agree(
        nbuf,
        d,
        slot_pos(j),
        #[trigger] slot_pos(j) + SLOT_SIZE,
    ) by {
        assert(agree(buf, d, slot_pos(j), slot_pos(j) + SLOT_SIZE));
        assert(slot_pos(j) + SLOT_SIZE <= hdr_lower(d));
    }
}

/// Vacuum on a consistent page: it succeeds, the page stays consistent,
/// every slot keeps its state and every live record its bytes, and the
/// record area shrinks to exactly the live records, so the free space
/// grows by the bytes the deleted records held.
pub proof fn lemma_vacuum(d: Seq<u8>)
    requires
        page_wf(d),
    ensures
        vacuum_safe(d),
        vacuum_stop(d) == hdr_slots(d),
        ({
            let e = vacuumed(d);
            let n = hdr_slots(d);
            &&& page_wf(e)
            &&& hdr_slots(e) == n
            &&& hdr_lower(e) == hdr_lower(d)
            &&& hdr_upper(e) == PAGE_SIZE - len_sum(d, n)
            &&& free_space(e) == PAGE_SIZE - hdr_lower(d) - len_sum(d, n)
            &&& free_space(e) >= free_space(d)
            &&& forall|i: int|
                0 <= i < n ==> #[trigger] is_tombstone(e, i) == is_tombstone(d, i) && slot_len(e, i)
                    == slot_len(d, i) && (!is_tombstone(d, i) ==> record_bytes(e, i) == record_bytes(
                    d,
                    i,
                ))
            &&& hdr_page_id(e) == hdr_page_id(d)
            &&& hdr_lsn(e) == hdr_lsn(d)
        }),
{
    let n = hdr_slots(d);
    lemma_find_corrupt(d, 0, n);
    assert(vacuum_stop(d) == n) by {
        if vacuum_stop(d) < n {
            assert(hdr_upper(d) <= slot_offset(d, vacuum_stop(d)));
        }
    }
    lemma_len_sum_monotone(d, 0, n);
    if n > 0 {
        assert(slot_pos(n - 1) + SLOT_SIZE <= hdr_lower(d));
    }
    lemma_vacuum_progress(d, n);
    let (buf, ub) = vacuum_state(d, n);
    let e = vacuumed(d);
    lemma_le16(ub);
    assert(agree(e, buf, 0, 16));
    assert(agree(e, buf, 18, PAGE_SIZE as int));
    assert(hdr_upper(e) == ub) by {
        assert(e[16] == le16(ub)[0]);
        assert(e[17] == le16(ub)[1]);
    }
    lemma_agree_u16(e, buf, 18);
    lemma_agree_u16(e, buf, 20);
    lemma_agree_u16(buf, d, 18);
    lemma_agree_u16(buf, d, 20);
    assert(hdr_page_id(e) == hdr_page_id(d)) by {
        assert(agree(e, d, 0, 16));
    }
    assert(hdr_lsn(e) == hdr_lsn(d)) by {
        assert(agree(e, d, 0, 16));
    }
    assert forall|i: int| 0 <= i < n implies #[trigger] is_tombstone(e, i) == is_tombstone(d, i)
        && slot_len(e, i) == slot_len(d, i) && (!is_tombstone(d, i) ==> record_bytes(e, i)
        == record_bytes(d, i)) && (!is_tombstone(d, i) ==> slot_offset(e, i) == packed_offset(d, i)) by {
        assert(slot_pos(i) + SLOT_SIZE <= hdr_lower(d));
        assert(agree(e, buf, slot_pos(i), slot_pos(i) + SLOT_SIZE));
        lemma_agree_u16(e, buf, slot_pos(i));
        lemma_agree_u16(e, buf, slot_pos(i) + 2);
        if is_tombstone(d, i) {
            assert(agree(buf, d, slot_pos(i), slot_pos(i) + SLOT_SIZE));
            lemma_agree_u16(buf, d, slot_pos(i));
            lemma_agree_u16(buf, d, slot_pos(i) + 2);
        } else {
            lemma_len_sum_monotone(d, i + 1, n);
            lemma_len_sum_monotone(d, 0, i);
            let a = packed_offset(d, i);
            let b = a + slot_len(d, i);
            assert(slot_offset(buf, i) == a);
            assert(slot_len(buf, i) == slot_len(d, i));
            assert(buf.subrange(a, b) == record_bytes(d, i));
            assert(a >= ub);
            assert(agree(e, buf, a, b));
            lemma_agree_subrange(e, buf, a, b);
        }
    }
    assert forall|i: int| 0 <= i < hdr_slots(e) && !is_tombstone(e, i) implies hdr_upper(e)
        <= #[trigger] slot_offset(e, i) && slot_offset(e, i) + slot_len(e, i) <= PAGE_SIZE by {
        lemma_len_sum_monotone(d, i + 1, n);
        lemma_len_sum_monotone(d, 0, i);
    }
    assert(len_sum(e, n) == len_sum(d, n)) by {
        assert forall|i: int| 0 <= i < n && i != -1 implies slot_len(e, i) == slot_len(d, i) by {
            assert(is_tombstone(e, i) == is_tombstone(d, i));
        }
        lemma_len_sum_frame(d, e, n, -1);
    }
}

/// One page operation, as `Page::insert`, `Page::delete` and `Page::vacuum`
/// perform it.
pub enum PageOp {
    Insert(Seq<u8>),
    Delete(u16),
    Vacuum,
}

/// The page image after `op`, as the operation's contract gives it: an
/// insert or delete that is refused leaves the page as it was.
pub open spec fn apply_op(d: Seq<u8>, op: PageOp) -> Seq<u8> {
    match op {
        PageOp::Insert(rec) => if insert_accepts(d, rec.len() as int) {
            inserted_image(d, rec, insert_target(d))
        } else {
            d
        },
        PageOp::Delete(i) => if slot_lookup_error(d, i as int) is None {
            splice(d, slot_pos(i as int), zeros(SLOT_SIZE as nat))
        } else {
            d
        },
        PageOp::Vacuum => if vacuum_stop(d) >= hdr_slots(d) {
            vacuumed(d)
        } else {
            d
        },
    }
}

/// The page image after the operations `ops`, in order.
pub open spec fn apply_ops(d: Seq<u8>, ops: Seq<PageOp>) -> Seq<u8>
    decreases ops.len(),
{
    if ops.len() == 0 {
        d
    } else {
        apply_op(apply_ops(d, ops.drop_last()), ops.last())
    }
}

/// No insert among `ops`, applied in order from `d`, lands on slot `i`.
pub open spec fn no_insert_lands(d: Seq<u8>, ops: Seq<PageOp>, i: int) -> bool {
    forall|k: int|
        0 <= k < ops.len() ==> match #[trigger] ops[k] {
            PageOp::Insert(rec) => insert_accepts(apply_ops(d, ops.take(k)), rec.len() as int)
                ==> insert_target(apply_ops(d, ops.take(k))) != i,
            _ => true,
        }
}

/// A live record of a consistent page survives any sequence of inserts,
/// vacuums and deletes of other slots: the page stays consistent, the slot
/// stays live and a lookup gives back the same bytes. An empty record's slot
/// counts as reusable, so for an empty record no later insert may land on it.
pub proof fn lemma_record_survives(d: Seq<u8>, ops: Seq<PageOp>, i: int)
    requires
        page_wf(d),
        0 <= i < hdr_slots(d),
        !is_tombstone(d, i),
        slot_len(d, i) > 0 || no_insert_lands(d, ops, i),
        forall|k: int| 0 <= k < ops.len() ==> ops[k] != PageOp::Delete(i as u16),
    ensures
        ({
            let e = apply_ops(d, ops);
            &&& page_wf(e)
            &&& i < hdr_slots(e)
            &&& !is_tombstone(e, i)
            &&& slot_len(e, i) == slot_len(d, i)
            &&& record_lookup_error(e, i) is None
            &&& record_bytes(e, i) == record_bytes(d, i)
        }),
    decreases ops.len(),
{
    if ops.len() == 0 {
        lemma_wf_safe(d, 0);
    } else {
        let front = ops.drop_last();
        let last = ops.len() - 1;
        if slot_len(d, i) == 0 {
            assert forall|k: int| 0 <= k < front.len() implies match #[trigger] front[k] {
                PageOp::Insert(rec) => insert_accepts(apply_ops(d, front.take(k)), rec.len() as int)
                    ==> insert_target(apply_ops(d, front.take(k))) != i,
                _ => true,
            } by {
                assert(front[k] == ops[k]);
                assert(front.take(k) =~= ops.take(k));
            }
        }
        lemma_record_survives(d, front, i);
        let c = apply_ops(d, front);
        let e = apply_ops(d, ops);
        assert(e == apply_op(c, ops.last()));
        assert(ops.last() == ops[last]);
        assert(ops.take(last) =~= front);
        match ops.last() {
            PageOp::Insert(rec) => {
                if insert_accepts(c, rec.len() as int) {
                    lemma_insert(c, rec);
                    lemma_find_reusable(c, 0, hdr_slots(c));
                    assert(hdr_upper(c) <= slot_offset(c, i));
                    assert(i != insert_target(c));
                    assert(is_tombstone(e, i) == is_tombstone(c, i));
                }
            },
            PageOp::Delete(j) => {
                if slot_lookup_error(c, j as int) is None {
                    lemma_delete(c, j as int);
                    assert(j as int != i);
                    assert(is_tombstone(e, i) == is_tombstone(c, i));
                }
            },
            PageOp::Vacuum => {
                lemma_vacuum(c);
                assert(is_tombstone(e, i) == is_tombstone(c, i));
            },
        }
        lemma_wf_safe(e, 0);
    }
}

/// What a successful insert stores, a lookup of its slot gives back, byte
/// for byte, after any later inserts, vacuums and deletes of other slots;
/// for an empty record, as long as no later insert lands on its slot.
pub proof fn lemma_insert_then_read(d: Seq<u8>, rec: Seq<u8>, ops: Seq<PageOp>)
    requires
        page_wf(d),
        insert_accepts(d, rec.len() as int),
        rec.len() > 0 || no_insert_lands(inserted_image(d, rec, insert_target(d)), ops, insert_target(d)),
        forall|k: int| 0 <= k < ops.len() ==> ops[k] != PageOp::Delete(insert_target(d) as u16),
    ensures
        ({
            let t = insert_target(d);
            let e = apply_ops(inserted_image(d, rec, t), ops);
            &&& page_wf(e)
            &&& t < hdr_slots(e)
            &&& record_lookup_error(e, t) is None
            &&& record_bytes(e, t) == rec
        }),
{
    let t = insert_target(d);
    lemma_insert(d, rec);
    let e0 = inserted_image(d, rec, t);
    lemma_wf_safe(e0, 0);
    assert(slot_lookup_error(e0, t) is None);
    lemma_record_survives(e0, ops, t);
}

/// Two inserts into a consistent page hand out different slots while the
/// first record (of at least one byte) is live, so a page id and a slot
/// name one record: the second insert reuses no live slot.
pub proof fn lemma_insert_slots_distinct(d: Seq<u8>, rec1: Seq<u8>, ops: Seq<PageOp>, rec2: Seq<u8>)
    requires
        page_wf(d),
        insert_accepts(d, rec1.len() as int),
        rec1.len() > 0,
        forall|k: int| 0 <= k < ops.len() ==> ops[k] != PageOp::Delete(insert_target(d) as u16),
        insert_accepts(
            apply_ops(inserted_image(d, rec1, insert_target(d)), ops),
            rec2.len() as int,
        ),
    ensures
        insert_target(apply_ops(inserted_image(d, rec1, insert_target(d)), ops)) != insert_target(
            d,
        ),
{
    let t = insert_target(d);
    let e0 = inserted_image(d, rec1, t);
    lemma_insert(d, rec1);
    lemma_wf_safe(e0, 0);
    lemma_record_survives(e0, ops, t);
    let e = apply_ops(e0, ops);
    lemma_find_reusable(e, 0, hdr_slots(e));
    assert(hdr_upper(e) <= slot_offset(e, t));
    assert(!is_reusable(e, t));
}

} // verus!
