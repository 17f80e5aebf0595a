//! A directory page lists data pages and the free space each one has.
//! Layout: [entries (4 bytes) | next directory page id (4 bytes)] then
//! entries of [page id (4 bytes) | free space (4 bytes)].
use vstd::prelude::*;

use crate::codec::{le32, lemma_read_u32_after_write, read_u32, splice, u32_le, write_u32};
use crate::error::{BasaltError, Result};
use crate::page::PAGE_SIZE;

verus! {

pub const DIR_HEADER_SIZE: usize = 8;

pub const DIR_ENTRY_SIZE: usize = 8;

/// Entries a directory page holds.
pub const DIR_MAX_ENTRIES: u32 = 511;

pub open spec fn dir_entries(d: Seq<u8>) -> int {
    u32_le(d, 0)
}

pub open spec fn dir_next(d: Seq<u8>) -> int {
    u32_le(d, 4)
}

/// Byte position of entry `i`.
pub open spec fn entry_pos(i: int) -> int {
    DIR_HEADER_SIZE + DIR_ENTRY_SIZE * i
}

pub open spec fn entry_page(d: Seq<u8>, i: int) -> int {
    u32_le(d, entry_pos(i))
}

pub open spec fn entry_free(d: Seq<u8>, i: int) -> int {
    u32_le(d, entry_pos(i) + 4)
}

/// The position in `frees` of the least value that is at least `required`,
/// the first such position where several tie; `None` if no value is that
/// large.
pub open spec fn best_index(frees: Seq<int>, required: int) -> Option<int>
    decreases frees.len(),
{
    if frees.len() == 0 {
        None
    } else {
        let prev = best_index(frees.drop_last(), required);
        let f = frees.last();
        if f >= required && (prev is None || f < frees[prev->0]) {
            Some(frees.len() - 1)
        } else {
            prev
        }
    }
}

/// The free space recorded by the first `n` entries.
pub open spec fn entry_frees(d: Seq<u8>, n: int) -> Seq<int> {
    Seq::new(n as nat, |j: int| entry_free(d, j))
}

/// The best-fit entry for `required` free bytes: the entry with the least
/// recorded free space that is still at least `required`, the first one
/// where several tie; `None` if no entry has that much.
pub open spec fn best_fit(d: Seq<u8>, required: int) -> Option<int> {
    best_index(entry_frees(d, dir_entries(d)), required)
}

/// Appending one value `x` to `frees` keeps the best position, unless `x`
/// fits and is strictly smaller than the best value so far.
pub proof fn lemma_best_index_push(frees: Seq<int>, x: int, required: int)
    ensures
        best_index(frees.push(x), required) == if x >= required && (best_index(frees, required) is None
            || x < frees[best_index(frees, required)->0]) {
            Some(frees.len() as int)
        } else {
            best_index(frees, required)
        },
{
    assert(frees.push(x).drop_last() =~= frees);
    lemma_best_index(frees, required);
}

/// The best position holds a value of at least `required` that no other
/// fitting value undercuts, and no earlier fitting value equals it; with no
/// best position, no value fits.
pub proof fn lemma_best_index(frees: Seq<int>, required: int)
    ensures
        match best_index(frees, required) {
            Some(k) => {
                &&& 0 <= k < frees.len()
                &&& frees[k] >= required
                &&& forall|j: int|
                    0 <= j < frees.len() && #[trigger] frees[j] >= required ==> frees[k] <= frees[j]
                &&& forall|j: int| 0 <= j < k && #[trigger] frees[j] >= required ==> frees[k] < frees[j]
            },
            None => forall|j: int| 0 <= j < frees.len() ==> #[trigger] frees[j] < required,
        },
    decreases frees.len(),
{
    if frees.len() > 0 {
        let s = frees.drop_last();
        let n = frees.len() - 1;
        lemma_best_index(s, required);
        assert forall|j: int| 0 <= j < s.len() implies #[trigger] s[j] == frees[j] by {}
        match best_index(s, required) {
            Some(k) => {
                assert(s[k] == frees[k]);
                if frees[n] >= required && frees[n] < s[k] {
                    assert forall|j: int|
                        0 <= j < frees.len() && #[trigger] frees[j] >= required implies frees[n]
                        <= frees[j] by {
                        if j < n {
                            assert(s[j] == frees[j]);
                        }
                    }
                    assert forall|j: int| 0 <= j < n && #[trigger] frees[j] >= required implies frees[n]
                        < frees[j] by {
                        assert(s[j] == frees[j]);
                    }
                } else {
                    assert forall|j: int|
                        0 <= j < frees.len() && #[trigger] frees[j] >= required implies frees[k]
                        <= frees[j] by {
                        if j < n {
                            assert(s[j] == frees[j]);
                        }
                    }
                    assert forall|j: int| 0 <= j < k && #[trigger] frees[j] >= required implies frees[k]
                        < frees[j] by {
                        assert(s[j] == frees[j]);
                    }
                }
            },
            None => {
                assert forall|j: int| 0 <= j < n implies #[trigger] frees[j] < required by {
                    assert(s[j] == frees[j]);
                }
            },
        }
    }
}

/// The first entry among `i..n` for page `page_id`, or `n`.
pub open spec fn find_page(d: Seq<u8>, i: int, n: int, page_id: int) -> int
    decreases n - i,
{
    if i >= n {
        n
    } else if entry_page(d, i) == page_id {
        i
    } else {
        find_page(d, i + 1, n, page_id)
    }
}

/// A consistent directory page: its entries fit in the page.
pub open spec fn dir_wf(d: Seq<u8>) -> bool {
    d.len() == PAGE_SIZE && 0 <= dir_entries(d) <= DIR_MAX_ENTRIES
}

/// The directory page image after recording `freespace` for `page_id`:
/// the entry of the page is updated, or a new entry is appended.
pub open spec fn dir_updated(d: Seq<u8>, page_id: u32, freespace: u32) -> Seq<u8> {
    let n = dir_entries(d);
    let k = find_page(d, 0, n, page_id as int);
    if k < n {
        splice(d, entry_pos(k) + 4, le32(freespace as int))
    } else {
        let d1 = splice(d, entry_pos(n), le32(page_id as int));
        let d2 = splice(d1, entry_pos(n) + 4, le32(freespace as int));
        splice(d2, 0, le32(n + 1))
    }
}

pub proof fn lemma_find_page(d: Seq<u8>, i: int, n: int, page_id: int)
    requires
        i <= n,
    ensures
        i <= find_page(d, i, n, page_id) <= n,
        find_page(d, i, n, page_id) < n ==> entry_page(d, find_page(d, i, n, page_id)) == page_id,
        forall|j: int| i <= j < find_page(d, i, n, page_id) ==> #[trigger] entry_page(d, j) != page_id,
    decreases n - i,
{
    if i < n && entry_page(d, i) != page_id {
        lemma_find_page(d, i + 1, n, page_id);
    }
}

/// A view of a page buffer as a directory page.
pub struct DirectoryPageGuard<'a> {
    pub data: &'a mut [u8; PAGE_SIZE],
}

impl<'a> DirectoryPageGuard<'a> {
    pub open spec fn bytes(&self) -> Seq<u8> {
        self.data@
    }

    pub fn new(data: &'a mut [u8; PAGE_SIZE]) -> (g: Self)
        ensures
            g.data@ == old(data)@,
            final(g.data)@ == final(data)@,
    {
        Self { data }
    }

    /// Initialises an empty directory page linked to `next_directory_page_id`.
    pub fn init(&mut self, next_directory_page_id: u32)
        ensures
            final(self).bytes() == splice(
                splice(old(self).bytes(), 0, le32(0)),
                4,
                le32(next_directory_page_id as int),
            ),
            dir_entries(final(self).bytes()) == 0,
            dir_next(final(self).bytes()) == next_directory_page_id,
    {
        self.set_no_of_entries(0);
        self.set_next_directory_page_id(next_directory_page_id);
    }

    pub fn get_no_of_entries(&self) -> (r: u32)
        ensures
            r == dir_entries(self.bytes()),
    {
        read_u32(self.data, 0)
    }

    pub fn set_no_of_entries(&mut self, entries_no: u32)
        ensures
            final(self).bytes() == splice(old(self).bytes(), 0, le32(entries_no as int)),
            dir_entries(final(self).bytes()) == entries_no,
            dir_next(final(self).bytes()) == dir_next(old(self).bytes()),
    {
        write_u32(self.data, 0, entries_no);
        proof {
            lemma_read_u32_after_write(old(self).bytes(), 0, entries_no as int);
            assert(u32_le(self.bytes(), 4) == u32_le(old(self).bytes(), 4));
        }
    }

    pub fn get_next_directory_page_id(&self) -> (r: u32)
        ensures
            r == dir_next(self.bytes()),
    {
        read_u32(self.data, 4)
    }

    pub fn set_next_directory_page_id(&mut self, next_directory_page_id: u32)
        ensures
            final(self).bytes() == splice(
                old(self).bytes(),
                4,
                le32(next_directory_page_id as int),
            ),
            dir_next(final(self).bytes()) == next_directory_page_id,
            dir_entries(final(self).bytes()) == dir_entries(old(self).bytes()),
    {
        write_u32(self.data, 4, next_directory_page_id);
        proof {
            lemma_read_u32_after_write(old(self).bytes(), 4, next_directory_page_id as int);
            assert(u32_le(self.bytes(), 0) == u32_le(old(self).bytes(), 0));
        }
    }

    fn get_entry_offset(index_no: u32) -> (r: usize)
        requires
            index_no < DIR_MAX_ENTRIES,
        ensures
            r == entry_pos(index_no as int),
    {
        (index_no as usize * DIR_ENTRY_SIZE) + DIR_HEADER_SIZE
    }

    /// Entry `index_no`: the data page it lists and that page's free space.
    pub fn get_entry(&self, index_no: u32) -> (r: (u32, u32))
        requires
            index_no < dir_entries(self.bytes()),
            dir_entries(self.bytes()) <= DIR_MAX_ENTRIES,
        ensures
            r.0 == entry_page(self.bytes(), index_no as int),
            r.1 == entry_free(self.bytes(), index_no as int),
    {
        let entry_offset = Self::get_entry_offset(index_no);
        (read_u32(self.data, entry_offset), read_u32(self.data, entry_offset + 4))
    }

    /// The page id of the best-fit entry for `freespace_required` bytes: the
    /// entry with the least free space that is still enough, the first one
    /// where several tie; `None` if no entry has that much.
    pub fn get_required_freespace_page_id(&self, freespace_required: u32) -> (r: Option<u32>)
        requires
            dir_entries(self.bytes()) <= DIR_MAX_ENTRIES,
        ensures
            r == match best_fit(self.bytes(), freespace_required as int) {
                Some(k) => Some(entry_page(self.bytes(), k) as u32),
                None => None::<u32>,
            },
    {
        let ghost d = self.bytes();
        let no_of_entries = self.get_no_of_entries();
        // the best entry so far: its page id and free space
        let mut best: Option<(u32, u32)> = None;
        let mut i: u32 = 0;
        while i < no_of_entries
            invariant
                self.bytes() == d,
                no_of_entries == dir_entries(d),
                no_of_entries <= DIR_MAX_ENTRIES,
                i <= no_of_entries,
                best == match best_index(entry_frees(d, i as int), freespace_required as int) {
                    Some(k) => Some((entry_page(d, k) as u32, entry_free(d, k) as u32)),
                    None => None::<(u32, u32)>,
                },
            decreases no_of_entries - i,
        {
            let (page_id, freespace) = self.get_entry(i);
            proof {
                let s = entry_frees(d, i as int);
                assert(entry_frees(d, i + 1) =~= s.push(entry_free(d, i as int)));
                lemma_best_index_push(s, entry_free(d, i as int), freespace_required as int);
                lemma_best_index(s, freespace_required as int);
            }
            if freespace >= freespace_required {
                match best {
                    None => {
                        best = Some((page_id, freespace));
                    },
                    Some((_, best_free)) => {
                        if freespace < best_free {
                            best = Some((page_id, freespace));
                        }
                    },
                }
            }
            i = i + 1;
        }
        assert(entry_frees(d, no_of_entries as int) =~= entry_frees(d, dir_entries(d)));
        match best {
            Some((page_id, _)) => Some(page_id),
            None => None,
        }
    }

    /// Records that `page_id` has `freespace` free bytes: updates the
    /// page's entry, or appends one if the page has none yet.
    pub fn update_page_freespace(&mut self, page_id: u32, freespace: u32) -> (r: Result<()>)
        requires
            dir_entries(old(self).bytes()) <= DIR_MAX_ENTRIES || find_page(
                old(self).bytes(),
                0,
                dir_entries(old(self).bytes()),
                page_id as int,
            ) < DIR_MAX_ENTRIES,
        ensures
            ({
                let d = old(self).bytes();
                let n = dir_entries(d);
                let k = find_page(d, 0, n, page_id as int);
                if k >= n && n >= DIR_MAX_ENTRIES {
                    r == Err::<(), BasaltError>(BasaltError::DirectoryNotEnoughSpace)
                        && final(self).bytes() == d
                } else {
                    r is Ok && final(self).bytes() == dir_updated(d, page_id, freespace)
                }
            }),
    {
        let ghost d = self.bytes();
        let no_of_entries = self.get_no_of_entries();
        proof {
            lemma_find_page(d, 0, no_of_entries as int, page_id as int);
        }
        let mut count: u32 = 0;
        while count < no_of_entries
            invariant
                self.bytes() == d,
                d == old(self).bytes(),
                no_of_entries == dir_entries(d),
                count <= no_of_entries,
                dir_entries(d) <= DIR_MAX_ENTRIES || find_page(d, 0, dir_entries(d), page_id as int)
                    < DIR_MAX_ENTRIES,
                find_page(d, count as int, no_of_entries as int, page_id as int) == find_page(
                    d,
                    0,
                    no_of_entries as int,
                    page_id as int,
                ),
            decreases no_of_entries - count,
        {
            proof {
                lemma_find_page(d, count as int, no_of_entries as int, page_id as int);
            }
            let entry_offset = Self::get_entry_offset(count);
            let entry_page_id = read_u32(self.data, entry_offset);
            if page_id == entry_page_id {
                assert(entry_page(d, count as int) == page_id);
                assert(find_page(d, count as int, no_of_entries as int, page_id as int) == count);
                write_u32(self.data, entry_offset + 4, freespace);
                assert(self.bytes() == dir_updated(d, page_id, freespace));
                return Ok(());
            }
            count = count + 1;
        }
        if count >= DIR_MAX_ENTRIES {
            // the directory page is full: a new one has to be chained
            return Err(BasaltError::DirectoryNotEnoughSpace);
        }
        let new_offset = Self::get_entry_offset(count);
        write_u32(self.data, new_offset, page_id);
        write_u32(self.data, new_offset + 4, freespace);
        self.set_no_of_entries(count + 1);
        Ok(())
    }
}

/// Recording the free space of a page on a consistent directory page keeps
/// it consistent and gives back what was written: the page's entry (the
/// existing one, or a new one at the end) holds the new free space, every
/// other entry and the link to the next directory page stay, and a search
/// for at most that much free space now finds a best fit.
pub proof fn lemma_dir_update(d: Seq<u8>, page_id: u32, freespace: u32)
    requires
        dir_wf(d),
        find_page(d, 0, dir_entries(d), page_id as int) < dir_entries(d) || dir_entries(d)
            < DIR_MAX_ENTRIES,
    ensures
        ({
            let e = dir_updated(d, page_id, freespace);
            let n = dir_entries(d);
            let k = find_page(d, 0, n, page_id as int);
            let n2 = dir_entries(e);
            &&& dir_wf(e)
            &&& n2 == if k < n {
                n
            } else {
                n + 1
            }
            &&& find_page(e, 0, n2, page_id as int) == k
            &&& entry_page(e, k) == page_id
            &&& entry_free(e, k) == freespace
            &&& forall|j: int|
                0 <= j < n && j != k ==> #[trigger] entry_page(e, j) == entry_page(d, j)
                    && entry_free(e, j) == entry_free(d, j)
            &&& dir_next(e) == dir_next(d)
            &&& forall|required: int| 0 <= required <= freespace ==> #[trigger] best_fit(e, required) is Some
        }),
{
    let n = dir_entries(d);
    let k = find_page(d, 0, n, page_id as int);
    let e = dir_updated(d, page_id, freespace);
    lemma_find_page(d, 0, n, page_id as int);
    crate::codec::lemma_le32(freespace as int);
    crate::codec::lemma_le32(page_id as int);
    crate::codec::lemma_le32(n + 1);
    if k < n {
        lemma_read_u32_after_write(d, entry_pos(k) + 4, freespace as int);
        assert(dir_entries(e) == n);
        assert(dir_next(e) == dir_next(d));
        assert(entry_page(e, k) == entry_page(d, k));
        assert forall|j: int| 0 <= j < n && j != k implies #[trigger] entry_page(e, j) == entry_page(
            d,
            j,
        ) && entry_free(e, j) == entry_free(d, j) by {}
    } else {
        let p = entry_pos(n);
        let d1 = splice(d, p, le32(page_id as int));
        let d2 = splice(d1, p + 4, le32(freespace as int));
        lemma_read_u32_after_write(d, p, page_id as int);
        lemma_read_u32_after_write(d1, p + 4, freespace as int);
        lemma_read_u32_after_write(d2, 0, n + 1);
        assert(u32_le(e, p) == u32_le(d2, p));
        assert(u32_le(d2, p) == u32_le(d1, p));
        assert(u32_le(e, p + 4) == u32_le(d2, p + 4));
        assert(dir_next(e) == dir_next(d));
        assert forall|j: int| 0 <= j < n && j != k implies #[trigger] entry_page(e, j) == entry_page(
            d,
            j,
        ) && entry_free(e, j) == entry_free(d, j) by {}
    }
    let n2 = dir_entries(e);
    lemma_find_page(e, 0, n2, page_id as int);
    assert(find_page(e, 0, n2, page_id as int) == k) by {
        let j = find_page(e, 0, n2, page_id as int);
        assert(k < n2);
        if j < k {
            assert(entry_page(e, j) == entry_page(d, j));
            assert(entry_page(d, j) != page_id);
        } else if j > k {
            assert(entry_page(e, k) != page_id);
        }
    }
    assert forall|required: int| 0 <= required <= freespace implies #[trigger] best_fit(
        e,
        required,
    ) is Some by {
        let frees = entry_frees(e, n2);
        lemma_best_index(frees, required);
        assert(frees[k] == entry_free(e, k));
    }
}

} // verus!
