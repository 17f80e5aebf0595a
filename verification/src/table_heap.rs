//! The decisions of the table heap: how a tuple is split into fragments
//! chained by record ids (so that tuples larger than a page can be stored),
//! how the fragments are read back, how the directory chain is searched for
//! the best-fit page with room for a fragment, and how a fragment is stored
//! in that page. The buffer-pool accesses between these steps are made by
//! the caller.
use vstd::prelude::*;

use crate::codec::{le32, lemma_le32, u32_le};
use crate::directory_page::{
    DIR_MAX_ENTRIES, DirectoryPageGuard, best_index, dir_entries, dir_next, entry_free, entry_page,
    lemma_best_index, lemma_best_index_push,
};
use crate::page::{
    PAGE_SIZE, Page, SLOT_SIZE, fresh_page, free_space, insert_accepts, insert_target,
    inserted_image, page_wf, record_bytes, record_lookup_error,
};
use crate::page_laws::lemma_wf_safe;
use crate::error::{BasaltError, Result};
use crate::rid::RID;
use crate::tuple::Tuple;

verus! {

/// Bytes of tuple data a fragment holds at most.
pub const MAX_TUPLE_SIZE: usize = 2000;

/// A fragment that holds the end of a tuple.
pub const FLAG_NORMAL: u8 = 0;

/// A fragment followed by another one: its record id comes after the flag.
pub const FLAG_OVERFLOW: u8 = 1;

/// The `next directory page` of the last directory page.
pub const DIR_END_MARKER: u32 = u32::MAX;

/// Number of fragments a tuple of `len` bytes is split into.
pub open spec fn chunk_count(len: int) -> int {
    if len <= MAX_TUPLE_SIZE {
        1
    } else {
        (len - 1) / (MAX_TUPLE_SIZE as int) + 1
    }
}

/// End of the `i`-th piece of a tuple of `len` bytes.
pub open spec fn chunk_end(len: int, i: int) -> int {
    if i + 1 < chunk_count(len) {
        MAX_TUPLE_SIZE * (i + 1)
    } else {
        len
    }
}

/// The `i`-th piece of a tuple: `MAX_TUPLE_SIZE` bytes each, the last one
/// holding the rest.
pub open spec fn chunk(data: Seq<u8>, i: int) -> Seq<u8> {
    data.subrange(MAX_TUPLE_SIZE * i, chunk_end(data.len() as int, i))
}

/// The stored form of a piece: a flag, then for a piece followed by another
/// the record id of that one (page id, slot id), then the bytes.
pub open spec fn fragment_bytes(piece: Seq<u8>, next: Option<RID>) -> Seq<u8> {
    match next {
        None => seq![FLAG_NORMAL] + piece,
        Some(r) => seq![FLAG_OVERFLOW] + le32(r.page_id as int) + le32(r.slot_id as int) + piece,
    }
}

/// What a stored fragment holds: the record id of the next fragment, if
/// any, and its bytes; `None` for an unknown flag.
pub open spec fn decode_spec(p: Seq<u8>) -> Option<(Option<RID>, Seq<u8>)> {
    if p[0] == FLAG_NORMAL {
        Some((None, p.subrange(1, p.len() as int)))
    } else if p[0] == FLAG_OVERFLOW {
        Some(
            (
                Some(RID { page_id: u32_le(p, 1) as u32, slot_id: u32_le(p, 5) as u32 }),
                p.subrange(9, p.len() as int),
            ),
        )
    } else {
        None
    }
}

/// A stored fragment can be decoded without reading past its end.
pub open spec fn fragment_readable(p: Seq<u8>) -> bool {
    p.len() >= 1 && (p[0] == FLAG_OVERFLOW ==> p.len() >= 9)
}

/// The fragments of a tuple whose pieces were stored under `rids`
/// (`rids[i]` holding piece `i`), each pointing at the next.
pub open spec fn fragments(data: Seq<u8>, rids: Seq<RID>) -> Seq<Seq<u8>> {
    let n = chunk_count(data.len() as int);
    Seq::new(
        n as nat,
        |i: int|
            fragment_bytes(
                chunk(data, i),
                if i + 1 < n {
                    Some(rids[i + 1])
                } else {
                    None
                },
            ),
    )
}

/// The bytes the first `k` fragments hold, in order.
pub open spec fn reassemble(frags: Seq<Seq<u8>>, k: int) -> Seq<u8>
    decreases k,
{
    if k <= 0 {
        Seq::empty()
    } else {
        reassemble(frags, k - 1) + (decode_spec(frags[k - 1])->0).1
    }
}

pub proof fn lemma_chunk_count(len: int)
    requires
        len >= 0,
    ensures
        chunk_count(len) >= 1,
        MAX_TUPLE_SIZE * (chunk_count(len) - 1) <= len,
        len <= MAX_TUPLE_SIZE * chunk_count(len),
        len > MAX_TUPLE_SIZE ==> MAX_TUPLE_SIZE * (chunk_count(len) - 1) < len,
{
    if len > MAX_TUPLE_SIZE {
        let q = (len - 1) / 2000;
        assert(2000 * q <= len - 1 < 2000 * q + 2000);
    }
}

/// A stored fragment decodes to the piece and the link it was made of.
pub proof fn lemma_fragment_roundtrip(piece: Seq<u8>, next: Option<RID>)
    ensures
        fragment_readable(fragment_bytes(piece, next)),
        decode_spec(fragment_bytes(piece, next)) == Some((next, piece)),
{
    let p = fragment_bytes(piece, next);
    match next {
        None => {
            assert(p.subrange(1, p.len() as int) =~= piece);
        },
        Some(r) => {
            lemma_le32(r.page_id as int);
            lemma_le32(r.slot_id as int);
            assert(p.subrange(1, 5) =~= le32(r.page_id as int));
            assert(p.subrange(5, 9) =~= le32(r.slot_id as int));
            assert(u32_le(p, 1) == u32_le(le32(r.page_id as int), 0));
            assert(u32_le(p, 5) == u32_le(le32(r.slot_id as int), 0));
            assert(p.subrange(9, p.len() as int) =~= piece);
        },
    }
}

/// Storing a tuple as fragments and reading the fragments back in chain
/// order gives the tuple's bytes back: each fragment links to the record id
/// of the next one, the last links to nothing, and their bytes concatenate
/// to the tuple.
pub proof fn lemma_fragments_roundtrip(data: Seq<u8>, rids: Seq<RID>)
    ensures
        ({
            let frags = fragments(data, rids);
            let n = chunk_count(data.len() as int);
            &&& frags.len() == n
            &&& forall|i: int|
                0 <= i < n ==> fragment_readable(#[trigger] frags[i]) && decode_spec(frags[i])
                    is Some && (decode_spec(frags[i])->0).0 == if i + 1 < n {
                    Some(rids[i + 1])
                } else {
                    None
                }
            &&& reassemble(frags, n) == data
        }),
{
    let frags = fragments(data, rids);
    let n = chunk_count(data.len() as int);
    lemma_chunk_count(data.len() as int);
    assert forall|i: int| 0 <= i < n implies fragment_readable(#[trigger] frags[i]) && decode_spec(
        frags[i],
    ) is Some && (decode_spec(frags[i])->0).0 == if i + 1 < n {
        Some(rids[i + 1])
    } else {
        None
    } by {
        lemma_fragment_roundtrip(
            chunk(data, i),
            if i + 1 < n {
                Some(rids[i + 1])
            } else {
                None
            },
        );
    }
    lemma_reassemble_prefix(data, rids, n);
    assert(data.subrange(0, data.len() as int) =~= data);
}

/// The bytes of the tuple at `rid`, read from the data page images `pages`
/// (by page id) the way `TupleReader` follows a chain, through at most
/// `fuel` fragments; `None` when a page is missing, a record lookup fails or
/// a fragment cannot be decoded.
pub open spec fn read_tuple(pages: Map<u32, Seq<u8>>, rid: RID, fuel: nat) -> Option<Seq<u8>>
    decreases fuel,
{
    if fuel == 0 || !pages.contains_key(rid.page_id) {
        None
    } else {
        let d = pages[rid.page_id];
        let frag = record_bytes(d, rid.slot_id as int);
        if record_lookup_error(d, rid.slot_id as int) is Some || !fragment_readable(frag) {
            None
        } else {
            match decode_spec(frag) {
                None => None,
                Some((None, bytes)) => Some(bytes),
                Some((Some(next), bytes)) => match read_tuple(pages, next, (fuel - 1) as nat) {
                    Some(rest) => Some(bytes + rest),
                    None => None,
                },
            }
        }
    }
}

/// Fragment `k` of the tuple `data`, stored under `rids`, can be looked up
/// in `pages` and holds what the tuple's fragments say.
pub open spec fn fragment_stored(
    pages: Map<u32, Seq<u8>>,
    data: Seq<u8>,
    rids: Seq<RID>,
    k: int,
) -> bool {
    let rid = rids[k];
    &&& pages.contains_key(rid.page_id)
    &&& record_lookup_error(pages[rid.page_id], rid.slot_id as int) is None
    &&& record_bytes(pages[rid.page_id], rid.slot_id as int) == fragments(data, rids)[k]
}

/// A tuple reads back as it was inserted: when every fragment of `data`
/// lies in the page images under the record id it was stored with, reading
/// from the first record id gives exactly `data`, overflow pieces
/// reassembled in order.
pub proof fn lemma_tuple_roundtrip(pages: Map<u32, Seq<u8>>, data: Seq<u8>, rids: Seq<RID>)
    requires
        rids.len() >= chunk_count(data.len() as int),
        forall|k: int|
            0 <= k < chunk_count(data.len() as int) ==> #[trigger] fragment_stored(
                pages,
                data,
                rids,
                k,
            ),
    ensures
        read_tuple(pages, rids[0], chunk_count(data.len() as int) as nat) == Some(data),
{
    lemma_chunk_count(data.len() as int);
    lemma_read_suffix(pages, data, rids, 0);
    assert(data.subrange(0, data.len() as int) =~= data);
}

proof fn lemma_read_suffix(pages: Map<u32, Seq<u8>>, data: Seq<u8>, rids: Seq<RID>, k: int)
    requires
        0 <= k < chunk_count(data.len() as int),
        rids.len() >= chunk_count(data.len() as int),
        forall|j: int|
            0 <= j < chunk_count(data.len() as int) ==> #[trigger] fragment_stored(
                pages,
                data,
                rids,
                j,
            ),
    ensures
        read_tuple(pages, rids[k], (chunk_count(data.len() as int) - k) as nat) == Some(
            data.subrange(MAX_TUPLE_SIZE * k, data.len() as int),
        ),
    decreases chunk_count(data.len() as int) - k,
{
    let n = chunk_count(data.len() as int);
    let len = data.len() as int;
    lemma_chunk_count(len);
    let next = if k + 1 < n {
        Some(rids[k + 1])
    } else {
        None
    };
    lemma_fragment_roundtrip(chunk(data, k), next);
    assert(fragment_stored(pages, data, rids, k));
    assert(fragments(data, rids)[k] == fragment_bytes(chunk(data, k), next));
    if k + 1 < n {
        lemma_read_suffix(pages, data, rids, k + 1);
        assert(chunk_end(len, k) == MAX_TUPLE_SIZE * (k + 1));
        assert(chunk(data, k) + data.subrange(MAX_TUPLE_SIZE * (k + 1), len) =~= data.subrange(
            MAX_TUPLE_SIZE * k,
            len,
        ));
    } else {
        assert(chunk(data, k) =~= data.subrange(MAX_TUPLE_SIZE * k, len));
    }
}

proof fn lemma_reassemble_prefix(data: Seq<u8>, rids: Seq<RID>, k: int)
    requires
        0 <= k <= chunk_count(data.len() as int),
    ensures
        reassemble(fragments(data, rids), k) == data.subrange(
            0,
            if k == 0 {
                0
            } else {
                chunk_end(data.len() as int, k - 1)
            },
        ),
    decreases k,
{
    let n = chunk_count(data.len() as int);
    lemma_chunk_count(data.len() as int);
    if k > 0 {
        lemma_reassemble_prefix(data, rids, k - 1);
        let i = k - 1;
        let frags = fragments(data, rids);
        lemma_fragment_roundtrip(
            chunk(data, i),
            if i + 1 < n {
                Some(rids[i + 1])
            } else {
                None
            },
        );
        let start = if i == 0 {
            0
        } else {
            chunk_end(data.len() as int, i - 1)
        };
        assert(start == MAX_TUPLE_SIZE * i);
        assert(data.subrange(0, start) + chunk(data, i) =~= data.subrange(
            0,
            chunk_end(data.len() as int, i),
        ));
    }
}

/// Builds the stored form of a piece: `None` for the last piece, else the
/// record id of the next piece.
pub fn encode_fragment(piece: &[u8], next: Option<RID>) -> (r: Vec<u8>)
    ensures
        r@ == fragment_bytes(piece@, next),
{
    let mut physical_data: Vec<u8> = Vec::with_capacity(piece.len());
    match next {
        None => {
            physical_data.push(FLAG_NORMAL);
        },
        Some(rid) => {
            // [1B overflow flag] + [8B next RID] + [piece]
            physical_data.push(FLAG_OVERFLOW);
            push_u32(&mut physical_data, rid.page_id);
            push_u32(&mut physical_data, rid.slot_id);
        },
    }
    let ghost prefix = physical_data@;
    let mut i: usize = 0;
    while i < piece.len()
        invariant
            i <= piece@.len(),
            physical_data@ == prefix + piece@.subrange(0, i as int),
        decreases piece@.len() - i,
    {
        physical_data.push(piece[i]);
        i = i + 1;
        assert(piece@.subrange(0, i as int) =~= piece@.subrange(0, i - 1) + seq![piece@[i - 1]]);
    }
    assert(piece@.subrange(0, piece@.len() as int) =~= piece@);
    assert(physical_data@ =~= fragment_bytes(piece@, next));
    physical_data
}

/// Appends the little-endian bytes of `v`.
fn push_u32(v: &mut Vec<u8>, x: u32)
    ensures
        final(v)@ == old(v)@ + le32(x as int),
{
    let lo = (x % 65536) as u16;
    let hi = (x / 65536) as u16;
    v.push((lo % 256) as u8);
    v.push((lo / 256) as u8);
    v.push((hi % 256) as u8);
    v.push((hi / 256) as u8);
    assert(final(v)@ =~= old(v)@ + le32(x as int));
}

/// Reads a stored fragment: the record id of the next fragment (`None` for
/// the last one) and the bytes it holds; `CorruptedPage` for an unknown flag.
pub fn decode_fragment(physical_data: &[u8]) -> (r: Result<(Option<RID>, &[u8])>)
    requires
        fragment_readable(physical_data@),
    ensures
        match decode_spec(physical_data@) {
            Some((next, bytes)) => r is Ok && r->Ok_0.0 == next && r->Ok_0.1@ == bytes,
            None => r == Err::<(Option<RID>, &[u8]), BasaltError>(BasaltError::CorruptedPage),
        },
{
    let flag = physical_data[0];
    if flag == FLAG_NORMAL {
        Ok((None, &physical_data[1..physical_data.len()]))
    } else if flag == FLAG_OVERFLOW {
        let next_page_id = slice_u32(physical_data, 1);
        let next_slot_id = slice_u32(physical_data, 5);
        Ok((Some(RID::new(next_page_id, next_slot_id)), &physical_data[9..physical_data.len()]))
    } else {
        Err(BasaltError::CorruptedPage)
    }
}

/// Reads a little-endian `u32` from `s` at `off`.
fn slice_u32(s: &[u8], off: usize) -> (r: u32)
    requires
        off + 4 <= s@.len(),
    ensures
        r == u32_le(s@, off as int),
{
    let b0 = s[off] as u32;
    let b1 = s[off + 1] as u32;
    let b2 = s[off + 2] as u32;
    let b3 = s[off + 3] as u32;
    b0 + b1 * 256 + b2 * 65536 + b3 * 16777216
}

/// Splits a tuple into fragments and hands them out last piece first, so
/// that each fragment can hold the record id of the one after it.
pub struct TupleWriter {
    data: Vec<u8>,
    remaining: usize,
    next: Option<RID>,
}

impl TupleWriter {
    #[verifier::type_invariant]
    spec fn inv(self) -> bool {
        self.remaining <= chunk_count(self.data@.len() as int)
    }

    /// The tuple's bytes.
    pub closed spec fn data(&self) -> Seq<u8> {
        self.data@
    }

    /// Number of pieces still to be stored; the next one is piece `remaining - 1`.
    pub closed spec fn remaining(&self) -> int {
        self.remaining as int
    }

    /// The record id of the piece stored last.
    pub closed spec fn next(&self) -> Option<RID> {
        self.next
    }

    pub fn new(data: Vec<u8>) -> (w: Self)
        ensures
            w.data() == data@,
            w.remaining() == chunk_count(data@.len() as int),
            w.next() is None,
    {
        let len = data.len();
        let remaining = if len <= MAX_TUPLE_SIZE {
            1
        } else {
            (len - 1) / MAX_TUPLE_SIZE + 1
        };
        TupleWriter { data, remaining, next: None }
    }

    /// The next fragment to store, or `None` when every piece is stored.
    pub fn next_fragment(&self) -> (r: Option<Vec<u8>>)
        ensures
            self.remaining() == 0 ==> r is None,
            self.remaining() > 0 ==> r is Some && r->0@ == fragment_bytes(
                chunk(self.data(), self.remaining() - 1),
                self.next(),
            ),
    {
        proof {
            use_type_invariant(self);
        }
        if self.remaining == 0 {
            return None;
        }
        proof {
            lemma_chunk_count(self.data@.len() as int);
        }
        let i = self.remaining - 1;
        proof {
            let c = chunk_count(self.data@.len() as int);
            let r = self.remaining as int;
            assert(2000 * (r - 1) <= 2000 * (c - 1)) by (nonlinear_arith)
                requires
                    r <= c,
            ;
            assert(r < c ==> 2000 * r <= 2000 * (c - 1)) by (nonlinear_arith);
            assert(2000 * (c - 1) <= self.data@.len());
            assert(2000 * (r - 1) <= self.data@.len());
        }
        let len = self.data.len();
        assert(MAX_TUPLE_SIZE * i <= len);
        let start = MAX_TUPLE_SIZE * i;
        let end = if self.remaining == (if self.data.len() <= MAX_TUPLE_SIZE {
            1
        } else {
            (self.data.len() - 1) / MAX_TUPLE_SIZE + 1
        }) {
            self.data.len()
        } else {
            MAX_TUPLE_SIZE * self.remaining
        };
        let piece = &self.data.as_slice()[start..end];
        Some(encode_fragment(piece, self.next))
    }

    /// Records that the fragment `next_fragment` handed out was stored under `rid`.
    pub fn fragment_written(&mut self, rid: RID)
        requires
            old(self).remaining() > 0,
        ensures
            final(self).data() == old(self).data(),
            final(self).remaining() == old(self).remaining() - 1,
            final(self).next() == Some(rid),
    {
        proof {
            use_type_invariant(&*self);
        }
        self.remaining = self.remaining - 1;
        self.next = Some(rid);
    }

    /// The record id of the tuple (of its first fragment), once every piece is stored.
    pub fn finish(&self) -> (r: Option<RID>)
        ensures
            self.remaining() == 0 ==> r == self.next(),
            self.remaining() > 0 ==> r is None,
    {
        if self.remaining == 0 {
            self.next
        } else {
            None
        }
    }
}

/// Follows the chain of fragments of a stored tuple and gathers its bytes.
pub struct TupleReader {
    rid: RID,
    next: Option<RID>,
    data: Vec<u8>,
}

impl TupleReader {
    pub closed spec fn rid(&self) -> RID {
        self.rid
    }

    /// The record id of the fragment to read next; `None` once the last one was read.
    pub closed spec fn next(&self) -> Option<RID> {
        self.next
    }

    /// The bytes gathered so far.
    pub closed spec fn data(&self) -> Seq<u8> {
        self.data@
    }

    pub fn new(rid: RID) -> (r: Self)
        ensures
            r.rid() == rid,
            r.next() == Some(rid),
            r.data() == Seq::<u8>::empty(),
    {
        TupleReader { rid, next: Some(rid), data: Vec::new() }
    }

    /// The record id of the fragment to read next.
    pub fn next_rid(&self) -> (r: Option<RID>)
        ensures
            r == self.next(),
    {
        self.next
    }

    /// Takes in the fragment stored under `next_rid`: its bytes are
    /// appended, and the reader moves on to the fragment it links to.
    /// `CorruptedPage` for an unknown flag.
    pub fn accept(&mut self, physical_data: &[u8]) -> (r: Result<()>)
        requires
            old(self).next() is Some,
            fragment_readable(physical_data@),
        ensures
            final(self).rid() == old(self).rid(),
            match decode_spec(physical_data@) {
                Some((next, bytes)) => {
                    &&& r is Ok
                    &&& final(self).data() == old(self).data() + bytes
                    &&& final(self).next() == next
                },
                None => {
                    &&& r == Err::<(), BasaltError>(BasaltError::CorruptedPage)
                    &&& final(self).data() == old(self).data()
                    &&& final(self).next() == old(self).next()
                },
            },
    {
        let (next, bytes) = decode_fragment(physical_data)?;
        let ghost d0 = self.data@;
        let mut i: usize = 0;
        while i < bytes.len()
            invariant
                i <= bytes@.len(),
                self.data@ == d0 + bytes@.subrange(0, i as int),
                self.rid == old(self).rid,
            decreases bytes@.len() - i,
        {
            self.data.push(bytes[i]);
            i = i + 1;
            assert(bytes@.subrange(0, i as int) =~= bytes@.subrange(0, i - 1) + seq![bytes@[i - 1]]);
        }
        assert(bytes@.subrange(0, bytes@.len() as int) =~= bytes@);
        self.next = next;
        Ok(())
    }

    /// The tuple read, with the record id it was read from.
    pub fn into_tuple(self) -> (t: Tuple)
        ensures
            t.rid == Some(self.rid()),
            t.data@ == self.data(),
    {
        Tuple::with_rid(self.rid, self.data)
    }
}

/// A data page listed in a directory: its id, the free space the directory
/// records for it, and the directory page that lists it.
#[derive(Clone, Copy, Debug, PartialEq, Eq, Structural)]
pub struct Candidate {
    pub page_id: u32,
    pub free: u32,
    pub directory_page_id: u32,
}

/// The entries of directory page `directory_page_id`, whose image is `d`,
/// in order.
pub open spec fn dir_candidates(d: Seq<u8>, directory_page_id: u32) -> Seq<Candidate> {
    Seq::new(
        dir_entries(d) as nat,
        |j: int|
            Candidate {
                page_id: entry_page(d, j) as u32,
                free: entry_free(d, j) as u32,
                directory_page_id,
            },
    )
}

/// The free space recorded for each of `seen`.
pub open spec fn candidate_frees(seen: Seq<Candidate>) -> Seq<int> {
    Seq::new(seen.len(), |j: int| seen[j].free as int)
}

/// The best fit among `seen` for `required` bytes: the candidate with the
/// least recorded free space that is still at least `required`, the first
/// one seen where several tie.
pub open spec fn chain_best(seen: Seq<Candidate>, required: int) -> Option<Candidate> {
    match best_index(candidate_frees(seen), required) {
        Some(k) => Some(seen[k]),
        None => None,
    }
}

/// The best fit over every entry of every directory page visited: it is one
/// of them, it has room, and no entry with room records less free space;
/// when there is none, no entry has room.
pub proof fn lemma_chain_best(seen: Seq<Candidate>, required: int)
    ensures
        match chain_best(seen, required) {
            Some(c) => {
                &&& seen.contains(c)
                &&& c.free >= required
                &&& forall|j: int|
                    0 <= j < seen.len() && #[trigger] seen[j].free >= required ==> c.free
                        <= seen[j].free
            },
            None => forall|j: int| 0 <= j < seen.len() ==> #[trigger] seen[j].free < required,
        },
{
    let frees = candidate_frees(seen);
    lemma_best_index(frees, required);
    match best_index(frees, required) {
        Some(k) => {
            assert(frees[k] == seen[k].free);
            assert forall|j: int|
                0 <= j < seen.len() && #[trigger] seen[j].free >= required implies seen[k].free
                <= seen[j].free by {
                assert(frees[j] == seen[j].free);
            }
        },
        None => {
            assert forall|j: int| 0 <= j < seen.len() implies #[trigger] seen[j].free < required by {
                assert(frees[j] == seen[j].free);
            }
        },
    }
}

/// What to do after visiting a directory page while looking for room.
#[derive(Debug, PartialEq, Eq, Structural)]
pub enum SearchStep {
    /// Visit the next directory page of the chain.
    FollowNext(u32),
    /// The whole chain is visited: store the record in this data page, and
    /// record its new free space in that directory page.
    UsePage { page_id: u32, directory_page_id: u32 },
    /// No data page has room: allocate one and list it in this (last)
    /// directory page.
    NewDataPage { directory_page_id: u32 },
    /// No data page has room and the last directory page is full: chain a
    /// new directory page and visit it.
    NewDirectoryPage,
}

/// A best-fit search over the directory chain for a data page whose
/// recorded free space covers one record's bytes.
pub struct PageSearch {
    required: u32,
    best: Option<Candidate>,
    seen: Ghost<Seq<Candidate>>,
}

impl PageSearch {
    #[verifier::type_invariant]
    spec fn inv(self) -> bool {
        self.best == chain_best(self.seen@, self.required as int)
    }

    /// The recorded free space a data page needs: the record's length.
    pub closed spec fn required(&self) -> int {
        self.required as int
    }

    /// Every directory entry visited so far, in order.
    pub closed spec fn seen(&self) -> Seq<Candidate> {
        self.seen@
    }

    /// The best fit so far.
    pub closed spec fn best(&self) -> Option<Candidate> {
        self.best
    }

    /// A search for room for a record of `record_len` bytes.
    pub fn new(record_len: usize) -> (s: Self)
        requires
            record_len < PAGE_SIZE,
        ensures
            s.required() == record_len,
            s.seen() == Seq::<Candidate>::empty(),
            s.best() is None,
    {
        let s = PageSearch {
            required: record_len as u32,
            best: None,
            seen: Ghost(Seq::empty()),
        };
        assert(candidate_frees(s.seen@) =~= Seq::<int>::empty());
        s
    }

    /// Visits directory page `directory_page_id`: every entry is weighed
    /// against the best fit so far. On the last page of the chain the search
    /// is done: the best fit over the whole chain if there is one, else a new
    /// data page (listed in this page if it can take one more entry, else in
    /// a new directory page).
    pub fn visit(&mut self, directory_page_id: u32, dir: &DirectoryPageGuard) -> (r: SearchStep)
        requires
            dir_entries(dir.bytes()) <= DIR_MAX_ENTRIES,
        ensures
            final(self).required() == old(self).required(),
            final(self).seen() == old(self).seen() + dir_candidates(dir.bytes(), directory_page_id),
            final(self).best() == chain_best(final(self).seen(), final(self).required()),
            r == if dir_next(dir.bytes()) != DIR_END_MARKER {
                SearchStep::FollowNext(dir_next(dir.bytes()) as u32)
            } else {
                match final(self).best() {
                    Some(c) => SearchStep::UsePage {
                        page_id: c.page_id,
                        directory_page_id: c.directory_page_id,
                    },
                    None => if dir_entries(dir.bytes()) < DIR_MAX_ENTRIES {
                        SearchStep::NewDataPage { directory_page_id }
                    } else {
                        SearchStep::NewDirectoryPage
                    },
                }
            },
    {
        proof {
            use_type_invariant(&*self);
        }
        let ghost d = dir.bytes();
        let ghost seen0 = self.seen@;
        let required = self.required;
        let mut best = self.best;
        let ghost mut seen = seen0;
        let no_of_entries = dir.get_no_of_entries();
        let mut i: u32 = 0;
        while i < no_of_entries
            invariant
                dir.bytes() == d,
                no_of_entries == dir_entries(d),
                no_of_entries <= DIR_MAX_ENTRIES,
                i <= no_of_entries,
                seen == seen0 + dir_candidates(d, directory_page_id).subrange(0, i as int),
                best == chain_best(seen, required as int),
            decreases no_of_entries - i,
        {
            let (page_id, freespace) = dir.get_entry(i);
            let c = Candidate { page_id, free: freespace, directory_page_id };
            proof {
                let frees = candidate_frees(seen);
                lemma_best_index(frees, required as int);
                lemma_best_index_push(frees, freespace as int, required as int);
                assert(candidate_frees(seen.push(c)) =~= frees.push(freespace as int));
                assert(dir_candidates(d, directory_page_id)[i as int] == c);
                assert(dir_candidates(d, directory_page_id).subrange(0, i + 1) =~= dir_candidates(
                    d,
                    directory_page_id,
                ).subrange(0, i as int).push(c));
                seen = seen.push(c);
            }
            if freespace >= required {
                match best {
                    None => {
                        best = Some(c);
                    },
                    Some(b) => {
                        if freespace < b.free {
                            best = Some(c);
                        }
                    },
                }
            }
            i = i + 1;
        }
        assert(dir_candidates(d, directory_page_id).subrange(0, no_of_entries as int)
            =~= dir_candidates(d, directory_page_id));
        *self = PageSearch { required, best, seen: Ghost(seen) };
        let next_directory_page_id = dir.get_next_directory_page_id();
        if next_directory_page_id != DIR_END_MARKER {
            return SearchStep::FollowNext(next_directory_page_id);
        }
        match best {
            Some(c) => SearchStep::UsePage {
                page_id: c.page_id,
                directory_page_id: c.directory_page_id,
            },
            None => {
                if no_of_entries < DIR_MAX_ENTRIES {
                    SearchStep::NewDataPage { directory_page_id }
                } else {
                    SearchStep::NewDirectoryPage
                }
            },
        }
    }
}

/// Stores a fragment in a data page: a new page, first initialised for
/// `page_id`, when `fresh`, else the page `data` holds. Returns the slot the
/// fragment got and the free space the page has left (what its directory
/// entry records); `None`, with `data` unchanged, when the page is not
/// consistent or the fragment does not fit. A page whose free space covers
/// the fragment and a new slot always takes it.
pub fn store_fragment(
    data: &mut [u8; PAGE_SIZE],
    page_id: u32,
    fresh: bool,
    physical_data: &[u8],
) -> (r: Option<(u16, u32)>)
    ensures
        ({
            let start = if fresh {
                fresh_page(page_id as u64)
            } else {
                old(data)@
            };
            let len = physical_data@.len() as int;
            &&& page_wf(start) && len + SLOT_SIZE <= free_space(start) ==> r is Some
            &&& match r {
                Some((slot, free)) => {
                    &&& page_wf(start)
                    &&& insert_accepts(start, len)
                    &&& slot == insert_target(start)
                    &&& final(data)@ == inserted_image(start, physical_data@, slot as int)
                    &&& page_wf(final(data)@)
                    &&& free == free_space(final(data)@)
                    &&& record_lookup_error(final(data)@, slot as int) is None
                    &&& record_bytes(final(data)@, slot as int) == physical_data@
                },
                None => {
                    &&& final(data)@ == old(data)@
                    &&& !(page_wf(start) && insert_accepts(start, len))
                },
            }
        }),
{
    let mut page = if fresh {
        Page::new(page_id as u64)
    } else {
        Page::from_bytes(*data)
    };
    if !page.is_consistent() {
        return None;
    }
    proof {
        lemma_wf_safe(page@, physical_data@.len() as int);
    }
    match page.insert(physical_data) {
        Some(slot) => {
            let free = page.get_freespace();
            *data = *page.as_bytes();
            Some((slot, free as u32))
        },
        None => None,
    }
}

} // verus!
