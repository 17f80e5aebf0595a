//! The bookkeeping of the buffer pool: which page each frame holds, the
//! page table, the free frames, pin counts and dirty flags, and the
//! replacement policy. Reading and writing pages on disk is left to the
//! caller, which performs the action `fetch_page` asks for and hands the
//! page back with `complete_load`.
use vstd::prelude::*;

use std::collections::HashMap;
use std::collections::VecDeque;

use crate::error::{BasaltError, Result};
use crate::page::PAGE_SIZE;
use crate::replacer::Replacer;

verus! {

broadcast use vstd::std_specs::hash::group_hash_axioms;

/// A buffer frame: one page's bytes and what the pool knows of them.
pub struct Frame {
    pub data: [u8; PAGE_SIZE],
    pub page_id: Option<u32>,
    pub is_dirty: bool,
    pub pin_count: usize,
}

impl Frame {
    /// An empty frame: zeroed, holding no page, clean and unpinned.
    pub fn new() -> (f: Self)
        ensures
            f.data@ == Seq::new(PAGE_SIZE as nat, |i: int| 0u8),
            f.page_id is None,
            !f.is_dirty,
            f.pin_count == 0,
    {
        let f = Self { data: [0u8; PAGE_SIZE], page_id: None, is_dirty: false, pin_count: 0 };
        assert(f.data@ =~= Seq::new(PAGE_SIZE as nat, |i: int| 0u8));
        f
    }
}

/// What `fetch_page` asks the caller to do.
pub enum FetchAction {
    /// The page is cached in this frame, which is now pinned once more.
    Hit(usize),
    /// The page must be read into this frame and handed to `complete_load`;
    /// first, if `write_back` names a page, the frame's current bytes must
    /// be written to that page on disk.
    Load { frame_id: usize, write_back: Option<u32> },
}

pub struct BufferPool<R: Replacer> {
    frames: Vec<Frame>,
    page_table: HashMap<u32, usize>,
    free_list: VecDeque<usize>,
    replacer: R,
    loading: Option<(usize, u32)>,
}

impl<R: Replacer> BufferPool<R> {
    pub closed spec fn frames(&self) -> Seq<Frame> {
        self.frames@
    }

    /// Page id to frame index.
    pub closed spec fn table(&self) -> Map<u32, usize> {
        self.page_table@
    }

    /// Frames holding no page, in the order they are handed out.
    pub closed spec fn free(&self) -> Seq<usize> {
        self.free_list@
    }

    pub closed spec fn policy(&self) -> R {
        self.replacer
    }

    /// The frame and page of a load `fetch_page` asked for and that is not complete yet.
    pub closed spec fn loading(&self) -> Option<(usize, u32)> {
        self.loading
    }

    /// Number of frames.
    pub open spec fn size(&self) -> int {
        self.frames().len() as int
    }

    /// The pool's bookkeeping is consistent: the page table and the frames
    /// agree, free frames hold nothing and cannot be evicted, a pinned frame
    /// cannot be evicted, and a frame being loaded is neither free nor
    /// evictable.
    pub open spec fn wf(&self) -> bool {
        &&& self.policy().frame_count() >= self.size()
        &&& forall|g: int|
            self.size() <= g < self.policy().frame_count() ==> !#[trigger] self.policy().evictable(g)
        &&& forall|p: u32| #[trigger]
            self.table().contains_key(p) ==> self.table()[p] < self.size() && self.frames()[self.table()[p] as int].page_id
                == Some(p)
        &&& forall|f: int|
            0 <= f < self.size() && (#[trigger] self.frames()[f]).page_id is Some
                ==> self.table().contains_key(self.frames()[f].page_id->0)
                && self.table()[self.frames()[f].page_id->0] == f
        &&& forall|k: int|
            0 <= k < self.free().len() ==> {
                let f = #[trigger] self.free()[k];
                &&& f < self.size()
                &&& self.frames()[f as int].page_id is None
                &&& self.frames()[f as int].pin_count == 0
                &&& !self.policy().evictable(f as int)
            }
        &&& forall|k1: int, k2: int|
            0 <= k1 < k2 < self.free().len() ==> #[trigger] self.free()[k1] != #[trigger] self.free()[k2]
        &&& forall|f: int|
            0 <= f < self.size() && #[trigger] self.frames()[f].pin_count > 0
                ==> !self.policy().evictable(f)
        &&& self.loading() matches Some((f, p)) ==> {
            &&& f < self.size()
            &&& !self.free().contains(f)
            &&& !self.policy().evictable(f as int)
            &&& self.frames()[f as int].pin_count == 0
            &&& !self.table().contains_key(p)
        }
    }

    /// A pool of `pool_size` empty frames, all free, managed by `replacer`,
    /// which must hold every one of its frames pinned; frames of the
    /// replacer beyond the pool are never unpinned.
    pub fn new(pool_size: usize, replacer: R) -> (bp: Self)
        requires
            replacer.frame_count() >= pool_size,
            forall|f: int| 0 <= f < replacer.frame_count() ==> !#[trigger] replacer.evictable(f),
        ensures
            bp.wf(),
            bp.size() == pool_size,
            bp.table() == Map::<u32, usize>::empty(),
            bp.free() == Seq::new(pool_size as nat, |i: int| i as usize),
            bp.loading() is None,
            bp.policy() == replacer,
            forall|f: int| 0 <= f < pool_size ==> (#[trigger] bp.frames()[f]).page_id is None
                && bp.frames()[f].pin_count == 0 && !bp.frames()[f].is_dirty,
    {
        let mut frames: Vec<Frame> = Vec::new();
        let mut free_list: VecDeque<usize> = VecDeque::new();
        // every frame starts empty and free
        let mut i: usize = 0;
        while i < pool_size
            invariant
                i <= pool_size,
                frames@.len() == i,
                free_list@ == Seq::new(i as nat, |k: int| k as usize),
                forall|f: int| 0 <= f < i ==> (#[trigger] frames@[f]).page_id is None
                    && frames@[f].pin_count == 0 && !frames@[f].is_dirty,
            decreases pool_size - i,
        {
            frames.push(Frame::new());
            free_list.push_back(i);
            i = i + 1;
        }
        let bp = BufferPool {
            frames,
            page_table: HashMap::with_capacity(pool_size),
            free_list,
            replacer,
            loading: None,
        };
        assert(bp.free() =~= Seq::new(pool_size as nat, |k: int| k as usize));
        bp
    }

    /// The frame `frame_id`.
    pub fn frame(&self, frame_id: usize) -> (r: &Frame)
        requires
            frame_id < self.size(),
        ensures
            *r == self.frames()[frame_id as int],
    {
        &self.frames[frame_id]
    }

    /// The frame holding `page_id` and its pin count, if the page is cached.
    pub fn lookup(&self, page_id: u32) -> (r: Option<(usize, usize)>)
        requires
            self.wf(),
        ensures
            match r {
                Some((f, pins)) => self.table().contains_key(page_id) && f == self.table()[page_id]
                    && pins == self.frames()[f as int].pin_count,
                None => !self.table().contains_key(page_id),
            },
    {
        match self.page_table.get(&page_id) {
            Some(frame_id) => Some((*frame_id, self.frames[*frame_id].pin_count)),
            None => None,
        }
    }

    /// Picks a frame to hold a new page: a free frame first, else the
    /// replacement policy's victim, else `OutOfMemory`.
    fn find_victim_frame_id(&mut self) -> (r: Result<usize>)
        requires
            old(self).wf(),
            old(self).loading() is None,
        ensures
            final(self).frames() == old(self).frames(),
            final(self).table() == old(self).table(),
            final(self).loading() is None,
            final(self).policy().frame_count() == old(self).policy().frame_count(),
            match r {
                Ok(f) => {
                    &&& f < old(self).size()
                    &&& old(self).frames()[f as int].pin_count == 0
                    &&& !final(self).policy().evictable(f as int)
                    &&& !final(self).free().contains(f)
                    &&& old(self).free().len() > 0 ==> f == old(self).free()[0] && final(self).free()
                        == old(self).free().subrange(1, old(self).free().len() as int)
                        && final(self).policy() == old(self).policy()
                    &&& old(self).free().len() == 0 ==> final(self).free() == old(self).free()
                        && old(self).policy().evictable(f as int)
                        && old(self).policy().victim_step(final(self).policy(), Some(f))
                    &&& forall|g: int|
                        g != f ==> #[trigger] final(self).policy().evictable(g) == old(
                            self,
                        ).policy().evictable(g)
                },
                Err(e) => {
                    &&& e == BasaltError::OutOfMemory
                    &&& old(self).free().len() == 0
                    &&& final(self).free() == old(self).free()
                    &&& old(self).policy().victim_step(final(self).policy(), None)
                    &&& forall|g: int| #[trigger]
                        final(self).policy().evictable(g) == old(self).policy().evictable(g)
                    &&& forall|g: int|
                        0 <= g < old(self).size() ==> !#[trigger] old(self).policy().evictable(g)
                },
            },
    {
        // a free frame first
        if let Some(frame_id) = self.free_list.pop_front() {
            proof {
                let fr = old(self).free();
                assert(fr[0] == frame_id);
                assert forall|k: int| 0 <= k < self.free().len() implies self.free()[k] != frame_id by {
                    assert(self.free()[k] == fr[k + 1]);
                }
            }
            return Ok(frame_id);
        }
        // then a frame the replacement policy evicts
        if let Some(frame_id) = self.replacer.victim() {
            proof {
                if self.frames()[frame_id as int].pin_count > 0 {
                    assert(!old(self).policy().evictable(frame_id as int));
                }
            }
            return Ok(frame_id);
        }
        Err(BasaltError::OutOfMemory)
    }

    /// Brings `page_id` into the pool. A cached page is pinned once more
    /// (`Hit`). Otherwise a frame is claimed, a free one first, else one the
    /// replacement policy evicts (never a pinned frame), and the caller is
    /// asked to load the page into it (`Load`), after writing the frame's
    /// old page back if it is dirty. `OutOfMemory` when every frame is in use.
    pub fn fetch_page(&mut self, page_id: u32) -> (r: Result<FetchAction>)
        requires
            old(self).wf(),
            old(self).loading() is None,
            old(self).table().contains_key(page_id) ==> old(self).frames()[old(
                self,
            ).table()[page_id] as int].pin_count < usize::MAX,
        ensures
            final(self).wf(),
            final(self).size() == old(self).size(),
            match r {
                Ok(FetchAction::Hit(f)) => {
                    &&& old(self).table().contains_key(page_id)
                    &&& f == old(self).table()[page_id]
                    &&& final(self).frames() == old(self).frames().update(
                        f as int,
                        Frame { pin_count: (old(self).frames()[f as int].pin_count + 1) as usize, ..old(self).frames()[f as int] },
                    )
                    &&& final(self).table() == old(self).table()
                    &&& final(self).free() == old(self).free()
                    &&& old(self).policy().pin_step(final(self).policy(), f)
                    &&& final(self).loading() is None
                },
                Ok(FetchAction::Load { frame_id, write_back }) => {
                    &&& !old(self).table().contains_key(page_id)
                    &&& frame_id < old(self).size()
                    &&& old(self).frames()[frame_id as int].pin_count == 0
                    &&& old(self).free().len() > 0 ==> frame_id == old(self).free()[0]
                        && final(self).free() == old(self).free().subrange(1, old(self).free().len() as int)
                        && final(self).policy() == old(self).policy()
                    &&& old(self).free().len() == 0 ==> old(self).policy().evictable(frame_id as int)
                        && final(self).free() == old(self).free()
                        && old(self).policy().victim_step(final(self).policy(), Some(frame_id))
                    &&& write_back == if old(self).frames()[frame_id as int].is_dirty {
                        old(self).frames()[frame_id as int].page_id
                    } else {
                        None
                    }
                    &&& final(self).frames() == old(self).frames()
                    &&& final(self).table() == old(self).table()
                    &&& final(self).loading() == Some((frame_id, page_id))
                },
                Err(e) => {
                    &&& e == BasaltError::OutOfMemory
                    &&& !old(self).table().contains_key(page_id)
                    &&& old(self).free().len() == 0
                    &&& final(self).free() == old(self).free()
                    &&& old(self).policy().victim_step(final(self).policy(), None)
                    &&& forall|g: int|
                        0 <= g < old(self).size() ==> !#[trigger] old(self).policy().evictable(g)
                    &&& final(self).frames() == old(self).frames()
                    &&& final(self).table() == old(self).table()
                    &&& final(self).loading() is None
                },
            },
    {
        // the page may be cached already
        match self.page_table.get(&page_id) {
            Some(frame_id) => {
                let frame_id = *frame_id;
                let pins = self.frames[frame_id].pin_count;
                self.frames[frame_id].pin_count = pins + 1;
                self.replacer.pin(frame_id);
                return Ok(FetchAction::Hit(frame_id));
            },
            None => {},
        }
        // cache miss: claim a frame for the page
        let victim_frame_id = self.find_victim_frame_id()?;
        let write_back = if self.frames[victim_frame_id].is_dirty {
            self.frames[victim_frame_id].page_id
        } else {
            None
        };
        self.loading = Some((victim_frame_id, page_id));
        Ok(FetchAction::Load { frame_id: victim_frame_id, write_back })
    }

    /// Completes the load `fetch_page` asked for: the frame now holds the
    /// page's bytes `data`, clean and pinned once, and the page table maps
    /// the page to it (and no longer maps the page the frame held before).
    pub fn complete_load(&mut self, data: [u8; PAGE_SIZE]) -> (frame_id: usize)
        requires
            old(self).wf(),
            old(self).loading() is Some,
        ensures
            final(self).wf(),
            final(self).size() == old(self).size(),
            final(self).loading() is None,
            ({
                let (f, p) = old(self).loading()->0;
                let old_frame = old(self).frames()[f as int];
                &&& frame_id == f
                &&& final(self).frames() == old(self).frames().update(
                    f as int,
                    Frame { data, page_id: Some(p), is_dirty: false, pin_count: 1 },
                )
                &&& final(self).free() == old(self).free()
                &&& old(self).policy().pin_step(final(self).policy(), f)
                &&& final(self).table() == (if old_frame.page_id is Some {
                    old(self).table().remove(old_frame.page_id->0)
                } else {
                    old(self).table()
                }).insert(p, f)
            }),
    {
        let (frame_id, page_id) = match self.loading {
            Some(fp) => fp,
            None => {
                proof {
                    assert(false);
                }
                (0, 0)
            },
        };
        // the frame no longer holds its old page
        match self.frames[frame_id].page_id {
            Some(old_page_id) => {
                self.page_table.remove(&old_page_id);
            },
            None => {},
        }
        self.page_table.insert(page_id, frame_id);
        self.frames.set(frame_id, Frame { data, page_id: Some(page_id), is_dirty: false, pin_count: 1 });
        self.replacer.pin(frame_id);
        self.loading = None;
        proof {
            let old_frame = old(self).frames()[frame_id as int];
            assert forall|f: int|
                0 <= f < self.size() && (#[trigger] self.frames()[f]).page_id is Some implies self.table().contains_key(
                self.frames()[f].page_id->0,
            ) && self.table()[self.frames()[f].page_id->0] == f by {
                if f != frame_id {
                    let q = self.frames()[f].page_id->0;
                    assert(old(self).frames()[f].page_id == Some(q));
                    assert(old(self).table()[q] == f);
                    if old_frame.page_id == Some(q) {
                        assert(old(self).table()[q] == frame_id);
                    }
                    assert(q != page_id);
                }
            }
            assert forall|q: u32| #[trigger] self.table().contains_key(q) implies self.table()[q]
                < self.size() && self.frames()[self.table()[q] as int].page_id == Some(q) by {
                if q != page_id {
                    assert(old(self).table().contains_key(q));
                    let f = old(self).table()[q];
                    if f == frame_id {
                        assert(old_frame.page_id == Some(q));
                    }
                }
            }
            assert forall|k: int| 0 <= k < self.free().len() implies {
                let f = #[trigger] self.free()[k];
                &&& f < self.size()
                &&& self.frames()[f as int].page_id is None
                &&& self.frames()[f as int].pin_count == 0
                &&& !self.policy().evictable(f as int)
            } by {
                assert(self.free()[k] != frame_id);
            }
        }
        frame_id
    }

    /// Gives up the load `fetch_page` asked for (the page could not be read
    /// or the old page could not be written back). The claimed frame stays
    /// out of use.
    pub fn abort_load(&mut self)
        requires
            old(self).wf(),
        ensures
            final(self).wf(),
            final(self).loading() is None,
            final(self).frames() == old(self).frames(),
            final(self).table() == old(self).table(),
            final(self).free() == old(self).free(),
            final(self).policy() == old(self).policy(),
    {
        self.loading = None;
    }

    /// Releases one pin of `page_id`, remembering whether the caller changed
    /// the page. The frame becomes evictable when its last pin is released.
    pub fn unpin_page(&mut self, page_id: u32, is_dirty: bool) -> (r: Result<()>)
        requires
            old(self).wf(),
            old(self).table().contains_key(page_id),
            old(self).frames()[old(self).table()[page_id] as int].pin_count > 0,
        ensures
            final(self).wf(),
            r is Ok,
            final(self).size() == old(self).size(),
            final(self).table() == old(self).table(),
            final(self).free() == old(self).free(),
            final(self).loading() == old(self).loading(),
            ({
                let f = old(self).table()[page_id] as int;
                let fr = old(self).frames()[f];
                &&& final(self).frames() == old(self).frames().update(
                    f,
                    Frame { is_dirty: fr.is_dirty || is_dirty, pin_count: (fr.pin_count - 1) as usize, ..fr },
                )
                &&& fr.pin_count == 1 ==> final(self).policy().evictable(f)
                    && old(self).policy().unpin_step(final(self).policy(), f as usize)
                    && (forall|g: int|
                    g != f ==> #[trigger] final(self).policy().evictable(g) == old(
                        self,
                    ).policy().evictable(g))
                &&& fr.pin_count > 1 ==> final(self).policy() == old(self).policy()
            }),
    {
        let frame_id = match self.page_table.get(&page_id) {
            Some(f) => *f,
            None => {
                proof {
                    assert(false);
                }
                0
            },
        };
        // if the caller changed the page, the frame remembers it
        let dirty = self.frames[frame_id].is_dirty || is_dirty;
        self.frames[frame_id].is_dirty = dirty;
        let pins = self.frames[frame_id].pin_count - 1;
        self.frames[frame_id].pin_count = pins;
        // with no pin left, the replacement policy may evict the frame
        if pins == 0 {
            self.replacer.unpin(frame_id);
        }
        proof {
            if pins == 0 {
                assert forall|k: int| 0 <= k < self.free().len() implies {
                    let f = #[trigger] self.free()[k];
                    &&& f < self.size()
                    &&& self.frames()[f as int].page_id is None
                    &&& self.frames()[f as int].pin_count == 0
                    &&& !self.policy().evictable(f as int)
                } by {
                    assert(self.free()[k] != frame_id);
                }
            }
        }
        Ok(())
    }

    /// The bytes of frame `frame_id`, to change them in place.
    pub fn frame_data_mut(&mut self, frame_id: usize) -> (r: &mut [u8; PAGE_SIZE])
        requires
            frame_id < old(self).size(),
        ensures
            *r == old(self).frames()[frame_id as int].data,
            final(self).frames() == old(self).frames().update(
                frame_id as int,
                Frame { data: *final(r), ..old(self).frames()[frame_id as int] },
            ),
            final(self).table() == old(self).table(),
            final(self).free() == old(self).free(),
            final(self).loading() == old(self).loading(),
            final(self).policy() == old(self).policy(),
            old(self).wf() ==> final(self).wf(),
    {
        &mut self.frames[frame_id].data
    }
}

/// A frame in use (pinned at least once) is neither free nor evictable, so
/// `fetch_page` never hands it out for another page.
pub proof fn lemma_pinned_frame_kept<R: Replacer>(bp: &BufferPool<R>, f: usize)
    requires
        bp.wf(),
        f < bp.size(),
        bp.frames()[f as int].pin_count > 0,
    ensures
        !bp.policy().evictable(f as int),
        !bp.free().contains(f),
{
    if bp.free().contains(f) {
        let k = choose|k: int| 0 <= k < bp.free().len() && bp.free()[k] == f;
        assert(bp.frames()[bp.free()[k] as int].pin_count == 0);
    }
}

/// The bytes of page `q` as the pool and the disk `disk` hold them
/// together: the frame's copy while the page is resident, else the disk's.
pub open spec fn page_content<R: Replacer>(bp: BufferPool<R>, disk: Map<u32, Seq<u8>>, q: u32) -> Seq<u8> {
    if bp.table().contains_key(q) {
        bp.frames()[bp.table()[q] as int].data@
    } else {
        disk[q]
    }
}

/// Every resident page that is clean and unpinned holds what the disk holds.
pub open spec fn clean_on_disk<R: Replacer>(bp: BufferPool<R>, disk: Map<u32, Seq<u8>>) -> bool {
    forall|q: u32|
        #![trigger bp.table().contains_key(q)]
        bp.table().contains_key(q) && !bp.frames()[bp.table()[q] as int].is_dirty
            && bp.frames()[bp.table()[q] as int].pin_count == 0 ==> bp.frames()[bp.table()[
            q] as int].data@ == disk[q]
}

/// The disk after the write-back a load asks for: the frame being loaded
/// into is written to its old page when it is dirty.
pub open spec fn written_back<R: Replacer>(bp: BufferPool<R>, disk: Map<u32, Seq<u8>>) -> Map<u32, Seq<u8>> {
    let old_frame = bp.frames()[(bp.loading()->0).0 as int];
    if old_frame.is_dirty && old_frame.page_id is Some {
        disk.insert(old_frame.page_id->0, old_frame.data@)
    } else {
        disk
    }
}

/// A load keeps every page's bytes: when the frame's old page is written
/// back if dirty (`write_back` of `fetch_page`), the new page is read from
/// that disk, and `complete_load` turns `bp` into `after`, every page reads
/// the same through the pool as before, resident or not, and clean unpinned
/// pages still match the disk. So what was written to a page through the
/// pool is what a later fetch gives, even after the page was evicted.
pub proof fn lemma_load_keeps_pages<R: Replacer>(
    bp: BufferPool<R>,
    disk: Map<u32, Seq<u8>>,
    data: [u8; PAGE_SIZE],
    after: BufferPool<R>,
)
    requires
        bp.wf(),
        bp.loading() is Some,
        forall|q: u32| #[trigger] disk.dom().contains(q),
        clean_on_disk(bp, disk),
        data@ == written_back(bp, disk)[(bp.loading()->0).1],
        ({
            let (f, p) = bp.loading()->0;
            let old_frame = bp.frames()[f as int];
            &&& after.frames() == bp.frames().update(
                f as int,
                Frame { data, page_id: Some(p), is_dirty: false, pin_count: 1 },
            )
            &&& after.table() == (if old_frame.page_id is Some {
                bp.table().remove(old_frame.page_id->0)
            } else {
                bp.table()
            }).insert(p, f)
        }),
    ensures
        forall|q: u32|
            #[trigger] page_content(after, written_back(bp, disk), q) == page_content(bp, disk, q),
        clean_on_disk(after, written_back(bp, disk)),
{
    let (f, p) = bp.loading()->0;
    let old_frame = bp.frames()[f as int];
    let wb = written_back(bp, disk);
    if old_frame.page_id is Some {
        let o = old_frame.page_id->0;
        assert(bp.table().contains_key(o) && bp.table()[o] == f);
        assert(o != p);
    }
    assert forall|q: u32| q != p && (old_frame.page_id is None || q != old_frame.page_id->0)
        implies #[trigger] wb[q] == disk[q] by {}
    assert forall|q: u32| #[trigger]
        page_content(after, wb, q) == page_content(bp, disk, q) by {
        if q == p {
        } else if old_frame.page_id is Some && q == old_frame.page_id->0 {
            assert(!after.table().contains_key(q));
            if !old_frame.is_dirty {
                assert(bp.table().contains_key(q));
            }
        } else {
            assert(after.table().contains_key(q) == bp.table().contains_key(q));
            if bp.table().contains_key(q) {
                assert(after.table()[q] == bp.table()[q]);
                assert(bp.table()[q] != f);
            }
        }
    }
    assert forall|q: u32| #![trigger after.table().contains_key(q)]
        after.table().contains_key(q) && !after.frames()[after.table()[q] as int].is_dirty
            && after.frames()[after.table()[q] as int].pin_count == 0 implies after.frames()[after.table()[
        q] as int].data@ == wb[q] by {
        if q != p {
            assert(bp.table().contains_key(q));
            assert(after.table()[q] == bp.table()[q]);
            assert(bp.table()[q] != f);
        }
    }
}

} // verus!
