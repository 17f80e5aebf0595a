use std::collections::HashMap;

use basalt::buffer_pool::{BufferPool, FetchAction, Frame};
use basalt::error::BasaltError;
use basalt::page::PAGE_SIZE;
use basalt::replacer::ClockReplacer;

/// Pages "on disk", and the page ids written back, in order.
struct MemDisk {
    pages: HashMap<u32, [u8; PAGE_SIZE]>,
    written: Vec<u32>,
}

impl MemDisk {
    fn new(n: u32) -> Self {
        let mut pages = HashMap::new();
        for p in 0..n {
            let mut data = [0u8; PAGE_SIZE];
            data[1] = p as u8;
            pages.insert(p, data);
        }
        MemDisk { pages, written: Vec::new() }
    }
}

fn pool(size: usize) -> BufferPool<ClockReplacer> {
    BufferPool::new(size, ClockReplacer::new(size))
}

fn fetch(bp: &mut BufferPool<ClockReplacer>, disk: &mut MemDisk, page_id: u32) -> Result<usize, BasaltError> {
    match bp.fetch_page(page_id)? {
        FetchAction::Hit(frame_id) => Ok(frame_id),
        FetchAction::Load { frame_id, write_back } => {
            if let Some(old) = write_back {
                disk.pages.insert(old, bp.frame(frame_id).data);
                disk.written.push(old);
            }
            let data = disk.pages[&page_id];
            Ok(bp.complete_load(data))
        }
    }
}

#[test]
fn frame_starts_empty() {
    let f = Frame::new();
    assert!(f.data.iter().all(|b| *b == 0));
    assert_eq!(f.page_id, None);
    assert!(!f.is_dirty);
    assert_eq!(f.pin_count, 0);
}

#[test]
fn pool_fetch_pins_and_unpin_releases() {
    let mut disk = MemDisk::new(3);
    let mut bp = pool(10);
    let f = fetch(&mut bp, &mut disk, 2).unwrap();
    assert_eq!(bp.frame(f).page_id, Some(2));
    assert_eq!(bp.frame(f).pin_count, 1);
    assert_eq!(bp.frame(f).data[1], 2);
    assert_eq!(bp.lookup(2), Some((f, 1)));
    // a second fetch is a hit and pins once more
    assert!(matches!(bp.fetch_page(2), Ok(FetchAction::Hit(g)) if g == f));
    assert_eq!(bp.frame(f).pin_count, 2);
    bp.unpin_page(2, false).unwrap();
    bp.unpin_page(2, false).unwrap();
    assert_eq!(bp.frame(f).pin_count, 0);
    assert_eq!(bp.lookup(1), None);
}

#[test]
fn pool_free_frames_are_used_first() {
    let mut disk = MemDisk::new(3);
    let mut bp = pool(3);
    assert_eq!(fetch(&mut bp, &mut disk, 0).unwrap(), 0);
    assert_eq!(fetch(&mut bp, &mut disk, 1).unwrap(), 1);
    assert_eq!(fetch(&mut bp, &mut disk, 2).unwrap(), 2);
}

#[test]
fn pool_evicts_unpinned_page() {
    let mut disk = MemDisk::new(3);
    let mut bp = pool(2);
    fetch(&mut bp, &mut disk, 0).unwrap();
    fetch(&mut bp, &mut disk, 1).unwrap();
    bp.unpin_page(0, false).unwrap();
    bp.unpin_page(1, false).unwrap();
    // the clock hand starts at frame 0, which holds page 0
    let f = fetch(&mut bp, &mut disk, 2).unwrap();
    assert_eq!(f, 0);
    assert!(bp.lookup(2).is_some());
    assert_eq!(bp.lookup(0), None);
    assert!(bp.lookup(1).is_some());
    // nothing was dirty, nothing was written back
    assert!(disk.written.is_empty());
}

#[test]
fn pool_writes_dirty_page_back_before_eviction() {
    let mut disk = MemDisk::new(2);
    let mut bp = pool(1);
    let f0 = fetch(&mut bp, &mut disk, 0).unwrap();
    bp.frame_data_mut(f0)[0] = 42;
    bp.unpin_page(0, true).unwrap();
    assert!(bp.frame(f0).is_dirty);
    let f1 = fetch(&mut bp, &mut disk, 1).unwrap();
    assert_eq!(disk.written, vec![0]);
    assert!(!bp.frame(f1).is_dirty);
    bp.unpin_page(1, false).unwrap();
    let f0 = fetch(&mut bp, &mut disk, 0).unwrap();
    assert_eq!(bp.frame(f0).data[0], 42);
    // page 1 was clean: not written back
    assert_eq!(disk.written, vec![0]);
}

#[test]
fn pinned_pages_are_never_evicted() {
    let mut disk = MemDisk::new(3);
    let mut bp = pool(2);
    fetch(&mut bp, &mut disk, 0).unwrap();
    fetch(&mut bp, &mut disk, 1).unwrap();
    bp.unpin_page(1, false).unwrap();
    // page 0 stays pinned: page 1's frame is the victim
    let f = fetch(&mut bp, &mut disk, 2).unwrap();
    assert_eq!(f, 1);
    assert!(bp.lookup(0).is_some());
    // every frame is pinned now
    assert!(matches!(bp.fetch_page(1), Err(BasaltError::OutOfMemory)));
}

#[test]
fn pool_of_one_frame_runs_out_of_memory() {
    let mut disk = MemDisk::new(2);
    let mut bp = pool(1);
    fetch(&mut bp, &mut disk, 0).unwrap();
    assert!(matches!(bp.fetch_page(1), Err(BasaltError::OutOfMemory)));
    bp.unpin_page(0, false).unwrap();
    assert!(fetch(&mut bp, &mut disk, 1).is_ok());
}

#[test]
fn aborted_load_leaves_the_page_uncached() {
    let mut bp = pool(2);
    match bp.fetch_page(7).unwrap() {
        FetchAction::Load { frame_id, write_back } => {
            assert_eq!(frame_id, 0);
            assert_eq!(write_back, None);
        }
        FetchAction::Hit(_) => panic!("nothing is cached yet"),
    }
    bp.abort_load();
    assert_eq!(bp.lookup(7), None);
}

#[test]
fn a_larger_replacer_only_evicts_frames_of_the_pool() {
    let mut disk = MemDisk::new(6);
    let mut bp = BufferPool::new(2, ClockReplacer::new(4));
    for p in 0..6u32 {
        let f = fetch(&mut bp, &mut disk, p).unwrap();
        assert!(f < 2);
        assert_eq!(bp.frame(f).data[1], p as u8);
        bp.unpin_page(p, false).unwrap();
    }
}

#[test]
fn a_page_written_through_the_pool_survives_eviction() {
    let mut disk = MemDisk::new(2);
    let mut bp = pool(1);
    let f = fetch(&mut bp, &mut disk, 0).unwrap();
    bp.frame_data_mut(f)[0] = 42;
    bp.unpin_page(0, true).unwrap();
    fetch(&mut bp, &mut disk, 1).unwrap();
    bp.unpin_page(1, false).unwrap();
    let f = fetch(&mut bp, &mut disk, 0).unwrap();
    assert_eq!(bp.frame(f).data[0], 42);
}
