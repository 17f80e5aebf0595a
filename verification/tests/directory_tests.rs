use basalt::directory_page::{DirectoryPageGuard, DIR_MAX_ENTRIES};
use basalt::error::BasaltError;
use basalt::page::PAGE_SIZE;

#[test]
fn directory_init_and_header() {
    let mut data = [0xAAu8; PAGE_SIZE];
    let mut dir = DirectoryPageGuard::new(&mut data);
    dir.init(u32::MAX);
    assert_eq!(dir.get_no_of_entries(), 0);
    assert_eq!(dir.get_next_directory_page_id(), u32::MAX);
    dir.set_next_directory_page_id(17);
    assert_eq!(dir.get_next_directory_page_id(), 17);
    dir.set_no_of_entries(3);
    assert_eq!(dir.get_no_of_entries(), 3);
    assert_eq!(&data[0..8], &[3, 0, 0, 0, 17, 0, 0, 0]);
}

#[test]
fn directory_records_and_finds_free_space() {
    let mut data = [0u8; PAGE_SIZE];
    let mut dir = DirectoryPageGuard::new(&mut data);
    dir.init(u32::MAX);
    assert_eq!(dir.get_required_freespace_page_id(1), None);
    dir.update_page_freespace(5, 100).unwrap();
    dir.update_page_freespace(6, 3000).unwrap();
    dir.update_page_freespace(7, 500).unwrap();
    assert_eq!(dir.get_no_of_entries(), 3);
    // the best fit: the least free space that is still enough
    assert_eq!(dir.get_required_freespace_page_id(50), Some(5));
    assert_eq!(dir.get_required_freespace_page_id(101), Some(7));
    assert_eq!(dir.get_required_freespace_page_id(400), Some(7));
    assert_eq!(dir.get_required_freespace_page_id(501), Some(6));
    assert_eq!(dir.get_required_freespace_page_id(3001), None);
    // updating an existing page keeps the number of entries
    dir.update_page_freespace(6, 10).unwrap();
    assert_eq!(dir.get_no_of_entries(), 3);
    assert_eq!(dir.get_required_freespace_page_id(400), Some(7));
    assert_eq!(dir.get_required_freespace_page_id(501), None);
    // the entry layout: page id then free space, little-endian
    assert_eq!(&data[8..16], &[5, 0, 0, 0, 100, 0, 0, 0]);
}

#[test]
fn full_directory_page_refuses_new_entries() {
    let mut data = [0u8; PAGE_SIZE];
    let mut dir = DirectoryPageGuard::new(&mut data);
    dir.init(u32::MAX);
    for pid in 0..DIR_MAX_ENTRIES {
        dir.update_page_freespace(pid, pid).unwrap();
    }
    assert_eq!(dir.get_no_of_entries(), DIR_MAX_ENTRIES);
    assert!(matches!(dir.update_page_freespace(9999, 1), Err(BasaltError::DirectoryNotEnoughSpace)));
    assert_eq!(dir.get_no_of_entries(), DIR_MAX_ENTRIES);
    // an existing page can still be updated
    dir.update_page_freespace(510, 4000).unwrap();
    assert_eq!(dir.get_required_freespace_page_id(3000), Some(510));
}

#[test]
fn best_fit_prefers_the_tightest_page_and_the_first_of_a_tie() {
    let mut data = [0u8; PAGE_SIZE];
    let mut dir = DirectoryPageGuard::new(&mut data);
    dir.init(u32::MAX);
    dir.update_page_freespace(1, 300).unwrap();
    dir.update_page_freespace(2, 150).unwrap();
    dir.update_page_freespace(3, 150).unwrap();
    dir.update_page_freespace(4, 90).unwrap();
    assert_eq!(dir.get_required_freespace_page_id(100), Some(2));
    assert_eq!(dir.get_required_freespace_page_id(151), Some(1));
    assert_eq!(dir.get_required_freespace_page_id(0), Some(4));
    assert_eq!(dir.get_entry(2), (3, 150));
}
