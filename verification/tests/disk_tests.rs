use basalt::disk::{page_count, page_offset, validate_page_id};
use basalt::error::BasaltError;

#[test]
fn page_count_of_file_lengths() {
    assert_eq!(page_count(0), 0);
    assert_eq!(page_count(4095), 0);
    assert_eq!(page_count(4096), 1);
    assert_eq!(page_count(3 * 4096 + 10), 3);
    // the count is a 32-bit page id
    assert_eq!(page_count(4096 * (1u64 << 32) + 4096), 1);
}

#[test]
fn only_allocated_pages_are_valid() {
    assert!(validate_page_id(0, 1).is_ok());
    assert!(matches!(validate_page_id(0, 0), Err(BasaltError::PageOutOfBounds(0))));
    assert!(matches!(validate_page_id(5, 5), Err(BasaltError::PageOutOfBounds(5))));
    assert!(validate_page_id(4, 5).is_ok());
}

#[test]
fn page_offsets() {
    assert_eq!(page_offset(0), 0);
    assert_eq!(page_offset(3), 3 * 4096);
    // pages beyond 4 GiB are addressed in 64 bits
    assert_eq!(page_offset(1 << 20), 1u64 << 32);
    assert_eq!(page_offset(u32::MAX), u32::MAX as u64 * 4096);
}
