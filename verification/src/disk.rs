//! The arithmetic of the page file: where a page lives in it, how many
//! pages it holds, and which page ids may be read or written.
use vstd::prelude::*;

use crate::error::{BasaltError, Result};
use crate::page::PAGE_SIZE;

verus! {

/// Number of whole pages in a file of `file_len` bytes, as a page id
/// (taken modulo 2^32): the id the next allocated page gets.
pub fn page_count(file_len: u64) -> (r: u32)
    ensures
        r == (file_len as int / PAGE_SIZE as int) % 0x1_0000_0000,
{
    ((file_len / PAGE_SIZE as u64) % 0x1_0000_0000) as u32
}

/// A page id may be read or written only if it was allocated.
pub fn validate_page_id(page_id: u32, next_page_id: u32) -> (r: Result<()>)
    ensures
        page_id >= next_page_id ==> r == Err::<(), BasaltError>(BasaltError::PageOutOfBounds(page_id)),
        page_id < next_page_id ==> r is Ok,
{
    if page_id >= next_page_id {
        return Err(BasaltError::PageOutOfBounds(page_id));
    }
    Ok(())
}

/// Byte offset of page `page_id` in the file, for reads and writes alike.
pub fn page_offset(page_id: u32) -> (r: u64)
    ensures
        r == page_id as int * PAGE_SIZE as int,
{
    assert(page_id as int * 4096 <= 0xFFFF_FFFF * 4096) by (nonlinear_arith)
        requires
            page_id <= 0xFFFF_FFFF,
    ;
    page_id as u64 * PAGE_SIZE as u64
}

} // verus!
