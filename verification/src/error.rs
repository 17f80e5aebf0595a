use vstd::prelude::*;

verus! {

/// The I/O error of the standard library, carried through unchanged.
#[verifier::external_type_specification]
#[verifier::external_body]
pub struct ExIoError(std::io::Error);

/// Every failure the storage engine reports.
#[derive(Debug)]
pub enum BasaltError {
    IoError(std::io::Error),
    PageOutOfBounds(u32),
    PageNotFound(u32),
    CorruptedPage,
    SlotOutOfBounds(u32),
    TombstoneSlot(u32),
    OutOfMemory,
    DirectoryNotEnoughSpace,
}

/// Result of a storage-engine operation.
pub type Result<T> = std::result::Result<T, BasaltError>;

} // verus!
