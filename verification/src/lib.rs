//! Basalt: a slotted-page storage engine. The page layout, the record
//! directory, the clock replacement policy, the buffer-pool bookkeeping and
//! the table heap's decisions each come with contracts and proofs.

pub mod buffer_pool;
pub mod codec;
pub mod directory_page;
pub mod disk;
pub mod error;
pub mod page;
pub mod page_laws;
pub mod replacer;
pub mod rid;
pub mod table_heap;
pub mod tuple;
