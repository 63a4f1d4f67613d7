//! Boot-time physical-to-virtual memory transition subsystem.
//!
//! Consumes a firmware memory map, picks the most space-efficient page
//! granularity for mapping usable RAM, builds a four-level page-table tree
//! from scratch with a forward-only frame allocator, and reports the root
//! table address that the caller installs as the new paging root.

pub mod addr_align;
pub mod classifier;
pub mod frame_alloc;
pub mod frame_vec;
pub mod mapping;
pub mod page_size;
pub mod paging;
pub mod paging_lemmas;
pub mod region;
pub mod setup;
