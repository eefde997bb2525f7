//! A verified multi-level page-table engine for a single-address-space kernel.
//!
//! Addresses, page sizes, the entry codec, pages and page ranges, and the
//! hierarchy of translation tables with its mapping, unmapping and lookup.

pub mod addr;
pub mod entry;
pub mod error;
pub mod page;
pub mod page_size;
pub mod paging;
pub mod physicalmem;
pub mod table_address;
pub mod virtualmem;
