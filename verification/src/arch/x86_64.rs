//! The x86_64 back-end.

pub mod page_entry;
pub mod page_table;
pub mod paging;
pub mod serial;
