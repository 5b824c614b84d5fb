//! Architecture-neutral kernel services.

pub mod global_allocator;
pub mod heap;
pub mod memory_map;
