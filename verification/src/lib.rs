//! Memory-management core of a small x86_64 kernel.
//!
//! Three parts depend on each other in a ring: the heap maps its pages
//! through the address space, the address space takes the frames for its
//! tables from the frame allocator, and the frame allocator keeps its bitmap
//! in the memory that it manages.
//!
//! - [`bitmap_allocator`]: a bit-indexed array over borrowed bytes, and the
//!   allocator of 4 KiB frames that keeps one bit per frame in it.
//! - [`kernel::memory_map`]: the portable flags of a mapping and the
//!   interface of an address space.
//! - [`arch::x86_64`]: page entries, the 4-level tree of page tables with its
//!   walks, and the address space built on it; what goes to the serial
//!   ports.
//! - [`kernel::heap`]: the first-fit heap over a list of cells that grows by
//!   mapping fresh frames.
//! - [`kernel::global_allocator`]: heap, address space and frame allocator
//!   under one roof.
//! - [`multicore::local`]: one value per core, with counted borrows.
//!
//! The library works on values. A tree of page tables owns its tables, the
//! headers of the heap are kept by their addresses, and a caller that runs
//! on the machine reads the tables in, writes them back, and does what only
//! the machine can do: ports, registers, flushes, locks.

pub mod arch;
pub mod bitmap_allocator;
pub mod kernel;
pub mod multicore;
