//! Early-boot core of a freestanding 64-bit kernel: a physical memory map
//! built from firmware data, a frame allocator over its usable regions, a
//! page-table mapper, a heap allocator, a bounded scancode queue fed by the
//! keyboard interrupt, and a cooperative task executor.

pub mod addr;
pub mod boot;
pub mod executor;
pub mod frame_alloc;
pub mod heap;
pub mod paging;
pub mod memory_map;
pub mod scancode;
pub mod task;
