//! Portable memory management: physical address and frame types, and the bitmap frame
//! allocator that owns physical memory in 4 KiB units, and the free-list heap that hands out
//! byte ranges.

pub mod addr;
pub mod frame;
pub mod heap;

pub use addr::{FRAME_SIZE, Frame, PhysAddr};
pub use frame::{AllocError, FrameAllocator};
