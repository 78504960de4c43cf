//! Bringing kernel memory up: a frame allocator over the RAM assumed present, with everything
//! above the kernel image usable, and a heap on frames carved from it. Two allocators, stacked:
//! frames in 4 KiB units for page tables and the like, and the heap for the small, irregular
//! allocations above them. The lock and the global-allocator hook around the heap are the
//! caller's.

use vstd::prelude::*;

use crate::mem::addr::{PhysAddr, ceil_frame, floor_frame};
use crate::mem::frame::{AllocError, FrameAllocator, alloc_outcome, first_run_at, marked_span, set_range};
use crate::mem::heap::Heap;

verus! {

/// Where RAM begins on this board.
pub const RAM_BASE: u64 = 0x4000_0000;

/// How much RAM to assume until the device tree is read: deliberately less than the machine is
/// given, because guessing high means writing to memory that does not exist.
pub const ASSUMED_RAM: u64 = 0x800_0000;

/// Frames in the assumed RAM.
pub const FRAMES: usize = 32768;

/// Bytes of bitmap the frame allocator needs for them, one bit per frame.
pub const BITMAP_BYTES: usize = 4096;

/// Frames handed to the heap up front: 2 MiB.
pub const HEAP_FRAMES: usize = 512;

/// The heap's size in bytes.
pub const HEAP_BYTES: usize = 0x20_0000;

/// Kernel memory once it is up.
pub struct Memory {
    /// Every frame of the assumed RAM, the heap's among the used.
    pub frames: FrameAllocator,
    /// The heap, over the frames carved for it.
    pub heap: Heap,
    /// Where the heap's frames begin.
    pub heap_start: u64,
}

/// The frames before the heap is carved: all reserved, then the whole frames from the end of
/// the kernel image to the end of the assumed RAM marked usable.
pub open spec fn boot_frames(kernel_end: u64) -> Seq<bool> {
    let all = Seq::new(FRAMES as nat, |i: int| true);
    match marked_span(
        RAM_BASE,
        FRAMES as int,
        ceil_frame(kernel_end),
        floor_frame((RAM_BASE + ASSUMED_RAM) as u64),
    ) {
        Some((lo, hi)) => set_range(all, lo, hi, false),
        None => all,
    }
}

/// A zeroed bitmap for the frame allocator.
fn zeroed_bitmap() -> (b: Vec<u8>)
    ensures
        b@.len() == BITMAP_BYTES,
{
    let mut b: Vec<u8> = Vec::new();
    while b.len() < BITMAP_BYTES
        invariant
            b@.len() <= BITMAP_BYTES,
        decreases BITMAP_BYTES - b@.len(),
    {
        b.push(0);
    }
    b
}

/// Describes RAM and brings the heap up: RAM above `kernel_end` becomes usable, then
/// [`HEAP_FRAMES`] contiguous frames are taken, lowest first, and handed whole to the heap.
/// Fails with the frame allocator's error when no such run is free.
pub fn init(kernel_end: u64) -> (r: Result<Memory, AllocError>)
    ensures
        match r {
            Ok(m) => {
                &&& m.frames.wf()
                &&& m.frames.base_spec() == RAM_BASE
                &&& m.heap.wf()
                &&& m.heap.size_spec() == HEAP_BYTES
                &&& m.heap.used_spec() == 0
                &&& RAM_BASE <= m.heap_start
                &&& m.heap_start + HEAP_BYTES <= RAM_BASE + ASSUMED_RAM
                &&& exists|f: crate::mem::addr::Frame|
                    f.base() == m.heap_start && #[trigger] alloc_outcome(
                        boot_frames(kernel_end),
                        0,
                        HEAP_FRAMES as int,
                        RAM_BASE,
                        Ok(f),
                        m.frames@,
                        m.frames.cursor_spec(),
                    )
                &&& forall|a: int|
                    #[trigger] m.heap.is_free(a) <==> m.heap_start <= a < m.heap_start
                        + HEAP_BYTES
            },
            Err(e) => alloc_outcome(
                boot_frames(kernel_end),
                0,
                HEAP_FRAMES as int,
                RAM_BASE,
                Err(e),
                boot_frames(kernel_end),
                0,
            ),
        },
{
    // The base is frame-aligned and the bitmap has room for every frame, so this cannot fail.
    let mut frames = FrameAllocator::new(zeroed_bitmap(), PhysAddr(RAM_BASE), FRAMES).unwrap();
    frames.mark_usable(PhysAddr(kernel_end), PhysAddr(RAM_BASE + ASSUMED_RAM));
    assert(frames@ == boot_frames(kernel_end));
    let ghost before = frames@;
    let carved = frames.alloc_contiguous(HEAP_FRAMES);
    let frame = match carved {
        Ok(f) => f,
        Err(e) => {
            return Err(e);
        },
    };
    let heap_start = frame.start().0;
    proof {
        let s = choose|s: int|
            #[trigger] first_run_at(before, 0, before.len() as int, HEAP_FRAMES as int, s)
                && frame.base() == RAM_BASE + s * 4096;
        assert(0 <= s && s + 512 <= 32768);
        assert(heap_start + HEAP_BYTES <= RAM_BASE + ASSUMED_RAM) by (nonlinear_arith)
            requires
                heap_start == 0x4000_0000 + s * 4096,
                0 <= s <= 32768 - 512,
        ;
        assert(heap_start % 8 == 0) by (nonlinear_arith)
            requires
                heap_start == 0x4000_0000 + s * 4096,
        ;
    }
    let mut heap = Heap::new();
    heap.add_region(heap_start as usize, HEAP_BYTES);
    assert(alloc_outcome(
        boot_frames(kernel_end),
        0,
        HEAP_FRAMES as int,
        RAM_BASE,
        Ok(frame),
        frames@,
        frames.cursor_spec(),
    ));
    assert(frame.base() == heap_start);
    assert(RAM_BASE <= heap_start);
    assert(heap.used_spec() == 0);
    assert(heap.size_spec() == HEAP_BYTES);
    assert(forall|a: int| #[trigger] heap.is_free(a) <==> heap_start <= a < heap_start + HEAP_BYTES);
    Ok(Memory { frames, heap, heap_start })
}

} // verus!
