use oxygen::mem::addr::{Frame, PhysAddr, FRAME_SIZE};
use oxygen::mem::frame::{AllocError, FrameAllocator};
use oxygen::mem::heap::Heap;

const MIB: u64 = 1024 * 1024;

fn allocator() -> FrameAllocator {
    let mut a = FrameAllocator::new(vec![0u8; 32], PhysAddr(MIB), 256).unwrap();
    a.mark_usable(PhysAddr(MIB), PhysAddr(2 * MIB));
    a
}

#[test]
fn bitmap_sizing_rounds_up_to_whole_bytes() {
    assert_eq!(FrameAllocator::bitmap_bytes(0), 0);
    assert_eq!(FrameAllocator::bitmap_bytes(1), 1);
    assert_eq!(FrameAllocator::bitmap_bytes(8), 1);
    assert_eq!(FrameAllocator::bitmap_bytes(9), 2);
    assert_eq!(FrameAllocator::bitmap_bytes(262_144), 32 * 1024);
}

#[test]
fn starts_fully_used() {
    let a = FrameAllocator::new(vec![0u8; 32], PhysAddr(MIB), 256).unwrap();
    assert_eq!(a.used_frames(), 256);
    assert_eq!(a.free_frames(), 0);
}

#[test]
fn rejects_a_misaligned_base() {
    assert!(FrameAllocator::new(vec![0u8; 32], PhysAddr(MIB + 1), 256).is_err());
}

#[test]
fn rejects_a_bitmap_that_is_too_small() {
    assert!(FrameAllocator::new(vec![0u8; 4], PhysAddr(MIB), 256).is_err());
}

#[test]
fn allocates_and_frees_a_single_frame() {
    let mut a = allocator();
    assert_eq!(a.free_frames(), 256);

    let f = a.allocate().unwrap();
    assert_eq!(f.start(), PhysAddr(MIB));
    assert_eq!(a.free_frames(), 255);

    a.free(f).unwrap();
    assert_eq!(a.free_frames(), 256);
}

#[test]
fn allocations_do_not_overlap() {
    let mut a = allocator();
    let first = a.allocate().unwrap();
    let second = a.allocate().unwrap();
    assert_ne!(first, second);
    assert_eq!(second.start().0 - first.start().0, FRAME_SIZE as u64);
}

#[test]
fn exhausts_then_reports_out_of_memory() {
    let mut a = allocator();
    for _ in 0..256 {
        a.allocate().unwrap();
    }
    assert_eq!(a.free_frames(), 0);
    assert_eq!(a.allocate(), Err(AllocError::OutOfMemory));
}

#[test]
fn contiguous_allocation_returns_adjacent_frames() {
    let mut a = allocator();
    let run = a.alloc_contiguous(4).unwrap();
    assert_eq!(a.free_frames(), 252);
    let next = a.allocate().unwrap();
    assert_eq!(next.start().0, run.start().0 + 4 * FRAME_SIZE as u64);
}

#[test]
fn fragmentation_is_distinguished_from_exhaustion() {
    let mut a = allocator();
    for i in (0..256).step_by(2) {
        let at = PhysAddr(MIB + (i * FRAME_SIZE) as u64);
        a.mark_reserved(at, PhysAddr(at.0 + FRAME_SIZE as u64));
    }
    assert_eq!(a.free_frames(), 128);
    assert_eq!(a.alloc_contiguous(2), Err(AllocError::Fragmented));
    assert!(a.allocate().is_ok());
}

#[test]
fn zero_frame_requests_are_a_caller_bug() {
    let mut a = allocator();
    assert_eq!(a.alloc_contiguous(0), Err(AllocError::ZeroFrames));
}

#[test]
fn double_free_is_refused() {
    let mut a = allocator();
    let f = a.allocate().unwrap();
    a.free(f).unwrap();
    assert!(a.free(f).is_err());
    assert_eq!(a.free_frames(), 256);
}

#[test]
fn freeing_something_we_never_owned_is_refused() {
    let mut a = allocator();
    let outside = Frame::containing(PhysAddr(64 * MIB));
    assert!(a.free(outside).is_err());
}

#[test]
fn partial_frames_are_not_made_usable() {
    let mut a = FrameAllocator::new(vec![0u8; 32], PhysAddr(MIB), 256).unwrap();
    a.mark_usable(PhysAddr(MIB + 16), PhysAddr(MIB + 2048));
    assert_eq!(a.free_frames(), 0);
}

#[test]
fn partly_reserved_frames_are_withheld_entirely() {
    let mut a = allocator();
    let frame1 = MIB + FRAME_SIZE as u64;
    a.mark_reserved(PhysAddr(frame1 + 8), PhysAddr(frame1 + 9));
    assert_eq!(a.free_frames(), 255);
    for _ in 0..255 {
        assert_ne!(a.allocate().unwrap().start(), PhysAddr(frame1));
    }
}

#[test]
fn reserved_regions_are_never_allocated() {
    let mut a = allocator();
    a.mark_reserved(PhysAddr(MIB), PhysAddr(MIB + 16 * FRAME_SIZE as u64));
    assert_eq!(a.free_frames(), 240);
    let f = a.allocate().unwrap();
    assert!(f.start().0 >= MIB + 16 * FRAME_SIZE as u64);
}

#[test]
fn addresses_round_to_frame_boundaries() {
    assert_eq!(PhysAddr(4095).frame_floor(), PhysAddr(0));
    assert_eq!(PhysAddr(4096).frame_floor(), PhysAddr(4096));
    assert_eq!(PhysAddr(1).frame_ceil(), PhysAddr(4096));
    assert_eq!(PhysAddr(4096).frame_ceil(), PhysAddr(4096));
    assert!(PhysAddr(u64::MAX).frame_ceil().0 >= PhysAddr(u64::MAX).frame_floor().0);
}

#[test]
fn a_freed_contiguous_run_can_be_reallocated() {
    let mut a = allocator();
    let run = a.alloc_contiguous(8).unwrap();
    assert_eq!(a.free_frames(), 248);
    a.free_contiguous(run, 8).unwrap();
    assert_eq!(a.free_frames(), 256);
    assert!(a.free_contiguous(run, 8).is_err());
    let again = a.alloc_contiguous(8).unwrap();
    assert_eq!(again.start(), run.start());
}

#[test]
fn asking_for_more_than_is_free_is_out_of_memory() {
    let mut a = allocator();
    a.mark_reserved(PhysAddr(MIB), PhysAddr(MIB + 250 * FRAME_SIZE as u64));
    assert_eq!(a.free_frames(), 6);
    assert_eq!(a.alloc_contiguous(7), Err(AllocError::OutOfMemory));
    assert_eq!(a.total_frames(), 256);
}

#[test]
fn frame_alignment_and_containment() {
    assert!(PhysAddr(8192).is_frame_aligned());
    assert!(!PhysAddr(8193).is_frame_aligned());
    assert_eq!(Frame::containing(PhysAddr(8193)).start(), PhysAddr(8192));
}

fn heap_at(start: usize, size: usize) -> Heap {
    let mut h = Heap::new();
    h.add_region(start, size);
    h
}

#[test]
fn an_empty_heap_hands_out_nothing() {
    let mut h = Heap::default();
    assert_eq!(h.size(), 0);
    assert_eq!(h.used(), 0);
    assert_eq!(h.free(), 0);
    assert_eq!(h.allocate(8, 8), None);
}

#[test]
fn a_region_is_trimmed_to_whole_aligned_units() {
    let h = heap_at(0x1003, 100);
    // Five bytes are lost to alignment, and 95 rounds down to 88.
    assert_eq!(h.size(), 88);
    assert_eq!(h.free(), 88);
}

#[test]
fn a_region_too_small_for_a_block_is_ignored() {
    let h = heap_at(0x1001, 20);
    assert_eq!(h.size(), 0);
}

#[test]
fn first_allocation_comes_from_the_start_and_is_rounded() {
    let mut h = heap_at(0x1000, 4096);
    assert_eq!(h.allocate(100, 8), Some(0x1000));
    assert_eq!(h.used(), 104);
    assert_eq!(h.free(), 4096 - 104);
}

#[test]
fn tiny_requests_take_a_whole_block() {
    let mut h = heap_at(0x1000, 4096);
    assert_eq!(h.allocate(1, 1), Some(0x1000));
    assert_eq!(h.used(), 16);
    assert_eq!(h.allocate(1, 1), Some(0x1010));
}

#[test]
fn allocations_do_not_overlap_heap() {
    let mut h = heap_at(0x1000, 4096);
    let a = h.allocate(32, 8).unwrap();
    let b = h.allocate(32, 8).unwrap();
    assert_eq!(b, a + 32);
}

#[test]
fn alignment_padding_big_enough_is_given_back() {
    let mut h = heap_at(0x1008, 4096);
    // 56 bytes of padding in front of the 64-byte boundary go back to the free list.
    assert_eq!(h.allocate(64, 64), Some(0x1040));
    assert_eq!(h.used(), 64);
    // The padding is handed out again to a request that fits in it.
    assert_eq!(h.allocate(16, 8), Some(0x1008));
}

#[test]
fn alignment_padding_too_small_is_absorbed() {
    let mut h = heap_at(0x1008, 4096);
    // Eight bytes of padding cannot hold a block, so the allocation is charged for them.
    assert_eq!(h.allocate(16, 16), Some(0x1010));
    assert_eq!(h.used(), 24);
}

#[test]
fn freeing_coalesces_back_into_one_block() {
    let mut h = heap_at(0x1000, 4096);
    let a = h.allocate(64, 8).unwrap();
    let b = h.allocate(64, 8).unwrap();
    let c = h.allocate(64, 8).unwrap();
    h.dealloc(b, 64, 8);
    h.dealloc(a, 64, 8);
    h.dealloc(c, 64, 8);
    assert_eq!(h.used(), 0);
    assert_eq!(h.free(), 4096);
    // Only a single block holding the whole region can satisfy this.
    assert_eq!(h.allocate(4096, 8), Some(0x1000));
}

#[test]
fn free_undoes_allocate() {
    let mut h = heap_at(0x1000, 4096);
    let before = h.used();
    let p = h.allocate(200, 8).unwrap();
    assert!(h.used() > before);
    h.dealloc(p, 200, 8);
    assert_eq!(h.used(), before);
    assert_eq!(h.allocate(200, 8), Some(p));
}

#[test]
fn freeing_returns_an_absorbed_tail() {
    // A 24-byte region: a 16-byte request leaves 8 bytes behind it, too few to keep.
    let mut h = heap_at(0x1000, 24);
    let p = h.allocate(16, 8).unwrap();
    assert_eq!(p, 0x1000);
    assert_eq!(h.used(), 24);
    h.dealloc(p, 16, 8);
    assert_eq!(h.used(), 0);
    assert_eq!(h.free(), 24);
    assert_eq!(h.allocate(24, 8), Some(0x1000));
}

#[test]
fn freeing_returns_absorbed_padding() {
    let mut h = heap_at(0x1008, 4096);
    let p = h.allocate(16, 16).unwrap();
    assert_eq!(h.used(), 24);
    h.dealloc(p, 16, 16);
    assert_eq!(h.used(), 0);
    // The region is one block again.
    assert_eq!(h.allocate(4096, 8), Some(0x1008));
}

#[test]
fn freeing_a_pointer_never_handed_out_changes_nothing() {
    let mut h = heap_at(0x1000, 4096);
    let p = h.allocate(64, 8).unwrap();
    h.dealloc(p + 8, 64, 8);
    assert_eq!(h.used(), 64);
    h.dealloc(p, 64, 8);
    assert_eq!(h.used(), 0);
}

#[test]
fn a_request_larger_than_any_block_fails() {
    let mut h = heap_at(0x1000, 4096);
    assert_eq!(h.allocate(8192, 8), None);
    assert_eq!(h.used(), 0);
}

#[test]
fn first_fit_skips_blocks_too_small() {
    let mut h = heap_at(0x1000, 4096);
    let a = h.allocate(32, 8).unwrap();
    let _b = h.allocate(32, 8).unwrap();
    h.dealloc(a, 32, 8);
    // The freed 32 bytes at the front are too small; the request goes past them.
    assert_eq!(h.allocate(48, 8), Some(0x1040));
    // A request that fits goes back to the front.
    assert_eq!(h.allocate(32, 8), Some(0x1000));
}

#[test]
fn two_regions_are_used_in_address_order() {
    let mut h = heap_at(0x8000, 64);
    h.add_region(0x1000, 64);
    assert_eq!(h.size(), 128);
    assert_eq!(h.allocate(64, 8), Some(0x1000));
    assert_eq!(h.allocate(64, 8), Some(0x8000));
    assert_eq!(h.allocate(16, 8), None);
}
