use oxygen::aarch64::paging::{block, page, table, Access, MemoryKind, ENTRIES, PXN};
use oxygen::kernel::exceptions::exception_level;
use oxygen::kernel::mm::{self, ASSUMED_RAM, HEAP_BYTES, HEAP_FRAMES, RAM_BASE};
use oxygen::kernel::mmu::{identity_map, sctlr_with_translation, translation_enabled, KernelLayout};
use oxygen::kernel::user::{cache_lines, lines_covering};

fn layout() -> KernelLayout {
    KernelLayout {
        kernel_start: 0x4008_0000,
        text_start: 0x4008_0000,
        text_end: 0x4008_3000,
        rodata_start: 0x4008_3000,
        rodata_end: 0x4008_4000,
        data_start: 0x4008_4000,
        kernel_end: 0x4008_6000,
    }
}

#[test]
fn the_identity_map_covers_devices_and_ram() {
    let (l1, l2, l3) = identity_map(layout(), 0x5000, 0x6000);
    assert_eq!(l1.len(), ENTRIES);
    assert_eq!(l1[0], block(0, MemoryKind::Device, Access::KernelData));
    assert_eq!(l1[1], table(0x5000));
    assert!(l1[2..].iter().all(|d| *d == 0));
    assert_eq!(l2[0], table(0x6000));
    assert_eq!(l2[1], block(0x4020_0000, MemoryKind::Normal, Access::KernelData));
    assert_eq!(l2[511], block(0x4000_0000 + 511 * 0x20_0000, MemoryKind::Normal, Access::KernelData));
    assert_eq!(l3.len(), ENTRIES);
}

#[test]
fn kernel_pages_get_their_sections_permissions() {
    let (_, _, l3) = identity_map(layout(), 0x5000, 0x6000);
    // Below the image: unmapped.
    assert_eq!(l3[0], 0);
    assert_eq!(l3[0x7F], 0);
    // .text: executable, read-only.
    assert_eq!(l3[0x80], page(0x4008_0000, MemoryKind::Normal, Access::KernelCode));
    assert_eq!(l3[0x82], page(0x4008_2000, MemoryKind::Normal, Access::KernelCode));
    // .rodata
    assert_eq!(l3[0x83], page(0x4008_3000, MemoryKind::Normal, Access::KernelReadOnly));
    // .data and everything after the image up to 2 MiB.
    assert_eq!(l3[0x84], page(0x4008_4000, MemoryKind::Normal, Access::KernelData));
    assert_eq!(l3[0x86], page(0x4008_6000, MemoryKind::Normal, Access::KernelData));
    assert_eq!(l3[511], page(0x401F_F000, MemoryKind::Normal, Access::KernelData));
}

#[test]
fn only_text_pages_are_executable() {
    let (_, _, l3) = identity_map(layout(), 0x5000, 0x6000);
    for (k, d) in l3.iter().enumerate() {
        if *d == 0 {
            continue;
        }
        let executable = d & PXN == 0;
        assert_eq!(executable, (0x80..0x83).contains(&k), "entry {k}");
        let writable = (d >> 6) & 2 == 0;
        assert!(!(executable && writable), "entry {k} is W+X");
    }
}

#[test]
fn sctlr_bits() {
    assert_eq!(sctlr_with_translation(0), 0x1005);
    assert_eq!(sctlr_with_translation(0x30D0_0800), 0x30D0_1805);
    assert!(translation_enabled(0x1005));
    assert!(!translation_enabled(0x1004));
}

#[test]
fn current_el_reads_bits_two_and_three() {
    assert_eq!(exception_level(0b0100), 1);
    assert_eq!(exception_level(0b1000), 2);
    assert_eq!(exception_level(0b1100), 3);
    assert_eq!(exception_level(0b0011), 0);
}

#[test]
fn cache_line_sizes_come_from_ctr() {
    // DminLine 4 (64 bytes), IminLine 4 (64 bytes): a typical Cortex-A value.
    assert_eq!(cache_lines(0x8444_C004), (64, 64));
    assert_eq!(cache_lines(0x0003_0002), (32, 16));
}

#[test]
fn lines_cover_a_range_from_its_aligned_start() {
    assert_eq!(lines_covering(0x1010, 0x80, 64), vec![0x1000, 0x1040, 0x1080]);
    assert_eq!(lines_covering(0x1000, 0x40, 64), vec![0x1000]);
    assert_eq!(lines_covering(0x1000, 0, 64), Vec::<u64>::new());
}

#[test]
fn memory_comes_up_with_a_heap_above_the_kernel() {
    let m = mm::init(0x4008_6000).unwrap();
    assert_eq!(m.heap_start, 0x4008_6000);
    assert_eq!(m.heap.size(), HEAP_BYTES);
    assert_eq!(m.heap.used(), 0);
    let total = (ASSUMED_RAM / 4096) as usize;
    let usable = total - (0x86000 / 4096);
    assert_eq!(m.frames.free_frames(), usable - HEAP_FRAMES);
    assert!(m.heap_start >= RAM_BASE);
}

#[test]
fn memory_fails_when_no_heap_fits() {
    // Less than 2 MiB of RAM above the kernel.
    assert!(mm::init(RAM_BASE + ASSUMED_RAM - 0x10_0000).is_err());
}

#[test]
fn the_heap_serves_allocations_after_bring_up() {
    let mut m = mm::init(0x4008_6000).unwrap();
    let p = m.heap.allocate(1024 * 8, 8).unwrap();
    assert_eq!(p as u64, m.heap_start);
    m.heap.dealloc(p, 1024 * 8, 8);
    assert_eq!(m.heap.used(), 0);
}
