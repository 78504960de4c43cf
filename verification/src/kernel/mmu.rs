//! The identity map the kernel turns translation on with, computed from where the linker put the
//! kernel's sections: device memory below RAM, 2 MiB blocks of data across RAM, and the 2 MiB
//! holding the kernel image refined into 4 KiB pages with the narrowest permissions each section
//! tolerates. Writing the tables, and the register sequence that switches translation on, are
//! the caller's.

use vstd::prelude::*;

use crate::aarch64::paging::{
    Access, ADDR_MASK, ENTRIES, L1_BLOCK_SIZE, L2_BLOCK_SIZE, L3_PAGE_SIZE, MemoryKind,
    TABLE_OR_PAGE, VALID, PXN, block, block_descriptor, index_for, page, table,
    leaf_descriptor_layout,
};

verus! {

/// Where RAM begins on this board.
pub const RAM_BASE: u64 = 0x4000_0000;

/// How much RAM the identity map covers: one L1 entry's worth.
pub const MAPPED_RAM: u64 = 0x4000_0000;

/// Where the linker placed the kernel image and its sections.
#[derive(Debug, Clone, Copy, PartialEq, Eq, Structural)]
pub struct KernelLayout {
    pub kernel_start: u64,
    pub text_start: u64,
    pub text_end: u64,
    pub rodata_start: u64,
    pub rodata_end: u64,
    pub data_start: u64,
    pub kernel_end: u64,
}

/// Whether `a` is on a 4 KiB boundary.
pub open spec fn page_aligned(a: u64) -> bool {
    a % 4096 == 0
}

/// A layout the map can describe: the sections on page boundaries and in order, all within the
/// 2 MiB at the start of RAM that the kernel's L3 table covers.
pub open spec fn layout_ok(l: KernelLayout) -> bool {
    &&& page_aligned(l.text_start) && page_aligned(l.text_end)
    &&& page_aligned(l.rodata_start) && page_aligned(l.rodata_end)
    &&& page_aligned(l.data_start) && page_aligned(l.kernel_end)
    &&& RAM_BASE <= l.kernel_start <= l.text_start <= l.text_end <= l.rodata_start
    &&& l.rodata_start <= l.rodata_end <= l.data_start <= l.kernel_end
    &&& l.kernel_end <= RAM_BASE + L2_BLOCK_SIZE
}

/// A descriptor pointing at the next-level table at `pa`.
pub open spec fn table_descriptor(pa: u64) -> u64 {
    (pa & ADDR_MASK) | TABLE_OR_PAGE | VALID
}

/// L1 entry `k`: device memory for the gigabyte below RAM, the L2 table for RAM, nothing else.
pub open spec fn l1_entry(l2_pa: u64, k: int) -> u64 {
    if k == 0 {
        block_descriptor(0, MemoryKind::Device, Access::KernelData)
    } else if k == 1 {
        table_descriptor(l2_pa)
    } else {
        0
    }
}

/// L2 entry `k`: the L3 table for the first 2 MiB of RAM, 2 MiB blocks of data for the rest.
pub open spec fn l2_entry(l3_pa: u64, k: int) -> u64 {
    if k == 0 {
        table_descriptor(l3_pa)
    } else {
        block_descriptor(
            (RAM_BASE + k * L2_BLOCK_SIZE) as u64,
            MemoryKind::Normal,
            Access::KernelData,
        )
    }
}

/// The address L3 entry `k` maps.
pub open spec fn l3_address(k: int) -> u64 {
    (RAM_BASE + k * L3_PAGE_SIZE) as u64
}

/// L3 entry `k`: code pages executable and read-only, read-only data read-only, and everything
/// from the data section to the end of the 2 MiB read/write; pages below the text section
/// unmapped.
pub open spec fn l3_entry(l: KernelLayout, k: int) -> u64 {
    let pa = l3_address(k);
    if l.text_start <= pa < l.text_end {
        block_descriptor(pa, MemoryKind::Normal, Access::KernelCode) | TABLE_OR_PAGE
    } else if l.rodata_start <= pa < l.rodata_end {
        block_descriptor(pa, MemoryKind::Normal, Access::KernelReadOnly) | TABLE_OR_PAGE
    } else if l.data_start <= pa {
        block_descriptor(pa, MemoryKind::Normal, Access::KernelData) | TABLE_OR_PAGE
    } else {
        0
    }
}

/// The sizes a 4 KiB granule gives each level, as numbers.
proof fn lemma_sizes()
    ensures
        L1_BLOCK_SIZE == 0x4000_0000,
        L2_BLOCK_SIZE == 0x20_0000,
        L3_PAGE_SIZE == 0x1000,
{
    assert(1u64 << 30u64 == 0x4000_0000u64) by (bit_vector);
    assert(1u64 << 21u64 == 0x20_0000u64) by (bit_vector);
    assert(1u64 << 12u64 == 0x1000u64) by (bit_vector);
}

/// The L3 index of a page-aligned address in the first 2 MiB of RAM is its page number there.
proof fn lemma_l3_index(pa: u64)
    requires
        RAM_BASE <= pa < RAM_BASE + 0x20_0000,
        page_aligned(pa),
    ensures
        (pa >> 12u64) % 512 == (pa - RAM_BASE) / 4096,
        l3_address((pa - RAM_BASE) / 4096) == pa,
{
    lemma_sizes();
    assert((pa >> 12u64) % 512 == (pa - 0x4000_0000u64) / 4096 && ((pa - 0x4000_0000u64) / 4096)
        * 4096 == pa - 0x4000_0000u64) by (bit_vector)
        requires
            0x4000_0000u64 <= pa < 0x4020_0000u64,
            pa % 4096 == 0,
    ;
}

/// A table of `ENTRIES` empty descriptors.
fn empty_table() -> (t: Vec<u64>)
    ensures
        t@.len() == ENTRIES,
        forall|k: int| 0 <= k < ENTRIES ==> #[trigger] t@[k] == 0,
{
    let mut t: Vec<u64> = Vec::new();
    while t.len() < ENTRIES
        invariant
            t@.len() <= ENTRIES,
            forall|k: int| 0 <= k < t@.len() ==> #[trigger] t@[k] == 0,
        decreases ENTRIES - t@.len(),
    {
        t.push(0);
    }
    t
}

/// Maps every page of `[start, end)` in the L3 table with `access`, leaving the rest alone.
fn map_pages(l3: &mut Vec<u64>, start: u64, end: u64, access: Access)
    requires
        old(l3)@.len() == ENTRIES,
        page_aligned(start),
        page_aligned(end),
        RAM_BASE <= start <= end <= RAM_BASE + L2_BLOCK_SIZE,
    ensures
        final(l3)@.len() == ENTRIES,
        forall|k: int|
            0 <= k < ENTRIES ==> #[trigger] final(l3)@[k] == if start <= l3_address(k) < end {
                block_descriptor(l3_address(k), MemoryKind::Normal, access) | TABLE_OR_PAGE
            } else {
                old(l3)@[k]
            },
{
    proof {
        lemma_sizes();
    }
    let mut pa = start;
    while pa < end
        invariant
            L2_BLOCK_SIZE == 0x20_0000,
            L3_PAGE_SIZE == 0x1000,
            l3@.len() == ENTRIES,
            page_aligned(start),
            page_aligned(end),
            page_aligned(pa),
            RAM_BASE <= start <= pa,
            start <= end <= RAM_BASE + L2_BLOCK_SIZE,
            pa <= end,
            forall|k: int|
                0 <= k < ENTRIES ==> #[trigger] l3@[k] == if start <= l3_address(k) < pa {
                    block_descriptor(l3_address(k), MemoryKind::Normal, access) | TABLE_OR_PAGE
                } else {
                    old(l3)@[k]
                },
        decreases end - pa,
    {
        let index = index_for(pa, 3);
        proof {
            lemma_l3_index(pa);
        }
        let d = page(pa, MemoryKind::Normal, access);
        l3.set(index, d);
        pa = pa + L3_PAGE_SIZE;
        assert forall|k: int| 0 <= k < ENTRIES implies #[trigger] l3@[k] == if start <= l3_address(
            k,
        ) < pa {
            block_descriptor(l3_address(k), MemoryKind::Normal, access) | TABLE_OR_PAGE
        } else {
            old(l3)@[k]
        } by {
            if k != index {
                assert(l3_address(k) != pa - L3_PAGE_SIZE);
            }
        }
    }
}

/// The three tables of the boot identity map, with the L2 and L3 tables to live at `l2_pa` and
/// `l3_pa`: L1, L2 and L3 in that order.
pub fn identity_map(layout: KernelLayout, l2_pa: u64, l3_pa: u64) -> (r: (
    Vec<u64>,
    Vec<u64>,
    Vec<u64>,
))
    requires
        layout_ok(layout),
    ensures
        r.0@.len() == ENTRIES && r.1@.len() == ENTRIES && r.2@.len() == ENTRIES,
        forall|k: int| 0 <= k < ENTRIES ==> #[trigger] r.0@[k] == l1_entry(l2_pa, k),
        forall|k: int| 0 <= k < ENTRIES ==> #[trigger] r.1@[k] == l2_entry(l3_pa, k),
        forall|k: int| 0 <= k < ENTRIES ==> #[trigger] r.2@[k] == l3_entry(layout, k),
{
    proof {
        lemma_sizes();
    }
    let mut l1 = empty_table();
    l1.set(0, block(0, MemoryKind::Device, Access::KernelData));
    l1.set(1, table(l2_pa));

    let mut l2 = empty_table();
    l2.set(0, table(l3_pa));
    let mut i: usize = 1;
    while i < ENTRIES
        invariant
            L2_BLOCK_SIZE == 0x20_0000,
            1 <= i <= ENTRIES,
            l2@.len() == ENTRIES,
            l2@[0] == table_descriptor(l3_pa),
            forall|k: int| 1 <= k < i ==> #[trigger] l2@[k] == l2_entry(l3_pa, k),
        ensures
            i == ENTRIES,
            l2@.len() == ENTRIES,
            l2@[0] == table_descriptor(l3_pa),
            forall|k: int| 1 <= k < i ==> #[trigger] l2@[k] == l2_entry(l3_pa, k),
        decreases ENTRIES - i,
    {
        assert((i as u64) * 0x20_0000 < 0x4000_0000) by (nonlinear_arith)
            requires
                i < 512,
        ;
        let pa = RAM_BASE + (i as u64) * L2_BLOCK_SIZE;
        if pa >= RAM_BASE + MAPPED_RAM {
            break;
        }
        l2.set(i, block(pa, MemoryKind::Normal, Access::KernelData));
        i = i + 1;
    }

    let mut l3 = empty_table();
    map_pages(&mut l3, layout.text_start, layout.text_end, Access::KernelCode);
    map_pages(&mut l3, layout.rodata_start, layout.rodata_end, Access::KernelReadOnly);
    map_pages(&mut l3, layout.data_start, layout.kernel_end, Access::KernelData);
    map_pages(&mut l3, layout.kernel_end, RAM_BASE + L2_BLOCK_SIZE, Access::KernelData);
    (l1, l2, l3)
}

/// Whether a leaf descriptor lets EL1 write: access-permission bit 7 clear.
pub open spec fn el1_writable(d: u64) -> bool {
    (d >> 6u64) & 2 == 0
}

/// Whether a leaf descriptor lets EL1 execute: privileged execute-never clear.
pub open spec fn el1_executable(d: u64) -> bool {
    d & PXN == 0
}

/// The boot identity map is W^X: no block or page in it is both writable and executable at
/// EL1, and the only pages EL1 may execute are those of the text section.
pub proof fn lemma_identity_map_wx(layout: KernelLayout, l2_pa: u64, l3_pa: u64, k: int)
    requires
        layout_ok(layout),
        0 <= k < ENTRIES,
    ensures
        !el1_executable(l1_entry(l2_pa, 0)),
        k >= 1 ==> !el1_executable(l2_entry(l3_pa, k)),
        l3_entry(layout, k) != 0 ==> !(el1_writable(l3_entry(layout, k)) && el1_executable(
            l3_entry(layout, k),
        )),
        l3_entry(layout, k) != 0 && el1_executable(l3_entry(layout, k)) ==> layout.text_start
            <= l3_address(k) < layout.text_end,
{
    leaf_descriptor_layout(0, MemoryKind::Device, Access::KernelData);
    let pa2 = (RAM_BASE + k * L2_BLOCK_SIZE) as u64;
    leaf_descriptor_layout(pa2, MemoryKind::Normal, Access::KernelData);
    let pa = l3_address(k);
    leaf_descriptor_layout(pa, MemoryKind::Normal, Access::KernelCode);
    leaf_descriptor_layout(pa, MemoryKind::Normal, Access::KernelReadOnly);
    leaf_descriptor_layout(pa, MemoryKind::Normal, Access::KernelData);
    let d = l3_entry(layout, k);
    assert(((d >> 6u64) & 3 == 2) ==> ((d >> 6u64) & 2 != 0)) by (bit_vector);
}

/// The `SCTLR_EL1` value that turns translation on: `M` (bit 0), the data cache `C` (bit 2) and
/// the instruction cache `I` (bit 12) set, everything else as it was.
pub fn sctlr_with_translation(sctlr: u64) -> (r: u64)
    ensures
        r == sctlr | 1 | 4 | 0x1000,
{
    sctlr | 1 | 4 | 0x1000
}

/// Whether `SCTLR_EL1` says translation is on.
pub fn translation_enabled(sctlr: u64) -> (b: bool)
    ensures
        b == (sctlr & 1 != 0),
{
    sctlr & 1 != 0
}

} // verus!
