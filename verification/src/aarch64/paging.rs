//! AArch64 translation-table descriptors: 4 KiB granule, 39-bit virtual address space, three
//! levels (L1 maps 1 GiB blocks, L2 maps 2 MiB blocks, L3 maps 4 KiB pages).
//!
//! A descriptor with one wrong bit does not raise an error, it silently maps the wrong thing, so
//! every encoding here carries the bit positions it promises in its contract.

use vstd::prelude::*;

verus! {

/// Bytes spanned by one entry at each level, with a 4 KiB granule.
pub const L1_BLOCK_SIZE: u64 = 1 << 30;
pub const L2_BLOCK_SIZE: u64 = 1 << 21;
pub const L3_PAGE_SIZE: u64 = 1 << 12;

/// Entries per table: 4 KiB / 8 bytes per descriptor.
pub const ENTRIES: usize = 512;

/// `MAIR_EL1` index for device memory (Device-nGnRnE).
pub const ATTR_DEVICE: u64 = 0;
/// `MAIR_EL1` index for ordinary write-back cacheable RAM.
pub const ATTR_NORMAL: u64 = 1;

/// `MAIR_EL1` value pairing the two indices above: 0x00 Device-nGnRnE, 0xFF Normal write-back.
pub const MAIR_VALUE: u64 = 0xFF00;

/// Valid bit.
pub const VALID: u64 = 1;
/// Bit 1: "table" at L1/L2, "page" at L3.
pub const TABLE_OR_PAGE: u64 = 2;
/// Access flag, bit 10. Every mapping made here sets it.
pub const AF: u64 = 0x400;
/// Privileged execute-never, bit 53.
pub const PXN: u64 = 0x20_0000_0000_0000;
/// Unprivileged execute-never, bit 54.
pub const UXN: u64 = 0x40_0000_0000_0000;
/// Output address bits [47:12].
pub const ADDR_MASK: u64 = 0x0000_FFFF_FFFF_F000;

/// Access permission field values (bits [7:6]), already shifted into place.
pub const AP_EL1_RW: u64 = 0x00;
pub const AP_BOTH_RW: u64 = 0x40;
pub const AP_EL1_RO: u64 = 0x80;
pub const AP_BOTH_RO: u64 = 0xC0;

/// Shareability field values (bits [9:8]), already shifted into place.
pub const SH_INNER: u64 = 0x300;
pub const SH_OUTER: u64 = 0x200;

/// Who may touch a mapping, and how.
#[derive(Debug, Clone, Copy, PartialEq, Eq)]
pub enum Access {
    /// Kernel read/write, never executable. Data.
    KernelData,
    /// Kernel read-only and executable at EL1. Code.
    KernelCode,
    /// Kernel read-only, never executable. Constants.
    KernelReadOnly,
    /// Kernel read/write and executable at EL1, never at EL0. Only the first identity map,
    /// which must stay writable for the stack and executable for the next instruction fetch.
    KernelRwx,
    /// User read-only and executable at EL0; readable but never executable by the kernel.
    UserCode,
    /// User read/write, never executable at either level.
    UserData,
}

/// The attribute bits an `Access` contributes to a leaf descriptor.
pub open spec fn access_bits(access: Access) -> u64 {
    match access {
        Access::KernelData => AP_EL1_RW | PXN | UXN,
        Access::KernelCode => AP_EL1_RO | UXN,
        Access::KernelReadOnly => AP_EL1_RO | PXN | UXN,
        Access::KernelRwx => AP_EL1_RW | UXN,
        Access::UserCode => AP_BOTH_RO | PXN,
        Access::UserData => AP_BOTH_RW | PXN | UXN,
    }
}

impl Access {
    fn bits(self) -> (r: u64)
        ensures
            r == access_bits(self),
    {
        match self {
            Access::KernelData => AP_EL1_RW | PXN | UXN,
            Access::KernelCode => AP_EL1_RO | UXN,
            Access::KernelReadOnly => AP_EL1_RO | PXN | UXN,
            Access::KernelRwx => AP_EL1_RW | UXN,
            Access::UserCode => AP_BOTH_RO | PXN,
            Access::UserData => AP_BOTH_RW | PXN | UXN,
        }
    }
}

/// What kind of memory a mapping describes.
#[derive(Debug, Clone, Copy, PartialEq, Eq)]
pub enum MemoryKind {
    /// Ordinary RAM: cacheable, inner-shareable.
    Normal,
    /// MMIO: uncached, strongly ordered, outer-shareable.
    Device,
}

/// The attribute-index and shareability bits a `MemoryKind` contributes.
pub open spec fn kind_bits(kind: MemoryKind) -> u64 {
    match kind {
        MemoryKind::Normal => (ATTR_NORMAL << 2u64) | SH_INNER,
        MemoryKind::Device => (ATTR_DEVICE << 2u64) | SH_OUTER,
    }
}

impl MemoryKind {
    fn bits(self) -> (r: u64)
        ensures
            r == kind_bits(self),
    {
        match self {
            MemoryKind::Normal => (ATTR_NORMAL << 2u64) | SH_INNER,
            MemoryKind::Device => (ATTR_DEVICE << 2u64) | SH_OUTER,
        }
    }
}

/// The block descriptor `block` builds: address bits of `pa`, the kind and access attributes,
/// the access flag and the valid bit.
pub open spec fn block_descriptor(pa: u64, kind: MemoryKind, access: Access) -> u64 {
    (pa & ADDR_MASK) | kind_bits(kind) | access_bits(access) | AF | VALID
}

/// A block descriptor for L1 or L2: one entry covering a large, naturally aligned span.
pub fn block(pa: u64, kind: MemoryKind, access: Access) -> (d: u64)
    ensures
        d == block_descriptor(pa, kind, access),
{
    (pa & ADDR_MASK) | kind.bits() | access.bits() | AF | VALID
}

/// A page descriptor for L3: a block descriptor with bit 1 set.
pub fn page(pa: u64, kind: MemoryKind, access: Access) -> (d: u64)
    ensures
        d == block_descriptor(pa, kind, access) | TABLE_OR_PAGE,
{
    block(pa, kind, access) | TABLE_OR_PAGE
}

/// A descriptor pointing at the next-level table. Attributes are carried by the leaf.
pub fn table(next_table_pa: u64) -> (d: u64)
    ensures
        d == (next_table_pa & ADDR_MASK) | TABLE_OR_PAGE | VALID,
{
    (next_table_pa & ADDR_MASK) | TABLE_OR_PAGE | VALID
}

/// Whether a descriptor's valid bit is set.
pub fn is_valid(descriptor: u64) -> (b: bool)
    ensures
        b == (descriptor & VALID != 0),
{
    descriptor & VALID != 0
}

/// The address a descriptor points at, whether a block of memory or the next table.
pub fn output_address(descriptor: u64) -> (a: u64)
    ensures
        a == descriptor & ADDR_MASK,
{
    descriptor & ADDR_MASK
}

/// The bit position at which the table index for `level` starts: 30, 21, or 12 for any other.
pub open spec fn level_shift(level: u8) -> u64 {
    if level == 1 {
        30
    } else if level == 2 {
        21
    } else {
        12
    }
}

/// Index into the table at `level` (1, 2 or 3) for a virtual address: nine bits of `va`
/// starting at the level's shift.
pub fn index_for(va: u64, level: u8) -> (i: usize)
    ensures
        i == (va >> level_shift(level)) % 512,
        i < ENTRIES,
{
    let shift: u64 = if level == 1 {
        30
    } else if level == 2 {
        21
    } else {
        12
    };
    let v: u64 = (va >> shift) & 511;
    assert(v == (va >> shift) % 512 && v < 512) by (bit_vector)
        requires
            v == (va >> shift) & 511,
    ;
    v as usize
}

/// The `TCR_EL1` value `tcr_el1` produces: `T0SZ` = 64 − `va_bits`, cacheable inner-shareable
/// walks, 4 KiB granule, TTBR1 walks disabled, and `pa_range` in `IPS` (bits 32 and up).
pub open spec fn tcr_value(va_bits: u64, pa_range: u64) -> u64 {
    ((64 - va_bits) as u64) | 0x100 | 0x400 | 0x3000 | 0x80_0000 | ((pa_range << 32u64) as u64)
}

/// `TCR_EL1` for the layout above.
pub fn tcr_el1(va_bits: u64, pa_range: u64) -> (t: u64)
    requires
        va_bits <= 64,
    ensures
        t == tcr_value(va_bits, pa_range),
{
    // IRGN0/ORGN0: write-back write-allocate walks; SH0: inner shareable; TG0 = 0b00 selects
    // the 4 KiB granule; EPD1 disables TTBR1 walks entirely.
    (64 - va_bits) | 0x100 | 0x400 | 0x3000 | 0x80_0000 | (pa_range << 32u64)
}

/// The access-permission field (bits [7:6]) an `Access` selects: 0b00 EL1 read/write,
/// 0b01 read/write at both levels, 0b10 EL1 read-only, 0b11 read-only at both levels.
pub open spec fn ap_field(access: Access) -> u64 {
    match access {
        Access::KernelData | Access::KernelRwx => 0,
        Access::UserData => 1,
        Access::KernelCode | Access::KernelReadOnly => 2,
        Access::UserCode => 3,
    }
}

/// Whether EL1 may never execute from a mapping with this access.
pub open spec fn privileged_execute_never(access: Access) -> bool {
    !(access == Access::KernelCode || access == Access::KernelRwx)
}

/// Whether EL0 may never execute from a mapping with this access.
pub open spec fn unprivileged_execute_never(access: Access) -> bool {
    access != Access::UserCode
}

/// The `MAIR_EL1` index a memory kind selects.
pub open spec fn attr_index(kind: MemoryKind) -> u64 {
    match kind {
        MemoryKind::Normal => ATTR_NORMAL,
        MemoryKind::Device => ATTR_DEVICE,
    }
}

/// The shareability field (bits [9:8]): inner (0b11) for RAM, outer (0b10) for MMIO.
pub open spec fn sh_field(kind: MemoryKind) -> u64 {
    match kind {
        MemoryKind::Normal => 3,
        MemoryKind::Device => 2,
    }
}

proof fn lemma_access_bits(access: Access)
    ensures
        access_bits(access) & !0x60_0000_0000_00C0u64 == 0,
        (access_bits(access) >> 6u64) & 3 == ap_field(access),
        (access_bits(access) & PXN != 0) == privileged_execute_never(access),
        (access_bits(access) & UXN != 0) == unprivileged_execute_never(access),
{
    match access {
        Access::KernelData => {
            let a = access_bits(access);
            assert(a & !0x60_0000_0000_00C0u64 == 0 && (a >> 6u64) & 3 == 0 && a & PXN != 0
                && a & UXN != 0) by (bit_vector)
                requires
                    a == 0x00u64 | 0x20_0000_0000_0000u64 | 0x40_0000_0000_0000u64,
            ;
        },
        Access::KernelCode => {
            let a = access_bits(access);
            assert(a & !0x60_0000_0000_00C0u64 == 0 && (a >> 6u64) & 3 == 2 && a & PXN == 0
                && a & UXN != 0) by (bit_vector)
                requires
                    a == 0x80u64 | 0x40_0000_0000_0000u64,
            ;
        },
        Access::KernelReadOnly => {
            let a = access_bits(access);
            assert(a & !0x60_0000_0000_00C0u64 == 0 && (a >> 6u64) & 3 == 2 && a & PXN != 0
                && a & UXN != 0) by (bit_vector)
                requires
                    a == 0x80u64 | 0x20_0000_0000_0000u64 | 0x40_0000_0000_0000u64,
            ;
        },
        Access::KernelRwx => {
            let a = access_bits(access);
            assert(a & !0x60_0000_0000_00C0u64 == 0 && (a >> 6u64) & 3 == 0 && a & PXN == 0
                && a & UXN != 0) by (bit_vector)
                requires
                    a == 0x00u64 | 0x40_0000_0000_0000u64,
            ;
        },
        Access::UserCode => {
            let a = access_bits(access);
            assert(a & !0x60_0000_0000_00C0u64 == 0 && (a >> 6u64) & 3 == 3 && a & PXN != 0
                && a & UXN == 0) by (bit_vector)
                requires
                    a == 0xC0u64 | 0x20_0000_0000_0000u64,
            ;
        },
        Access::UserData => {
            let a = access_bits(access);
            assert(a & !0x60_0000_0000_00C0u64 == 0 && (a >> 6u64) & 3 == 1 && a & PXN != 0
                && a & UXN != 0) by (bit_vector)
                requires
                    a == 0x40u64 | 0x20_0000_0000_0000u64 | 0x40_0000_0000_0000u64,
            ;
        },
    }
}

proof fn lemma_kind_bits(kind: MemoryKind)
    ensures
        kind_bits(kind) & !0x31Cu64 == 0,
        (kind_bits(kind) >> 2u64) & 7 == attr_index(kind),
        (kind_bits(kind) >> 8u64) & 3 == sh_field(kind),
{
    match kind {
        MemoryKind::Normal => {
            let k = kind_bits(kind);
            assert(k & !0x31Cu64 == 0 && (k >> 2u64) & 7 == 1 && (k >> 8u64) & 3 == 3)
                by (bit_vector)
                requires
                    k == (1u64 << 2u64) | 0x300u64,
            ;
        },
        MemoryKind::Device => {
            let k = kind_bits(kind);
            assert(k & !0x31Cu64 == 0 && (k >> 2u64) & 7 == 0 && (k >> 8u64) & 3 == 2)
                by (bit_vector)
                requires
                    k == (0u64 << 2u64) | 0x200u64,
            ;
        },
    }
}

proof fn lemma_leaf_layout(pa: u64, k: u64, a: u64, d: u64, p: u64)
    by (bit_vector)
    requires
        k & !0x31Cu64 == 0,
        a & !0x60_0000_0000_00C0u64 == 0,
        d == (pa & 0x0000_FFFF_FFFF_F000u64) | k | a | 0x400u64 | 1u64,
        p == d | 2u64,
    ensures
        d & 0x0000_FFFF_FFFF_F000u64 == pa & 0x0000_FFFF_FFFF_F000u64,
        p & 0x0000_FFFF_FFFF_F000u64 == pa & 0x0000_FFFF_FFFF_F000u64,
        d & 1u64 != 0,
        p & 1u64 != 0,
        d & 0x400u64 != 0,
        p & 0x400u64 != 0,
        d & 2u64 == 0,
        p & 2u64 != 0,
        (d >> 2u64) & 7 == (k >> 2u64) & 7,
        (p >> 2u64) & 7 == (k >> 2u64) & 7,
        (d >> 6u64) & 3 == (a >> 6u64) & 3,
        (p >> 6u64) & 3 == (a >> 6u64) & 3,
        (d >> 8u64) & 3 == (k >> 8u64) & 3,
        (p >> 8u64) & 3 == (k >> 8u64) & 3,
        d & 0x20_0000_0000_0000u64 == a & 0x20_0000_0000_0000u64,
        p & 0x20_0000_0000_0000u64 == a & 0x20_0000_0000_0000u64,
        d & 0x40_0000_0000_0000u64 == a & 0x40_0000_0000_0000u64,
        p & 0x40_0000_0000_0000u64 == a & 0x40_0000_0000_0000u64,
{
}

/// Every leaf descriptor, block or page, carries its address unchanged in bits [47:12], is
/// valid, sets the access flag, selects the kind's `MAIR_EL1` index and shareability, and the
/// access's permission and execute-never bits. A block clears bit 1; a page sets it.
pub proof fn leaf_descriptor_layout(pa: u64, kind: MemoryKind, access: Access)
    ensures
        ({
            let d = block_descriptor(pa, kind, access);
            let p = d | TABLE_OR_PAGE;
            &&& d & ADDR_MASK == pa & ADDR_MASK
            &&& p & ADDR_MASK == pa & ADDR_MASK
            &&& d & VALID != 0 && p & VALID != 0
            &&& d & AF != 0 && p & AF != 0
            &&& d & TABLE_OR_PAGE == 0 && p & TABLE_OR_PAGE != 0
            &&& (d >> 2u64) & 7 == attr_index(kind) && (p >> 2u64) & 7 == attr_index(kind)
            &&& (d >> 8u64) & 3 == sh_field(kind) && (p >> 8u64) & 3 == sh_field(kind)
            &&& (d >> 6u64) & 3 == ap_field(access) && (p >> 6u64) & 3 == ap_field(access)
            &&& (d & PXN != 0) == privileged_execute_never(access)
            &&& (p & PXN != 0) == privileged_execute_never(access)
            &&& (d & UXN != 0) == unprivileged_execute_never(access)
            &&& (p & UXN != 0) == unprivileged_execute_never(access)
        }),
{
    lemma_access_bits(access);
    lemma_kind_bits(kind);
    let k = kind_bits(kind);
    let a = access_bits(access);
    let d = block_descriptor(pa, kind, access);
    lemma_leaf_layout(pa, k, a, d, d | TABLE_OR_PAGE);
}

/// A table descriptor is valid, has bit 1 set, and carries the next table's address unchanged.
pub proof fn table_descriptor_layout(next: u64)
    ensures
        ({
            let t = (next & ADDR_MASK) | TABLE_OR_PAGE | VALID;
            &&& t & ADDR_MASK == next & ADDR_MASK
            &&& t & VALID != 0
            &&& t & TABLE_OR_PAGE != 0
        }),
{
    let t = (next & ADDR_MASK) | TABLE_OR_PAGE | VALID;
    assert(t & 0x0000_FFFF_FFFF_F000u64 == next & 0x0000_FFFF_FFFF_F000u64 && t & 1u64 != 0
        && t & 2u64 != 0) by (bit_vector)
        requires
            t == (next & 0x0000_FFFF_FFFF_F000u64) | 2u64 | 1u64,
    ;
}

/// No mapping this module can describe is writable and executable at the same level, except
/// `KernelRwx`, which is writable and executable at EL1 only; no kernel-writable mapping is
/// executable at EL0.
pub proof fn write_xor_execute(access: Access)
    ensures
        (ap_field(access) == 0 || ap_field(access) == 1) && access != Access::KernelRwx
            ==> privileged_execute_never(access) && unprivileged_execute_never(access),
        ap_field(access) == 0 || ap_field(access) == 1 ==> unprivileged_execute_never(access),
        !unprivileged_execute_never(access) ==> ap_field(access) == 3,
{
}

/// The `MAIR_EL1` value holds Device-nGnRnE (0x00) at the device index and write-back Normal
/// memory (0xFF) at the normal index.
pub proof fn mair_layout()
    ensures
        (MAIR_VALUE >> (8 * ATTR_DEVICE) as u64) & 0xFF == 0,
        (MAIR_VALUE >> (8 * ATTR_NORMAL) as u64) & 0xFF == 0xFF,
{
    assert((0xFF00u64 >> 0u64) & 0xFF == 0 && (0xFF00u64 >> 8u64) & 0xFF == 0xFF) by (bit_vector);
}

/// `tcr_el1(39, ..)` encodes `T0SZ` = 25 and the fixed fields: cacheable walks, the 4 KiB
/// granule, and TTBR1 disabled.
pub proof fn tcr_layout(pa_range: u64)
    requires
        pa_range < 8,
    ensures
        ({
            let t = tcr_value(39, pa_range);
            &&& t & 0x3F == 25
            &&& (t >> 8u64) & 3 == 1
            &&& (t >> 10u64) & 3 == 1
            &&& (t >> 12u64) & 3 == 3
            &&& (t >> 14u64) & 3 == 0
            &&& t & 0x80_0000 != 0
            &&& (t >> 32u64) & 7 == pa_range
        }),
{
    let t = tcr_value(39, pa_range);
    assert(t & 0x3F == 25 && (t >> 8u64) & 3 == 1 && (t >> 10u64) & 3 == 1 && (t >> 12u64) & 3
        == 3 && (t >> 14u64) & 3 == 0 && t & 0x80_0000 != 0 && (t >> 32u64) & 7 == pa_range)
        by (bit_vector)
        requires
            pa_range < 8,
            t == 25u64 | 0x100u64 | 0x400u64 | 0x3000u64 | 0x80_0000u64 | (pa_range << 32u64),
    ;
}

} // verus!
