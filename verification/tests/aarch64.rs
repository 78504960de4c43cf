use oxygen::aarch64::paging::{
    block, index_for, is_valid, output_address, page, table, tcr_el1, Access, MemoryKind,
    ATTR_DEVICE, ATTR_NORMAL, L2_BLOCK_SIZE, L3_PAGE_SIZE, MAIR_VALUE,
};

const GIB: u64 = 1 << 30;

#[test]
fn every_mapping_sets_the_access_flag() {
    let af = 1 << 10;
    assert_ne!(block(GIB, MemoryKind::Normal, Access::KernelData) & af, 0);
    assert_ne!(page(GIB, MemoryKind::Normal, Access::KernelCode) & af, 0);
}

#[test]
fn descriptors_are_valid_and_carry_their_address() {
    let d = block(2 * GIB, MemoryKind::Normal, Access::KernelData);
    assert!(is_valid(d));
    assert_eq!(output_address(d), 2 * GIB);
}

#[test]
fn blocks_clear_bit1_and_pages_set_it() {
    let bit1 = 1 << 1;
    assert_eq!(block(GIB, MemoryKind::Normal, Access::KernelData) & bit1, 0);
    assert_ne!(page(GIB, MemoryKind::Normal, Access::KernelData) & bit1, 0);
    assert_ne!(table(GIB) & bit1, 0);
}

#[test]
fn device_and_normal_select_different_mair_indices() {
    let idx = |d: u64| (d >> 2) & 0b111;
    assert_eq!(idx(block(0, MemoryKind::Device, Access::KernelData)), ATTR_DEVICE);
    assert_eq!(idx(block(GIB, MemoryKind::Normal, Access::KernelData)), ATTR_NORMAL);
}

#[test]
fn mair_pairs_device_and_writeback_normal() {
    assert_eq!((MAIR_VALUE >> (8 * ATTR_DEVICE)) & 0xFF, 0x00);
    assert_eq!((MAIR_VALUE >> (8 * ATTR_NORMAL)) & 0xFF, 0xFF);
}

#[test]
fn data_is_never_executable() {
    let d = block(GIB, MemoryKind::Normal, Access::KernelData);
    assert_ne!(d & (1 << 53), 0, "PXN must be set on data");
    assert_ne!(d & (1 << 54), 0, "UXN must be set on data");
}

#[test]
fn kernel_code_is_executable_at_el1_but_not_el0() {
    let d = block(GIB, MemoryKind::Normal, Access::KernelCode);
    assert_eq!(d & (1 << 53), 0, "PXN must be clear on kernel code");
    assert_ne!(d & (1 << 54), 0, "UXN must still be set");
}

#[test]
fn rwx_is_writable_and_executable_at_el1() {
    let d = block(GIB, MemoryKind::Normal, Access::KernelRwx);
    assert_eq!((d >> 6) & 0b11, 0b00, "must be EL1 read/write");
    assert_eq!(d & (1 << 53), 0, "PXN must be clear so EL1 can execute it");
    assert_ne!(d & (1 << 54), 0, "UXN must be set: EL0 has no business here");
}

#[test]
fn kernel_data_is_writable_and_code_is_not() {
    let ap = |d: u64| (d >> 6) & 0b11;
    assert_eq!(ap(block(GIB, MemoryKind::Normal, Access::KernelData)), 0b00);
    assert_eq!(ap(block(GIB, MemoryKind::Normal, Access::KernelCode)), 0b10);
    assert_eq!(ap(block(GIB, MemoryKind::Normal, Access::KernelReadOnly)), 0b10);
}

#[test]
fn shareability_differs_between_ram_and_mmio() {
    let sh = |d: u64| (d >> 8) & 0b11;
    assert_eq!(sh(block(GIB, MemoryKind::Normal, Access::KernelData)), 0b11);
    assert_eq!(sh(block(0, MemoryKind::Device, Access::KernelData)), 0b10);
}

#[test]
fn attributes_never_corrupt_the_output_address() {
    for kind in [MemoryKind::Normal, MemoryKind::Device] {
        for access in [Access::KernelData, Access::KernelCode, Access::KernelReadOnly] {
            assert_eq!(output_address(block(3 * GIB, kind, access)), 3 * GIB);
        }
    }
}

#[test]
fn indices_select_the_right_slice_per_level() {
    assert_eq!(index_for(0, 1), 0);
    assert_eq!(index_for(GIB, 1), 1);
    assert_eq!(index_for(511 * GIB, 1), 511);
    assert_eq!(index_for(512 * GIB, 1), 0);

    assert_eq!(index_for(L2_BLOCK_SIZE, 2), 1);
    assert_eq!(index_for(L3_PAGE_SIZE, 3), 1);
}

#[test]
fn a_39_bit_space_is_encoded_as_t0sz_25() {
    let tcr = tcr_el1(39, 0b010);
    assert_eq!(tcr & 0x3F, 25);
    assert_eq!((tcr >> 14) & 0b11, 0b00);
    assert_ne!(tcr & (1 << 23), 0);
    assert_eq!((tcr >> 8) & 0b11, 0b01);
    assert_eq!((tcr >> 10) & 0b11, 0b01);
}

#[test]
fn table_descriptors_point_at_the_next_level() {
    let t = table(0x4020_1000);
    assert!(is_valid(t));
    assert_eq!(output_address(t), 0x4020_1000);
}

#[test]
fn an_invalid_descriptor_is_zero() {
    assert!(!is_valid(0));
}

#[test]
fn user_pages_are_reachable_from_el0() {
    let code = page(GIB, MemoryKind::Normal, Access::UserCode);
    let data = page(GIB, MemoryKind::Normal, Access::UserData);
    assert_eq!(code & (1 << 54), 0, "UXN must be clear on user code");
    assert_ne!(code & (1 << 53), 0, "PXN must be set on user code");
    assert_ne!(data & (1 << 54), 0);
    assert_ne!(data & (1 << 53), 0);
    assert_eq!((data >> 6) & 0b11, 0b01, "user data is read/write at both levels");
    assert_eq!((code >> 6) & 0b11, 0b11, "user code is read-only at both levels");
}
