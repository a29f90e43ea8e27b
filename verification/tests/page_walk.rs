use jumpstart::cpu_bits::{PTE_A, PTE_D, PTE_R, PTE_V, PTE_W, PTE_X};
use jumpstart::tablewalk::{
    mmu_hsmode_attributes, mmu_smode_attributes, translate, translate_GPA, translate_GVA, translate_VA,
    translate_with_modes, TranslationInfo, WalkFault,
};

fn blank_info() -> TranslationInfo {
    TranslationInfo {
        va: 0,
        pa: 0,
        pte_address: [0; 4],
        pte_value: [0; 4],
        xatp_mode: 0,
        levels_traversed: 0,
        walk_successful: 0,
        pbmt_mode: 0,
    }
}

const SV39_SATP: u64 = (8u64 << 60) | 0x80000;
const VA: u64 = 0x4020_3456;
const LEAF: u64 = (1u64 << 61) | (0x90000u64 << 10) | PTE_V | PTE_R | PTE_W | PTE_A | PTE_D;

/// A three-level Sv39 mapping of `VA` to physical page 0x90000.
fn sv39_tables(addr: u64) -> u64 {
    match addr {
        0x8000_0008 => (0x80001u64 << 10) | PTE_V,
        0x8000_1008 => (0x80002u64 << 10) | PTE_V,
        0x8000_2018 => LEAF,
        _ => 0,
    }
}

#[test]
fn sv39_three_level_walk() {
    let mut info = blank_info();
    let r = translate_VA(SV39_SATP, VA, sv39_tables, &mut info);
    assert_eq!(r, Ok(()));
    assert_eq!(info.va, VA);
    assert_eq!(info.xatp_mode, 8);
    assert_eq!(info.levels_traversed, 3);
    assert_eq!(info.walk_successful, 1);
    assert_eq!(info.pte_address, [0x8000_0008, 0x8000_1008, 0x8000_2018, 0]);
    assert_eq!(info.pte_value, [(0x80001u64 << 10) | PTE_V, (0x80002u64 << 10) | PTE_V, LEAF, 0]);
    assert_eq!(info.pa, 0x9000_0456);
    assert_eq!(info.pbmt_mode, 1);
}

#[test]
fn translation_keeps_page_offset() {
    let mut info = blank_info();
    for offset in [0u64, 1, 0x456, 0xfff] {
        let va = (VA & !0xfff) | offset;
        assert_eq!(translate_VA(SV39_SATP, va, sv39_tables, &mut info), Ok(()));
        assert_eq!(info.pa & 0xfff, va & 0xfff);
    }
}

#[test]
fn guest_virtual_walk_uses_supervisor_layouts() {
    let mut info = blank_info();
    assert_eq!(translate_GVA(SV39_SATP, VA, sv39_tables, &mut info), Ok(()));
    assert_eq!(info.pa, 0x9000_0456);
}

#[test]
fn invalid_entry_ends_walk_without_translation() {
    let mut info = blank_info();
    info.pbmt_mode = 3;
    let r = translate_VA(SV39_SATP, VA, |_a: u64| 0u64, &mut info);
    assert_eq!(r, Ok(()));
    assert_eq!(info.walk_successful, 0);
    assert_eq!(info.levels_traversed, 1);
    assert_eq!(info.pa, 0);
    assert_eq!(info.pte_address, [0x8000_0008, 0, 0, 0]);
    assert_eq!(info.pbmt_mode, 3);
}

#[test]
fn superpage_leaf_at_first_level() {
    let mut info = blank_info();
    let leaf = (0x80000u64 << 10) | PTE_V | PTE_R | PTE_X;
    let r = translate_VA(SV39_SATP, VA, move |_a: u64| leaf, &mut info);
    assert_eq!(r, Ok(()));
    assert_eq!(info.levels_traversed, 1);
    assert_eq!(info.pa, 0x8000_0456);
    assert_eq!(info.pbmt_mode, 0);
}

#[test]
fn write_without_read_is_a_fault() {
    let mut info = blank_info();
    let r = translate_VA(SV39_SATP, VA, |_a: u64| PTE_V | PTE_W, &mut info);
    assert_eq!(r, Err(WalkFault::WriteWithoutRead));
}

#[test]
fn accessed_non_leaf_is_a_fault() {
    let mut info = blank_info();
    let r = translate_VA(SV39_SATP, VA, |_a: u64| PTE_V | PTE_A, &mut info);
    assert_eq!(r, Err(WalkFault::NonLeafAccessed));
}

#[test]
fn dirty_non_leaf_is_a_fault() {
    let mut info = blank_info();
    let r = translate_VA(SV39_SATP, VA, |_a: u64| PTE_V | PTE_D, &mut info);
    assert_eq!(r, Err(WalkFault::NonLeafDirty));
}

#[test]
fn running_out_of_levels_is_a_fault() {
    let mut info = blank_info();
    let r = translate_VA(SV39_SATP, VA, |_a: u64| (0x80001u64 << 10) | PTE_V, &mut info);
    assert_eq!(r, Err(WalkFault::OutOfLevels));
}

#[test]
fn unsupported_mode_leaves_info_alone() {
    let mut info = blank_info();
    info.pa = 77;
    assert_eq!(translate_VA(0, VA, sv39_tables, &mut info), Err(WalkFault::UnsupportedMode));
    assert_eq!(info.pa, 77);
    assert_eq!(info.levels_traversed, 0);
    assert_eq!(translate_VA(10u64 << 60, VA, sv39_tables, &mut info), Err(WalkFault::UnsupportedMode));
    assert_eq!(translate_GPA(0, VA, sv39_tables, &mut info), Err(WalkFault::UnsupportedMode));
}

#[test]
fn bare_mode_maps_address_to_itself() {
    let attrs = mmu_smode_attributes();
    let mut info = blank_info();
    let r = translate(0, &attrs[0], 0x1234_5678, sv39_tables, &mut info);
    assert_eq!(r, Ok(()));
    assert_eq!(info.pa, 0x1234_5678);
    assert_eq!(info.walk_successful, 1);
    assert_eq!(info.levels_traversed, 0);
    assert_eq!(info.xatp_mode, 0);
}

#[test]
fn sv48_walk_reads_four_levels() {
    let satp: u64 = (9u64 << 60) | 0x100;
    // va: vpn3 = 1, vpn2 = 2, vpn1 = 3, vpn0 = 4, offset 0x10.
    let va: u64 = (1u64 << 39) | (2u64 << 30) | (3u64 << 21) | (4u64 << 12) | 0x10;
    let tables = |a: u64| -> u64 {
        match a {
            0x10_0008 => (0x101u64 << 10) | PTE_V,
            0x10_1010 => (0x102u64 << 10) | PTE_V,
            0x10_2018 => (0x103u64 << 10) | PTE_V,
            0x10_3020 => (0x555u64 << 10) | PTE_V | PTE_R,
            _ => 0,
        }
    };
    let mut info = blank_info();
    assert_eq!(translate_VA(satp, va, tables, &mut info), Ok(()));
    assert_eq!(info.levels_traversed, 4);
    assert_eq!(info.pte_address, [0x10_0008, 0x10_1010, 0x10_2018, 0x10_3020]);
    assert_eq!(info.pa, 0x55_5010);
}

#[test]
fn guest_physical_walk_uses_wider_root_index() {
    let hgatp: u64 = (8u64 << 60) | 0x200;
    // Bit 40 lies in the Sv39x4 root index but not in the Sv39 one.
    let gpa: u64 = (1u64 << 40) | 0x123;
    let root_entry = 0x20_0000u64 + (0x400u64 * 8);
    let tables = move |a: u64| -> u64 {
        if a == root_entry { (0x777u64 << 10) | PTE_V | PTE_R } else { 0 }
    };
    let mut info = blank_info();
    assert_eq!(translate_GPA(hgatp, gpa, tables, &mut info), Ok(()));
    assert_eq!(info.pte_address[0], root_entry);
    assert_eq!(info.pa, 0x77_7123);
}

#[test]
fn first_matching_layout_is_used() {
    let attrs = mmu_hsmode_attributes();
    let mut info = blank_info();
    let r = translate_with_modes(SV39_SATP, &attrs, VA, |_a: u64| 0u64, &mut info);
    assert_eq!(r, Ok(()));
    assert_eq!(info.walk_successful, 0);
    let none: [jumpstart::tablewalk::MmuModeAttribute; 0] = [];
    assert_eq!(translate_with_modes(SV39_SATP, &none, VA, sv39_tables, &mut info), Err(WalkFault::UnsupportedMode));
}

#[test]
fn sv39_walk_of_low_address() {
    let attrs = mmu_smode_attributes();
    let tables = |a: u64| -> u64 {
        match a {
            0x8000_0000 => 0x2000_0401,
            0x8000_1000 => 0x2000_0801,
            0x8000_2008 => 0x48D_14CF,
            _ => 0,
        }
    };
    let mut info = blank_info();
    assert_eq!(translate(0x8000_0000_0008_0000, &attrs[0], 0x1234, tables, &mut info), Ok(()));
    assert_eq!(info.pa, 0x1234_5234);
    assert_eq!((info.walk_successful, info.levels_traversed, info.xatp_mode, info.pbmt_mode), (1, 3, 8, 0));
    assert_eq!(info.va, 0x1234);
    assert_eq!(info.pte_address, [0x8000_0000, 0x8000_1000, 0x8000_2008, 0]);
    assert_eq!(info.pte_value, [0x2000_0401, 0x2000_0801, 0x48D_14CF, 0]);
}
