use jumpstart::cpu_bits::{
    align_up_size, bit, bit_mask, get_field, set_field, MSTATUS_FS, MSTATUS_SPP, PTE_PPN_MASK, SATP64_MODE,
    SATP64_PPN, SEED_ENTROPY_MASK, SEED_OPST,
};
use jumpstart::utils::{extract_bits, place_bits, BitRange};

#[test]
fn bit_sets_one_position() {
    assert_eq!(bit(0), 1);
    assert_eq!(bit(5), 32);
    assert_eq!(bit(63), 0x8000_0000_0000_0000);
}

#[test]
fn bit_mask_covers_inclusive_range() {
    assert_eq!(bit_mask(4, 7), 0xF0);
    assert_eq!(bit_mask(0, 0), 1);
    assert_eq!(bit_mask(0, 63), u64::MAX);
    assert_eq!(bit_mask(60, 63), SATP64_MODE);
    assert_eq!(bit_mask(10, 53), PTE_PPN_MASK);
}

#[test]
fn get_field_shifts_field_down() {
    assert_eq!(get_field(0x1234_5678, 0xFF00), 0x56);
    let satp: u64 = (8u64 << 60) | 0x80000;
    assert_eq!(get_field(satp, SATP64_MODE), 8);
    assert_eq!(get_field(satp, SATP64_PPN), 0x80000);
    assert_eq!(get_field(0x8000_1234, SEED_OPST), 2);
    assert_eq!(get_field(0x8000_1234, SEED_ENTROPY_MASK), 0x1234);
    assert_eq!(get_field(0x6000, MSTATUS_FS), 3);
}

#[test]
fn set_field_replaces_only_the_field() {
    assert_eq!(set_field(0xFFFF, 0xF0, 0x3), 0xFF3F);
    assert_eq!(set_field(0, MSTATUS_SPP, 1), 0x100);
    // Bits of the value that do not fit the mask are dropped.
    assert_eq!(set_field(0, 0xF0, 0x1F), 0xF0);
    // An empty mask leaves the register alone.
    assert_eq!(set_field(0x1234, 0, 7), 0x1234);
}

#[test]
fn align_up_size_rounds_to_power_of_two() {
    assert_eq!(align_up_size(0x1001, 0x1000), 0x2000);
    assert_eq!(align_up_size(0x1000, 0x1000), 0x1000);
    assert_eq!(align_up_size(5, 1), 5);
    assert_eq!(align_up_size(0, 8), 0);
    assert_eq!(align_up_size(9, 8), 16);
    // The formula is applied as it is for sizes that are not powers of two.
    assert_eq!(align_up_size(10, 6), 10);
}

#[test]
fn get_field_reads_back_set_field() {
    let reg: u64 = 0xDEAD_BEEF_0123_4567;
    let mask = bit_mask(12, 19);
    let updated = set_field(reg, mask, 0xA5);
    assert_eq!(get_field(updated, mask), 0xA5);
}

#[test]
fn set_field_with_own_field_is_identity() {
    let reg: u64 = 0xDEAD_BEEF_0123_4567;
    let mask = bit_mask(20, 35);
    assert_eq!(set_field(reg, mask, get_field(reg, mask)), reg);
}

#[test]
fn set_field_twice_keeps_last_write() {
    let reg: u64 = 0x0F0F_0F0F_0F0F_0F0F;
    let mask = bit_mask(8, 15);
    assert_eq!(set_field(set_field(reg, mask, 0x11), mask, 0x22), set_field(reg, mask, 0x22));
}

#[test]
fn set_field_keeps_bits_outside_mask() {
    let reg: u64 = 0x0F0F_0F0F_0F0F_0F0F;
    let mask = bit_mask(8, 15);
    assert_eq!(set_field(reg, mask, 0xFF) & !mask, reg & !mask);
}

#[test]
fn extract_bits_reads_range() {
    assert_eq!(extract_bits(0xABCD, BitRange { msb: 11, lsb: 4 }), 0xBC);
    assert_eq!(extract_bits(0xABCD, BitRange { msb: 3, lsb: 3 }), 1);
    assert_eq!(extract_bits(u64::MAX, BitRange { msb: 62, lsb: 0 }), 0x7FFF_FFFF_FFFF_FFFF);
}

#[test]
fn place_bits_writes_range() {
    assert_eq!(place_bits(0xFFFF, 0x5, BitRange { msb: 7, lsb: 4 }), 0xFF5F);
    assert_eq!(place_bits(0, 0x1FF, BitRange { msb: 20, lsb: 12 }), 0x1F_F000);
}

#[test]
fn extract_bits_reads_back_place_bits() {
    let range = BitRange { msb: 38, lsb: 30 };
    let value = place_bits(0x1234_5678_9ABC_DEF0, 0x155, range);
    assert_eq!(extract_bits(value, range), 0x155);
}

#[test]
fn place_bits_with_own_bits_is_identity() {
    let range = BitRange { msb: 29, lsb: 21 };
    let v: u64 = 0x1234_5678_9ABC_DEF0;
    assert_eq!(place_bits(v, extract_bits(v, range), range), v);
}

#[test]
fn place_bits_keeps_disjoint_range() {
    let range = BitRange { msb: 29, lsb: 21 };
    let other = BitRange { msb: 20, lsb: 12 };
    let v: u64 = 0x1234_5678_9ABC_DEF0;
    assert_eq!(extract_bits(place_bits(v, 0x3, range), other), extract_bits(v, other));
}

#[test]
fn ranges_reaching_past_bit_63() {
    assert_eq!(extract_bits(u64::MAX, BitRange { msb: 64, lsb: 2 }), 0x3FFF_FFFF_FFFF_FFFF);
    assert_eq!(extract_bits(0x8000_0000_0000_0100, BitRange { msb: 70, lsb: 8 }), 0x0080_0000_0000_0001);
    assert_eq!(place_bits(0, u64::MAX, BitRange { msb: 64, lsb: 2 }), 0xFFFF_FFFF_FFFF_FFFC);
    assert_eq!(place_bits(0xFFFF, 0, BitRange { msb: 70, lsb: 8 }), 0xFF);
    assert_eq!(place_bits(0x3, 1, BitRange { msb: 63, lsb: 62 }), 0x4000_0000_0000_0003);
}
