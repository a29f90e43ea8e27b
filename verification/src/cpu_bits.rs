//! Bit-field helpers on 64-bit control and status register values, and the
//! architectural constants that name the fields.
use vstd::prelude::*;
use vstd::arithmetic::power2::{pow2, lemma_pow2_adds, lemma_pow2_pos, lemma2_to64, lemma2_to64_rest};
use vstd::bits::{low_bits_mask, lemma_u64_low_bits_mask_is_mod, lemma_u64_shl_is_mul, lemma_u64_shr_is_div, lemma_u64_pow2_no_overflow};
use vstd::std_specs::bits::{u64_trailing_zeros, axiom_u64_trailing_zeros};

verus! {

/// Position of the lowest set bit of `mask`: the shift that moves a field
/// described by `mask` down to bit 0 (64 when `mask` is zero).
pub open spec fn field_shift(mask: u64) -> u64 {
    u64_trailing_zeros(mask) as u64
}

/// The mask with bits `start` through `end` (inclusive) set, as a number.
pub open spec fn range_mask(start: nat, end: nat) -> nat {
    (pow2(end + 1) - pow2(start)) as nat
}

/// The value with only bit `nr` set.
pub fn bit(nr: u32) -> (r: u64)
    requires
        nr < 64,
    ensures
        r == pow2(nr as nat),
{
    proof {
        lemma_u64_pow2_no_overflow(nr as nat);
        lemma_u64_shl_is_mul(1, nr as u64);
    }
    1u64 << nr
}

/// `!0 >> (64 - w)` keeps exactly the low `w` bits.
proof fn lemma_all_ones_shr(w: u64)
    requires
        1 <= w <= 64,
    ensures
        (!0u64 >> ((64 - w) as u64)) == pow2(w as nat) - 1,
{
    lemma2_to64();
    lemma2_to64_rest();
    if w == 64 {
        assert(!0u64 >> ((64u64 - 64u64) as u64) == 0xffff_ffff_ffff_ffffu64) by (bit_vector);
    } else {
        assert(!0u64 >> ((64 - w) as u64) == (((1u64 << w) - 1) as u64)) by (bit_vector)
            requires
                1 <= w < 64,
        ;
        lemma_u64_pow2_no_overflow(w as nat);
        lemma_u64_shl_is_mul(1, w);
    }
}

/// The mask with bits `start..=end` set.
pub fn bit_mask(start: u32, end: u32) -> (r: u64)
    requires
        start <= end < 64,
    ensures
        r == range_mask(start as nat, end as nat),
{
    let w: u32 = end - start + 1;
    let low: u64 = !0u64 >> (64 - w);
    proof {
        lemma_all_ones_shr(w as u64);
        lemma_pow2_adds(w as nat, start as nat);
        lemma_pow2_pos(start as nat);
        lemma_pow2_pos(w as nat);
        lemma2_to64_rest();
        assert(pow2(64) == 0x1_0000_0000_0000_0000);
        assert(pow2((w + start) as nat) <= pow2(64)) by {
            if w + start < 64 {
                vstd::arithmetic::power2::lemma_pow2_strictly_increases((w + start) as nat, 64);
            }
        }
        let a = pow2(w as nat) as int;
        let b = pow2(start as nat) as int;
        assert((a - 1) * b == a * b - b) by (nonlinear_arith);
        assert(low * pow2(start as nat) <= u64::MAX);
        lemma_u64_shl_is_mul(low, start as u64);
    }
    low << start
}

/// Lowest-set-bit facts for a non-zero mask, from its trailing-zero count.
proof fn lemma_lowest_bit(mask: u64)
    requires
        mask != 0,
    ensures
        field_shift(mask) < 64,
        mask & (0u64.wrapping_sub(mask)) == 1u64 << field_shift(mask),
        1u64 << field_shift(mask) == pow2(field_shift(mask) as nat),
        pow2(field_shift(mask) as nat) <= mask,
        0 < pow2(field_shift(mask) as nat),
{
    axiom_u64_trailing_zeros(mask);
    let t: u64 = field_shift(mask);
    assert(t < 64);
    let n: u64 = 0u64.wrapping_sub(mask);
    assert(n == ((0 - mask) as u64)) by (bit_vector)
        requires
            n == (0u64 - mask + 0x1_0000_0000_0000_0000) as u64,
            mask != 0,
    ;
    assert(mask & n == 1u64 << t) by (bit_vector)
        requires
            t < 64,
            (mask >> t) & 1 == 1,
            mask << ((64 - t) as u64) == 0,
            n == ((0 - mask) as u64),
    ;
    assert((1u64 << t) <= mask) by (bit_vector)
        requires
            t < 64,
            (mask >> t) & 1 == 1,
    ;
    lemma_u64_pow2_no_overflow(t as nat);
    lemma_u64_shl_is_mul(1, t);
    lemma_pow2_pos(t as nat);
}

/// The field shift of a mask whose bit `t` is set and whose bits below `t`
/// are clear is `t`.
pub proof fn lemma_field_shift_of(mask: u64, t: u64)
    requires
        t < 64,
        (mask >> t) & 1 == 1,
        mask << ((64 - t) as u64) == 0,
    ensures
        field_shift(mask) == t,
{
    axiom_u64_trailing_zeros(mask);
    let z: u64 = field_shift(mask);
    if z < t {
        assert((mask >> z) & 1 == 0) by (bit_vector)
            requires
                z < t,
                t < 64,
                mask << ((64 - t) as u64) == 0,
        ;
    } else if z > t {
        assert((mask >> t) & 1u64 == 0u64);
    }
}

/// Reads the field of `reg` selected by `mask`, shifted down to bit 0.
pub fn get_field(reg: u64, mask: u64) -> (r: u64)
    requires
        mask != 0,
    ensures
        r == (reg & mask) >> field_shift(mask),
        r == field_value(reg, mask),
{
    let low: u64 = mask & 0u64.wrapping_sub(mask);
    proof {
        lemma_lowest_bit(mask);
        lemma_u64_shr_is_div(reg & mask, field_shift(mask));
    }
    (reg & mask) / low
}

/// Writes `val` into the field of `reg` selected by `mask`; the bits of
/// `reg` outside the mask are kept and bits of `val` that do not fit the
/// mask are dropped.
pub fn set_field(reg: u64, mask: u64, val: u64) -> (r: u64)
    requires
        mask == 0 || val * pow2(field_shift(mask) as nat) <= u64::MAX,
    ensures
        mask == 0 ==> r == reg,
        mask != 0 ==> r == (reg & !mask) | ((val << field_shift(mask)) & mask),
        mask != 0 ==> r == with_field(reg, mask, val),
{
    let low: u64 = mask & 0u64.wrapping_sub(mask);
    if mask != 0 {
        proof {
            lemma_lowest_bit(mask);
            lemma_u64_shl_is_mul(val, field_shift(mask));
        }
    } else {
        let n: u64 = 0u64.wrapping_sub(mask);
        assert(low == 0) by (bit_vector)
            requires
                mask == 0,
                low == mask & n,
        ;
        assert((reg & !mask) | ((val * 0) as u64 & mask) == reg) by (bit_vector)
            requires
                mask == 0,
        ;
    }
    (reg & !mask) | ((val * low) & mask)
}

/// Rounds `base` up to the next multiple of the power-of-two `size`.
pub fn align_up_size(base: u64, size: u64) -> (r: u64)
    requires
        size >= 1,
        base + size <= u64::MAX,
    ensures
        r == ((base + size - 1) as u64) & !((size - 1) as u64),
        size & ((size - 1) as u64) == 0 ==> {
            &&& r % size == 0
            &&& base <= r
            &&& r < base + size
        },
{
    let x: u64 = base + size - 1;
    let m: u64 = size - 1;
    let r: u64 = x & !m;
    assert(r <= x && x - r <= m && r & m == 0) by (bit_vector)
        requires
            r == x & !m,
    ;
    if size & m == 0 {
        proof {
            axiom_u64_trailing_zeros(size);
            let t: u64 = field_shift(size);
            assert(size == 1u64 << t) by (bit_vector)
                requires
                    size >= 1,
                    m == ((size - 1) as u64),
                    size & m == 0,
                    t < 64,
                    (size >> t) & 1 == 1,
            ;
            lemma_u64_pow2_no_overflow(t as nat);
            lemma_u64_shl_is_mul(1, t);
            assert(low_bits_mask(t as nat) == m);
            lemma_u64_low_bits_mask_is_mod(r, t as nat);
        }
    }
    r
}

/// The field read by `get_field` with mask `mask`.
pub open spec fn field_value(reg: u64, mask: u64) -> u64 {
    (reg & mask) >> field_shift(mask)
}

/// `reg` with the field of `mask` replaced by `val`, as `set_field` writes it.
pub open spec fn with_field(reg: u64, mask: u64, val: u64) -> u64 {
    (reg & !mask) | ((val << field_shift(mask)) & mask)
}

/// The mask of bits `start..=end` in shift form, and its field shift.
proof fn lemma_range_mask_form(start: u32, end: u32)
    requires
        start <= end < 64,
    ensures
        ({
            let w = (end - start + 1) as u8;
            let s = start as u8;
            let m = range_mask(start as nat, end as nat) as u64;
            &&& field_shift(m) == start
            &&& w < 64 ==> m == (((1u64 << w) - 1) as u64) << s
            &&& w == 64 ==> m == 0xffff_ffff_ffff_ffffu64 && s == 0
        }),
{
    let w = (end - start + 1) as u8;
    let s = start as u8;
    let m = range_mask(start as nat, end as nat) as u64;
    if w < 64 {
        crate::utils::lemma_width_mask(s, w);
        assert(m == (((1u64 << w) - 1) as u64) << s);
        let ss = s as u64;
        assert((m >> ss) & 1 == 1 && m << ((64 - ss) as u64) == 0) by (bit_vector)
            requires
                m == (((1u64 << w) - 1) as u64) << s,
                1 <= w < 64,
                s + w <= 64,
                ss == s,
        ;
        lemma_field_shift_of(m, ss);
    } else {
        lemma2_to64_rest();
        lemma2_to64();
        assert(m == 0xffff_ffff_ffff_ffffu64);
        assert((0xffff_ffff_ffff_ffffu64 >> 0u64) & 1 == 1 && 0xffff_ffff_ffff_ffffu64 << 64u64 == 0) by (bit_vector);
        lemma_field_shift_of(m, 0);
    }
}

/// Reading a field right after writing a value that fits it gives the
/// value back.
pub proof fn lemma_get_field_after_set_field(reg: u64, start: u32, end: u32, val: u64)
    requires
        start <= end < 64,
        val < pow2((end - start + 1) as nat),
    ensures
        field_value(with_field(reg, range_mask(start as nat, end as nat) as u64, val), range_mask(start as nat, end as nat) as u64) == val,
{
    lemma_range_mask_form(start, end);
    let w = (end - start + 1) as u8;
    let s = start as u8;
    let m = range_mask(start as nat, end as nat) as u64;
    let ss = s as u64;
    assert(field_shift(m) == ss);
    if w < 64 {
        crate::utils::lemma_width_mask(s, w);
        assert(((((reg & !m) | ((val << ss) & m)) & m) >> ss) == val) by (bit_vector)
            requires
                m == (((1u64 << w) - 1) as u64) << s,
                1 <= w < 64,
                s + w <= 64,
                ss == s,
                val <= ((1u64 << w) - 1) as u64,
        ;
    } else {
        assert(((((reg & !m) | ((val << 0u64) & m)) & m) >> 0u64) == val) by (bit_vector)
            requires
                m == 0xffff_ffff_ffff_ffffu64,
        ;
    }
}

/// Writing back the value just read from a field leaves the register
/// unchanged.
pub proof fn lemma_set_field_of_get_field(reg: u64, start: u32, end: u32)
    requires
        start <= end < 64,
    ensures
        with_field(reg, range_mask(start as nat, end as nat) as u64, field_value(reg, range_mask(start as nat, end as nat) as u64)) == reg,
{
    lemma_range_mask_form(start, end);
    let w = (end - start + 1) as u8;
    let s = start as u8;
    let m = range_mask(start as nat, end as nat) as u64;
    let ss = s as u64;
    if w < 64 {
        assert((reg & !m) | ((((reg & m) >> ss) << ss) & m) == reg) by (bit_vector)
            requires
                m == (((1u64 << w) - 1) as u64) << s,
                1 <= w < 64,
                s + w <= 64,
                ss == s,
        ;
    } else {
        assert((reg & !m) | ((((reg & m) >> 0u64) << 0u64) & m) == reg) by (bit_vector)
            requires
                m == 0xffff_ffff_ffff_ffffu64,
        ;
    }
}

/// Of two writes to the same field, the second wins.
pub proof fn lemma_set_field_twice(reg: u64, mask: u64, a: u64, b: u64)
    requires
        mask != 0,
    ensures
        with_field(with_field(reg, mask, a), mask, b) == with_field(reg, mask, b),
{
    let t = field_shift(mask);
    assert(((((reg & !mask) | ((a << t) & mask)) & !mask) | ((b << t) & mask)) == ((reg & !mask) | ((b << t) & mask))) by (bit_vector);
}

/// Writing a field leaves every bit outside its mask unchanged.
pub proof fn lemma_set_field_keeps_other_bits(reg: u64, mask: u64, val: u64)
    ensures
        with_field(reg, mask, val) & !mask == reg & !mask,
{
    let t = field_shift(mask);
    assert((((reg & !mask) | ((val << t) & mask)) & !mask) == reg & !mask) by (bit_vector);
}

// Architectural field masks, CSR numbers and encodings.

pub const EXT_STATUS_MASK: u64 = 0x3;

pub const FSR_RD_SHIFT: u32 = 5;
pub const FSR_RD: u64 = 0xe0;

pub const FPEXC_NX: u64 = 0x01;
pub const FPEXC_UF: u64 = 0x02;
pub const FPEXC_OF: u64 = 0x04;
pub const FPEXC_DZ: u64 = 0x08;
pub const FPEXC_NV: u64 = 0x10;

pub const FSR_AEXC_SHIFT: u32 = 0;
pub const FSR_NVA: u64 = 0x10;
pub const FSR_OFA: u64 = 0x04;
pub const FSR_UFA: u64 = 0x02;
pub const FSR_DZA: u64 = 0x08;
pub const FSR_NXA: u64 = 0x01;
pub const FSR_AEXC: u64 = 0x1f;

pub const FSR_VXRM_SHIFT: u32 = 9;
pub const FSR_VXRM: u64 = 0x600;

pub const FSR_VXSAT_SHIFT: u32 = 8;
pub const FSR_VXSAT: u64 = 0x100;

pub const CSR_SSP: u16 = 0x011;

pub const CSR_USTATUS: u16 = 0x000;
pub const CSR_UIE: u16 = 0x004;
pub const CSR_UTVEC: u16 = 0x005;

pub const CSR_USCRATCH: u16 = 0x040;
pub const CSR_UEPC: u16 = 0x041;
pub const CSR_UCAUSE: u16 = 0x042;
pub const CSR_UTVAL: u16 = 0x043;
pub const CSR_UIP: u16 = 0x044;

pub const CSR_FFLAGS: u16 = 0x001;
pub const CSR_FRM: u16 = 0x002;
pub const CSR_FCSR: u16 = 0x003;

pub const CSR_VSTART: u16 = 0x008;
pub const CSR_VXSAT: u16 = 0x009;
pub const CSR_VXRM: u16 = 0x00a;
pub const CSR_VCSR: u16 = 0x00f;
pub const CSR_VL: u16 = 0xc20;
pub const CSR_VTYPE: u16 = 0xc21;
pub const CSR_VLENB: u16 = 0xc22;

pub const VCSR_VXSAT_SHIFT: u32 = 0;
pub const VCSR_VXSAT: u64 = 0x1;
pub const VCSR_VXRM_SHIFT: u32 = 1;
pub const VCSR_VXRM: u64 = 0x6;

pub const CSR_MCYCLE: u16 = 0xb00;
pub const CSR_MINSTRET: u16 = 0xb02;
pub const CSR_MCYCLEH: u16 = 0xb80;
pub const CSR_MINSTRETH: u16 = 0xb82;

pub const CSR_MVENDORID: u16 = 0xf11;
pub const CSR_MARCHID: u16 = 0xf12;
pub const CSR_MIMPID: u16 = 0xf13;
pub const CSR_MHARTID: u16 = 0xf14;
pub const CSR_MCONFIGPTR: u16 = 0xf15;

pub const CSR_MSTATUS: u16 = 0x300;
pub const CSR_MISA: u16 = 0x301;
pub const CSR_MEDELEG: u16 = 0x302;
pub const CSR_MIDELEG: u16 = 0x303;
pub const CSR_MIE: u16 = 0x304;
pub const CSR_MTVEC: u16 = 0x305;
pub const CSR_MCOUNTEREN: u16 = 0x306;

pub const MCAUSE_INT_FLAG: u64 = 0x8000_0000_0000_0000;
pub const MCAUSE_EC_MASK: u64 = 0x7FFF_FFFF_FFFF_FFFF;

pub const CSR_SSTATUS: u16 = 0x100;
pub const CSR_SIE: u16 = 0x104;
pub const CSR_STVEC: u16 = 0x105;
pub const CSR_SCOUNTEREN: u16 = 0x106;

pub const CSR_SSCRATCH: u16 = 0x140;
pub const CSR_SEPC: u16 = 0x141;
pub const CSR_SCAUSE: u16 = 0x142;
pub const CSR_STVAL: u16 = 0x143;
pub const CSR_SIP: u16 = 0x144;

pub const SCAUSE_INT_FLAG: u64 = 0x8000_0000_0000_0000;
pub const SCAUSE_EC_MASK: u64 = 0x7FFF_FFFF_FFFF_FFFF;

pub const CSR_SATP: u16 = 0x180;

pub const PTE_V: u64 = 0x001;
pub const PTE_R: u64 = 0x002;
pub const PTE_W: u64 = 0x004;
pub const PTE_X: u64 = 0x008;
pub const PTE_U: u64 = 0x010;
pub const PTE_G: u64 = 0x020;
pub const PTE_A: u64 = 0x040;
pub const PTE_D: u64 = 0x080;
pub const PTE_SOFT: u64 = 0x300;
pub const PTE_PBMT: u64 = 0x6000_0000_0000_0000;
pub const PTE_N: u64 = 0x8000_0000_0000_0000;
pub const PTE_ATTR: u64 = 0xE000_0000_0000_0000;

pub const PTE_PPN_SHIFT: u32 = 10;
pub const PTE_PPN_MASK: u64 = 0x3FFF_FFFF_FFFC_00;
pub const PGSHIFT: u32 = 12;

pub const MSTATUS_UIE: u64 = 0x0000_0001;
pub const MSTATUS_SIE: u64 = 0x0000_0002;
pub const MSTATUS_MIE: u64 = 0x0000_0008;
pub const MSTATUS_SPIE: u64 = 0x0000_0020;
pub const MSTATUS_SPP: u64 = 0x0000_0100;
pub const MSTATUS_FS: u64 = 0x0000_6000;
pub const MSTATUS_SUM: u64 = 0x0004_0000;
pub const MSTATUS_MXR: u64 = 0x0008_0000;
pub const MSTATUS_UXL: u64 = 0x3_0000_0000;
pub const MSTATUS_SXL: u64 = 0xC_0000_0000;
pub const MSTATUS64_SD: u64 = 0x8000_0000_0000_0000;

pub const RISCV_EXCP_NONE: u64 = 0xFFFFFFFFFFFFFFFF;
pub const RISCV_EXCP_INST_ADDR_MIS: u64 = 0x0;
pub const RISCV_EXCP_INST_ACCESS_FAULT: u64 = 0x1;
pub const RISCV_EXCP_ILLEGAL_INST: u64 = 0x2;
pub const RISCV_EXCP_BREAKPOINT: u64 = 0x3;
pub const RISCV_EXCP_LOAD_ADDR_MIS: u64 = 0x4;
pub const RISCV_EXCP_LOAD_ACCESS_FAULT: u64 = 0x5;
pub const RISCV_EXCP_STORE_AMO_ADDR_MIS: u64 = 0x6;
pub const RISCV_EXCP_STORE_AMO_ACCESS_FAULT: u64 = 0x7;
pub const RISCV_EXCP_U_ECALL: u64 = 0x8;
pub const RISCV_EXCP_S_ECALL: u64 = 0x9;
pub const RISCV_EXCP_VS_ECALL: u64 = 0xa;
pub const RISCV_EXCP_M_ECALL: u64 = 0xb;
pub const RISCV_EXCP_INST_PAGE_FAULT: u64 = 0xc;
pub const RISCV_EXCP_LOAD_PAGE_FAULT: u64 = 0xd;
pub const RISCV_EXCP_STORE_PAGE_FAULT: u64 = 0xf;
pub const RISCV_EXCP_SW_CHECK: u64 = 0x12;
pub const RISCV_EXCP_HW_ERR: u64 = 0x13;
pub const RISCV_EXCP_INST_GUEST_PAGE_FAULT: u64 = 0x14;
pub const RISCV_EXCP_LOAD_GUEST_ACCESS_FAULT: u64 = 0x15;
pub const RISCV_EXCP_VIRT_INSTRUCTION_FAULT: u64 = 0x16;
pub const RISCV_EXCP_STORE_GUEST_AMO_ACCESS_FAULT: u64 = 0x17;
pub const RISCV_EXCP_SEMIHOST: u64 = 0x3f;

pub const IRQ_S_SOFT: u32 = 1;
pub const IRQ_S_TIMER: u32 = 5;
pub const IRQ_S_EXT: u32 = 9;

pub const MIP_SSIP: u64 = 0x2;
pub const MIP_STIP: u64 = 0x20;
pub const MIP_SEIP: u64 = 0x200;

pub const SEED_OPST: u64 = 0xC000_0000;
pub const SEED_OPST_BIST: u64 = 0;
pub const SEED_OPST_WAIT: u64 = 1;
pub const SEED_OPST_ES16: u64 = 2;
pub const SEED_OPST_DEAD: u64 = 3;
pub const SEED_ENTROPY_MASK: u64 = 0xFFFF;

pub const SATP64_MODE: u64 = 0xF000_0000_0000_0000;
pub const SATP64_ASID: u64 = 0x0FFF_F000_0000_0000;
pub const SATP64_PPN: u64 = 0x0000_0FFF_FFFF_FFFF;

pub const VSATP64_MODE: u64 = SATP64_MODE;
pub const VSATP64_ASID: u64 = SATP64_ASID;
pub const VSATP64_PPN: u64 = SATP64_PPN;

pub const HGATP64_MODE: u64 = SATP64_MODE;
pub const HGATP64_ASID: u64 = SATP64_ASID;
pub const HGATP64_PPN: u64 = SATP64_PPN;

pub const VM_1_10_MBARE: u8 = 0;
pub const VM_1_10_SV32: u8 = 1;
pub const VM_1_10_SV39: u8 = 8;
pub const VM_1_10_SV48: u8 = 9;
pub const VM_1_10_SV57: u8 = 10;
pub const VM_1_10_SV64: u8 = 11;

pub const VM_1_10_SV39X4: u8 = 8;
pub const VM_1_10_SV48X4: u8 = 9;
pub const VM_1_10_SV57X4: u8 = 10;

pub const MAX_NUM_PAGE_TABLE_LEVELS: usize = 4;
pub const PAGE_OFFSET: u32 = 12;

} // verus!
