//! The RISC-V page-table walker: translates a virtual (or guest-physical)
//! address through the page tables selected by a `satp`-style register,
//! recording every page-table entry it reads.
use vstd::prelude::*;
use vstd::arithmetic::power2::pow2;
use crate::cpu_bits::{
    get_field, field_shift, lemma_field_shift_of, SATP64_MODE, SATP64_PPN, PTE_V, PTE_R, PTE_W, PTE_X, PTE_A, PTE_D,
    PAGE_OFFSET, VM_1_10_MBARE, VM_1_10_SV39, VM_1_10_SV48, VM_1_10_SV39X4, VM_1_10_SV48X4,
    MAX_NUM_PAGE_TABLE_LEVELS,
};
use crate::utils::{BitRange, valid_bit_range, range_width, bits_of, with_bits, extract_bits, place_bits};

verus! {

/// What a page-table walk records.
pub struct TranslationInfo {
    pub va: u64,
    pub pa: u64,
    pub pte_address: [u64; 4],
    pub pte_value: [u64; 4],
    pub xatp_mode: u8,
    pub levels_traversed: u8,
    pub walk_successful: u8,
    pub pbmt_mode: u8,
}

/// Layout of one translation mode: where each level's index sits in the
/// virtual address, where each level's page number sits in an entry and in
/// the physical address, and where the page-based memory type sits.
#[derive(Clone, Copy)]
pub struct MmuModeAttribute {
    pub xatp_mode: u8,
    pub pte_size_in_bytes: u8,
    pub num_levels: u8,
    pub va_vpn_bits: [BitRange; 4],
    pub pa_ppn_bits: [BitRange; 4],
    pub pte_ppn_bits: [BitRange; 4],
    pub pbmt_mode_bits: BitRange,
}

/// Why a walk stopped the test: a malformed page-table entry, too many
/// levels, or a translation mode with no layout.
#[derive(Clone, Copy, Debug, PartialEq, Eq, Structural)]
pub enum WalkFault {
    /// An entry is writable but not readable.
    WriteWithoutRead,
    /// A non-leaf entry has its accessed bit set.
    NonLeafAccessed,
    /// A non-leaf entry has its dirty bit set.
    NonLeafDirty,
    /// The last level holds a pointer to a further table.
    OutOfLevels,
    /// The translation register selects a mode with no known layout.
    UnsupportedMode,
}

/// What the walk does after reading an entry at some level.
pub enum WalkStep {
    /// The entry points to the next level's table.
    Continue,
    /// The entry is not valid: the walk ends without a translation.
    Invalid,
    /// The entry maps a page: the walk ends with a translation.
    Leaf,
    /// The entry is malformed or there is no further level.
    Fault(WalkFault),
}

/// A layout the walker can use: one to four levels, and bit ranges that fit
/// a 64-bit word, with physical page numbers below bit 56, entry page
/// numbers no wider than their place in the address, and table indices of
/// at most 16 bits.
pub open spec fn mmu_attribute_wf(attr: MmuModeAttribute) -> bool {
    &&& 1 <= attr.num_levels <= 4
    &&& valid_bit_range(attr.pbmt_mode_bits)
    &&& forall|l: int|
        #![trigger attr.va_vpn_bits@[l]]
        #![trigger attr.pte_ppn_bits@[l]]
        #![trigger attr.pa_ppn_bits@[l]]
        0 <= l < attr.num_levels ==> {
        &&& valid_bit_range(attr.va_vpn_bits@[l])
        &&& range_width(attr.va_vpn_bits@[l]) <= 16
        &&& valid_bit_range(attr.pte_ppn_bits@[l])
        &&& valid_bit_range(attr.pa_ppn_bits@[l])
        &&& attr.pa_ppn_bits@[l].msb < 56
        &&& range_width(attr.pte_ppn_bits@[l]) <= range_width(attr.pa_ppn_bits@[l])
    }
}

/// Classifies the entry `pte` read at `level`.
pub open spec fn classify(attr: MmuModeAttribute, level: int, pte: u64) -> WalkStep {
    if pte & PTE_V == 0 {
        WalkStep::Invalid
    } else if pte & PTE_R == 0 && pte & PTE_W != 0 {
        WalkStep::Fault(WalkFault::WriteWithoutRead)
    } else if pte & (PTE_R | PTE_W | PTE_X) != 0 {
        WalkStep::Leaf
    } else if pte & PTE_A != 0 {
        WalkStep::Fault(WalkFault::NonLeafAccessed)
    } else if pte & PTE_D != 0 {
        WalkStep::Fault(WalkFault::NonLeafDirty)
    } else if level + 1 >= attr.num_levels {
        WalkStep::Fault(WalkFault::OutOfLevels)
    } else {
        WalkStep::Continue
    }
}

/// The physical page address held by `pte`: its page-number fields for the
/// first `n` levels placed into their positions in the address.
pub open spec fn ppn_fold(attr: MmuModeAttribute, pte: u64, n: nat) -> u64
    decreases n,
{
    if n == 0 {
        0
    } else {
        with_bits(
            ppn_fold(attr, pte, (n - 1) as nat),
            bits_of(pte, attr.pte_ppn_bits@[n - 1]) as u64,
            attr.pa_ppn_bits@[n - 1],
        )
    }
}

/// Address of the root table named by the translation register.
pub open spec fn root_table(xatp: u64) -> u64 {
    ((xatp & SATP64_PPN) * 4096) as u64
}

/// Address of the table walked at `level`, given the entries read before.
pub open spec fn table_base(xatp: u64, attr: MmuModeAttribute, vals: Seq<u64>, level: int) -> u64 {
    if level == 0 {
        root_table(xatp)
    } else {
        ppn_fold(attr, vals[level - 1], attr.num_levels as nat)
    }
}

/// Address of the entry read at `level`.
pub open spec fn pte_address_at(xatp: u64, attr: MmuModeAttribute, va: u64, vals: Seq<u64>, level: int) -> u64 {
    (table_base(xatp, attr, vals, level) + bits_of(va, attr.va_vpn_bits@[level]) * attr.pte_size_in_bytes) as u64
}

/// `vals` is a complete walk: every entry but the last leads on, and the
/// last ends the walk.
pub open spec fn walk_path(attr: MmuModeAttribute, vals: Seq<u64>) -> bool {
    &&& 1 <= vals.len() <= attr.num_levels
    &&& forall|l: int| 0 <= l < vals.len() - 1 ==> #[trigger] classify(attr, l, vals[l]) is Continue
    &&& !(classify(attr, vals.len() - 1, vals.last()) is Continue)
}

/// Each entry of `vals` is a value the reader may return for the address
/// the walk computes for it.
pub open spec fn reads_match<F: Fn(u64) -> u64>(read_pte: F, xatp: u64, attr: MmuModeAttribute, va: u64, vals: Seq<u64>) -> bool {
    forall|l: int| 0 <= l < vals.len() ==> #[trigger] call_ensures(read_pte, (pte_address_at(xatp, attr, va, vals, l),), vals[l])
}

/// The translation mode field of a translation register.
pub open spec fn xatp_mode_of(xatp: u64) -> u8 {
    ((xatp & SATP64_MODE) >> 60u64) as u8
}

/// The field shifts of the masks the walker reads.
proof fn lemma_walk_field_shifts()
    ensures
        field_shift(SATP64_MODE) == 60,
        field_shift(PTE_V) == 0,
        field_shift(PTE_R | PTE_W | PTE_X) == 1,
        field_shift(PTE_A) == 6,
        field_shift(PTE_D) == 7,
        PTE_R | PTE_W | PTE_X == 0xe,
{
    assert({
        &&& (0xF000_0000_0000_0000u64 >> 60u64) & 1 == 1 && 0xF000_0000_0000_0000u64 << 4u64 == 0
        &&& (1u64 >> 0u64) & 1 == 1 && 1u64 << 64u64 == 0
        &&& PTE_R | PTE_W | PTE_X == 0xe
        &&& (0xeu64 >> 1u64) & 1 == 1 && 0xeu64 << 63u64 == 0
        &&& (0x40u64 >> 6u64) & 1 == 1 && 0x40u64 << 58u64 == 0
        &&& (0x80u64 >> 7u64) & 1 == 1 && 0x80u64 << 57u64 == 0
    }) by (bit_vector);
    lemma_field_shift_of(SATP64_MODE, 60);
    lemma_field_shift_of(PTE_V, 0);
    lemma_field_shift_of(0xe, 1);
    lemma_field_shift_of(PTE_A, 6);
    lemma_field_shift_of(PTE_D, 7);
}

/// The fields the walker tests, as the single-bit tests of `classify`.
proof fn lemma_pte_tests(pte: u64)
    ensures
        (((pte & PTE_V) >> 0u64) == 0) == (pte & PTE_V == 0),
        ({
            let xwr = (((pte & (PTE_R | PTE_W | PTE_X)) >> 1u64) as u8);
            &&& ((xwr & 0x3) == 0x2) == (pte & PTE_R == 0 && pte & PTE_W != 0)
            &&& ((xwr & 0x6) != 0 || (xwr & 0x1) != 0) == (pte & (PTE_R | PTE_W | PTE_X) != 0)
        }),
        (((pte & PTE_A) >> 6u64) != 0) == (pte & PTE_A != 0),
        (((pte & PTE_D) >> 7u64) != 0) == (pte & PTE_D != 0),
{
    assert({
        let xwr = (((pte & 0xe) >> 1u64) as u8);
        &&& (((pte & 1) >> 0u64) == 0) == (pte & 1 == 0)
        &&& ((xwr & 0x3) == 0x2) == (pte & 2 == 0 && pte & 4 != 0)
        &&& ((xwr & 0x6) != 0 || (xwr & 0x1) != 0) == (pte & 0xe != 0)
        &&& PTE_R | PTE_W | PTE_X == 0xe
        &&& (((pte & 0x40) >> 6u64) != 0) == (pte & 0x40 != 0)
        &&& (((pte & 0x80) >> 7u64) != 0) == (pte & 0x80 != 0)
    }) by (bit_vector);
}

/// Placing a field narrower than its range, with the range below bit 56,
/// into a value below `2^56` keeps it below `2^56`.
proof fn lemma_with_bits_below(a: u64, b: u64, r: BitRange)
    requires
        valid_bit_range(r),
        r.msb < 56,
        b < pow2(range_width(r)),
        a < 0x0100_0000_0000_0000,
    ensures
        with_bits(a, b, r) < 0x0100_0000_0000_0000,
{
    crate::utils::lemma_bit_range_forms(a, b, r);
    let w = (r.msb - r.lsb + 1) as u8;
    let m = ((1u64 << w) - 1) as u64;
    let l = r.lsb;
    assert((a & !(m << l)) | (b << l) < 0x0100_0000_0000_0000) by (bit_vector)
        requires
            m == ((1u64 << w) - 1) as u64,
            1 <= w < 64,
            l + w <= 56,
            b <= m,
            a < 0x0100_0000_0000_0000,
    ;
}

/// A field's value is below two to its width.
proof fn lemma_bits_of_bound(v: u64, r: BitRange)
    ensures
        bits_of(v, r) < pow2(range_width(r)),
{
    vstd::arithmetic::power2::lemma_pow2_pos(range_width(r));
}

/// A physical page address assembled from an entry stays below `2^56`.
proof fn lemma_ppn_fold_below(attr: MmuModeAttribute, pte: u64, n: nat)
    requires
        mmu_attribute_wf(attr),
        n <= attr.num_levels,
    ensures
        ppn_fold(attr, pte, n) < 0x0100_0000_0000_0000,
    decreases n,
{
    if n > 0 {
        lemma_ppn_fold_below(attr, pte, (n - 1) as nat);
        let l = n - 1;
        let src = attr.pte_ppn_bits@[l];
        let dst = attr.pa_ppn_bits@[l];
        assert(valid_bit_range(src) && valid_bit_range(dst));
        lemma_bits_of_bound(pte, src);
        if range_width(src) < range_width(dst) {
            vstd::arithmetic::power2::lemma_pow2_strictly_increases(range_width(src), range_width(dst));
        }
        vstd::bits::lemma_u64_pow2_no_overflow(range_width(dst));
        lemma_with_bits_below(ppn_fold(attr, pte, (n - 1) as nat), bits_of(pte, src) as u64, dst);
    }
}

/// The bits of an address that give the offset inside a page.
pub open spec fn page_offset_range() -> BitRange {
    BitRange { msb: 11, lsb: 0 }
}

/// `new` records the walk of `va` through the tables selected by `xatp`
/// with layout `attr`, the entries read with `read_pte`, and `r` is its
/// outcome. In bare mode the address is its own translation. Otherwise
/// between one and `attr.num_levels` entries are
/// recorded and form a complete walk, each read from the address
/// the walk computes for it; an invalid entry ends the walk without a
/// translation, a leaf ends it with one, and a malformed entry or a
/// missing level is a fault.
pub open spec fn translated<F: Fn(u64) -> u64>(
    xatp: u64,
    attr: MmuModeAttribute,
    va: u64,
    read_pte: F,
    old: TranslationInfo,
    new: TranslationInfo,
    r: Result<(), WalkFault>,
) -> bool {
    &&& new.va == va
    &&& new.xatp_mode == xatp_mode_of(xatp)
    &&& if new.xatp_mode == VM_1_10_MBARE {
        &&& r is Ok
        &&& new.pa == va
        &&& new.walk_successful == 1
        &&& new.levels_traversed == 0
        &&& forall|l: int| 0 <= l < 4 ==> new.pte_address@[l] == 0 && new.pte_value@[l] == 0
        &&& new.pbmt_mode == old.pbmt_mode
    } else {
        let n = new.levels_traversed as int;
        let vals = new.pte_value@.take(n);
        &&& 1 <= n <= attr.num_levels
        &&& walk_path(attr, vals)
        &&& reads_match(read_pte, xatp, attr, va, vals)
        &&& forall|l: int| 0 <= l < n ==> new.pte_address@[l] == pte_address_at(xatp, attr, va, vals, l)
        &&& forall|l: int| n <= l < 4 ==> new.pte_address@[l] == 0 && new.pte_value@[l] == 0
        &&& match classify(attr, n - 1, vals[n - 1]) {
            WalkStep::Leaf => {
                &&& r is Ok
                &&& new.walk_successful == 1
                &&& new.pa == ppn_fold(attr, vals[n - 1], attr.num_levels as nat) + bits_of(va, page_offset_range())
                &&& new.pbmt_mode == bits_of(vals[n - 1], attr.pbmt_mode_bits) as u8
            },
            WalkStep::Invalid => {
                &&& r is Ok
                &&& new.walk_successful == 0
                &&& new.pa == 0
                &&& new.pbmt_mode == old.pbmt_mode
            },
            WalkStep::Fault(f) => r == Err::<(), WalkFault>(f),
            WalkStep::Continue => false,
        }
    }
}

/// Walks the page tables selected by `xatp` for `va` with the layout
/// `attr`, reading each entry through `read_pte`, and records the walk in
/// `xlate_info`.
pub fn translate<F: Fn(u64) -> u64>(xatp: u64, attr: &MmuModeAttribute, va: u64, read_pte: F, xlate_info: &mut TranslationInfo) -> (r: Result<(), WalkFault>)
    requires
        mmu_attribute_wf(*attr),
        forall|a: u64| read_pte.requires((a,)),
    ensures
        translated(xatp, *attr, va, read_pte, *old(xlate_info), *final(xlate_info), r),
{
    proof {
        lemma_walk_field_shifts();
    }
    let mode_field: u64 = get_field(xatp, SATP64_MODE);
    assert(mode_field == (xatp & SATP64_MODE) >> 60u64);
    xlate_info.xatp_mode = mode_field as u8;
    xlate_info.va = va;
    xlate_info.pa = 0;
    xlate_info.levels_traversed = 0;
    xlate_info.walk_successful = 0;
    let mut i: usize = 0;
    while i < MAX_NUM_PAGE_TABLE_LEVELS
        invariant
            i <= 4,
            forall|l: int| 0 <= l < i ==> xlate_info.pte_address@[l] == 0 && xlate_info.pte_value@[l] == 0,
            xlate_info.xatp_mode == xatp_mode_of(xatp),
            xlate_info.va == va,
            xlate_info.pa == 0,
            xlate_info.levels_traversed == 0,
            xlate_info.walk_successful == 0,
            xlate_info.pbmt_mode == old(xlate_info).pbmt_mode,
        decreases 4 - i,
    {
        xlate_info.pte_address[i] = 0;
        xlate_info.pte_value[i] = 0;
        i = i + 1;
    }
    if xlate_info.xatp_mode == VM_1_10_MBARE {
        xlate_info.pa = va;
        xlate_info.walk_successful = 1;
        return Ok(());
    }
    let mut a: u64 = (xatp & SATP64_PPN) << PAGE_OFFSET;
    assert(a == root_table(xatp) && a < 0x0100_0000_0000_0000) by (bit_vector)
        requires
            a == (xatp & 0x0000_0FFF_FFFF_FFFFu64) << 12u32,
    ;
    let mut current_level: u8 = 0;
    let ghost mut vals: Seq<u64> = Seq::empty();
    loop
        invariant_except_break
            current_level < attr.num_levels,
            vals.len() == current_level,
            forall|l: int| 0 <= l < vals.len() ==> #[trigger] classify(*attr, l, vals[l]) is Continue,
            a == table_base(xatp, *attr, vals, current_level as int),
        invariant
            mmu_attribute_wf(*attr),
            forall|x: u64| read_pte.requires((x,)),
            a < 0x0100_0000_0000_0000,
            xlate_info.xatp_mode == xatp_mode_of(xatp),
            xlate_info.xatp_mode != VM_1_10_MBARE,
            xlate_info.va == va,
            xlate_info.pa == 0,
            xlate_info.walk_successful == 0,
            xlate_info.pbmt_mode == old(xlate_info).pbmt_mode,
            xlate_info.levels_traversed == vals.len(),
            vals.len() <= attr.num_levels,
            xlate_info.pte_value@.take(vals.len() as int) == vals,
            forall|l: int| 0 <= l < vals.len() ==> xlate_info.pte_address@[l] == pte_address_at(xatp, *attr, va, vals, l),
            forall|l: int| vals.len() <= l < 4 ==> xlate_info.pte_address@[l] == 0 && xlate_info.pte_value@[l] == 0,
            reads_match(read_pte, xatp, *attr, va, vals),
        ensures
            walk_path(*attr, vals),
            classify(*attr, vals.len() - 1, vals.last()) is Leaf,
            a == ppn_fold(*attr, vals.last(), attr.num_levels as nat),
        decreases attr.num_levels - vals.len(),
    {
        let cl = current_level as usize;
        let vpn = extract_bits(va, attr.va_vpn_bits[cl]);
        proof {
            assert(valid_bit_range(attr.va_vpn_bits@[cl as int]));
            lemma_bits_of_bound(va, attr.va_vpn_bits@[cl as int]);
            if range_width(attr.va_vpn_bits@[cl as int]) < 16 {
                vstd::arithmetic::power2::lemma_pow2_strictly_increases(range_width(attr.va_vpn_bits@[cl as int]), 16);
            }
            vstd::arithmetic::power2::lemma2_to64();
            assert(vpn < 0x10000);
            assert(vpn * (attr.pte_size_in_bytes as u64) <= 0x10000 * 256) by (nonlinear_arith)
                requires
                    vpn < 0x10000,
                    attr.pte_size_in_bytes < 256,
            ;
        }
        let pte_addr: u64 = a + vpn * (attr.pte_size_in_bytes as u64);
        xlate_info.pte_address[cl] = pte_addr;
        let pte_value = read_pte(pte_addr);
        xlate_info.pte_value[cl] = pte_value;
        xlate_info.levels_traversed = xlate_info.levels_traversed + 1;
        let ghost old_vals = vals;
        proof {
            vals = vals.push(pte_value);
            assert(pte_address_at(xatp, *attr, va, vals, cl as int) == pte_addr);
            assert forall|l: int| 0 <= l < old_vals.len() implies pte_address_at(xatp, *attr, va, vals, l) == pte_address_at(xatp, *attr, va, old_vals, l) by {
                if l > 0 {
                    assert(vals[l - 1] == old_vals[l - 1]);
                }
            }
            assert(xlate_info.pte_value@.take(vals.len() as int) =~= vals);
            assert forall|l: int| 0 <= l < vals.len() implies #[trigger] call_ensures(read_pte, (pte_address_at(xatp, *attr, va, vals, l),), vals[l]) by {
                if l < old_vals.len() {
                    assert(call_ensures(read_pte, (pte_address_at(xatp, *attr, va, old_vals, l),), old_vals[l]));
                }
            }
            lemma_pte_tests(pte_value);
            lemma_walk_field_shifts();
        }
        if get_field(pte_value, PTE_V) == 0 {
            assert(classify(*attr, cl as int, pte_value) is Invalid);
            assert(walk_path(*attr, vals));
            return Ok(());
        }
        let xwr: u8 = get_field(pte_value, PTE_R | PTE_W | PTE_X) as u8;
        if (xwr & 0x3) == 0x2 {
            assert(walk_path(*attr, vals));
            return Err(WalkFault::WriteWithoutRead);
        }
        a = 0;
        let mut ppn_id: u8 = 0;
        while ppn_id < attr.num_levels
            invariant
                mmu_attribute_wf(*attr),
                ppn_id <= attr.num_levels,
                a == ppn_fold(*attr, pte_value, ppn_id as nat),
            decreases attr.num_levels - ppn_id,
        {
            let ppn_value = extract_bits(pte_value, attr.pte_ppn_bits[ppn_id as usize]);
            a = place_bits(a, ppn_value, attr.pa_ppn_bits[ppn_id as usize]);
            ppn_id = ppn_id + 1;
        }
        proof {
            lemma_ppn_fold_below(*attr, pte_value, attr.num_levels as nat);
        }
        if (xwr & 0x6) != 0 || (xwr & 0x1) != 0 {
            assert(walk_path(*attr, vals));
            break;
        } else if get_field(pte_value, PTE_A) != 0 {
            assert(walk_path(*attr, vals));
            return Err(WalkFault::NonLeafAccessed);
        } else if get_field(pte_value, PTE_D) != 0 {
            assert(walk_path(*attr, vals));
            return Err(WalkFault::NonLeafDirty);
        }
        current_level = current_level + 1;
        if current_level >= attr.num_levels {
            assert(walk_path(*attr, vals));
            return Err(WalkFault::OutOfLevels);
        }
        assert(classify(*attr, cl as int, pte_value) is Continue);
    }
    let last = xlate_info.levels_traversed - 1;
    let pbmt = extract_bits(xlate_info.pte_value[last as usize], attr.pbmt_mode_bits);
    xlate_info.pbmt_mode = pbmt as u8;
    let offset = extract_bits(va, BitRange { msb: (PAGE_OFFSET - 1) as u8, lsb: 0 });
    proof {
        lemma_bits_of_bound(va, page_offset_range());
        vstd::arithmetic::power2::lemma2_to64();
    }
    xlate_info.pa = a + offset;
    xlate_info.walk_successful = 1;
    Ok(())
}

/// Sv39 layout of supervisor translation.
pub open spec fn sv39_attribute() -> MmuModeAttribute {
    MmuModeAttribute {
        xatp_mode: VM_1_10_SV39,
        pte_size_in_bytes: 8,
        num_levels: 3,
        va_vpn_bits: [BitRange { msb: 38, lsb: 30 }, BitRange { msb: 29, lsb: 21 }, BitRange { msb: 20, lsb: 12 }, BitRange { msb: 0, lsb: 0 }],
        pa_ppn_bits: [BitRange { msb: 55, lsb: 30 }, BitRange { msb: 29, lsb: 21 }, BitRange { msb: 20, lsb: 12 }, BitRange { msb: 0, lsb: 0 }],
        pte_ppn_bits: [BitRange { msb: 53, lsb: 28 }, BitRange { msb: 27, lsb: 19 }, BitRange { msb: 18, lsb: 10 }, BitRange { msb: 0, lsb: 0 }],
        pbmt_mode_bits: BitRange { msb: 62, lsb: 61 },
    }
}

/// Sv48 layout of supervisor translation.
pub open spec fn sv48_attribute() -> MmuModeAttribute {
    MmuModeAttribute {
        xatp_mode: VM_1_10_SV48,
        pte_size_in_bytes: 8,
        num_levels: 4,
        va_vpn_bits: [BitRange { msb: 47, lsb: 39 }, BitRange { msb: 38, lsb: 30 }, BitRange { msb: 29, lsb: 21 }, BitRange { msb: 20, lsb: 12 }],
        pa_ppn_bits: [BitRange { msb: 55, lsb: 39 }, BitRange { msb: 38, lsb: 30 }, BitRange { msb: 29, lsb: 21 }, BitRange { msb: 20, lsb: 12 }],
        pte_ppn_bits: [BitRange { msb: 53, lsb: 37 }, BitRange { msb: 36, lsb: 28 }, BitRange { msb: 27, lsb: 19 }, BitRange { msb: 18, lsb: 10 }],
        pbmt_mode_bits: BitRange { msb: 62, lsb: 61 },
    }
}

/// Sv39x4 layout of guest-physical translation.
pub open spec fn sv39x4_attribute() -> MmuModeAttribute {
    MmuModeAttribute {
        xatp_mode: VM_1_10_SV39X4,
        pte_size_in_bytes: 8,
        num_levels: 3,
        va_vpn_bits: [BitRange { msb: 40, lsb: 30 }, BitRange { msb: 29, lsb: 21 }, BitRange { msb: 20, lsb: 12 }, BitRange { msb: 0, lsb: 0 }],
        pa_ppn_bits: [BitRange { msb: 55, lsb: 30 }, BitRange { msb: 29, lsb: 21 }, BitRange { msb: 20, lsb: 12 }, BitRange { msb: 0, lsb: 0 }],
        pte_ppn_bits: [BitRange { msb: 53, lsb: 28 }, BitRange { msb: 27, lsb: 19 }, BitRange { msb: 18, lsb: 10 }, BitRange { msb: 0, lsb: 0 }],
        pbmt_mode_bits: BitRange { msb: 62, lsb: 61 },
    }
}

/// Sv48x4 layout of guest-physical translation.
pub open spec fn sv48x4_attribute() -> MmuModeAttribute {
    MmuModeAttribute {
        xatp_mode: VM_1_10_SV48X4,
        pte_size_in_bytes: 8,
        num_levels: 4,
        va_vpn_bits: [BitRange { msb: 49, lsb: 39 }, BitRange { msb: 38, lsb: 30 }, BitRange { msb: 29, lsb: 21 }, BitRange { msb: 20, lsb: 12 }],
        pa_ppn_bits: [BitRange { msb: 55, lsb: 39 }, BitRange { msb: 38, lsb: 30 }, BitRange { msb: 29, lsb: 21 }, BitRange { msb: 20, lsb: 12 }],
        pte_ppn_bits: [BitRange { msb: 53, lsb: 37 }, BitRange { msb: 36, lsb: 28 }, BitRange { msb: 27, lsb: 19 }, BitRange { msb: 18, lsb: 10 }],
        pbmt_mode_bits: BitRange { msb: 62, lsb: 61 },
    }
}

/// The supervisor translation layouts: Sv39 and Sv48.
pub fn mmu_smode_attributes() -> (r: [MmuModeAttribute; 2])
    ensures
        r@ == seq![sv39_attribute(), sv48_attribute()],
{
    let r = [
        MmuModeAttribute {
            xatp_mode: VM_1_10_SV39,
            pte_size_in_bytes: 8,
            num_levels: 3,
            va_vpn_bits: [BitRange { msb: 38, lsb: 30 }, BitRange { msb: 29, lsb: 21 }, BitRange { msb: 20, lsb: 12 }, BitRange { msb: 0, lsb: 0 }],
            pa_ppn_bits: [BitRange { msb: 55, lsb: 30 }, BitRange { msb: 29, lsb: 21 }, BitRange { msb: 20, lsb: 12 }, BitRange { msb: 0, lsb: 0 }],
            pte_ppn_bits: [BitRange { msb: 53, lsb: 28 }, BitRange { msb: 27, lsb: 19 }, BitRange { msb: 18, lsb: 10 }, BitRange { msb: 0, lsb: 0 }],
            pbmt_mode_bits: BitRange { msb: 62, lsb: 61 },
        },
        MmuModeAttribute {
            xatp_mode: VM_1_10_SV48,
            pte_size_in_bytes: 8,
            num_levels: 4,
            va_vpn_bits: [BitRange { msb: 47, lsb: 39 }, BitRange { msb: 38, lsb: 30 }, BitRange { msb: 29, lsb: 21 }, BitRange { msb: 20, lsb: 12 }],
            pa_ppn_bits: [BitRange { msb: 55, lsb: 39 }, BitRange { msb: 38, lsb: 30 }, BitRange { msb: 29, lsb: 21 }, BitRange { msb: 20, lsb: 12 }],
            pte_ppn_bits: [BitRange { msb: 53, lsb: 37 }, BitRange { msb: 36, lsb: 28 }, BitRange { msb: 27, lsb: 19 }, BitRange { msb: 18, lsb: 10 }],
            pbmt_mode_bits: BitRange { msb: 62, lsb: 61 },
        },
    ];
    assert(r@ =~= seq![sv39_attribute(), sv48_attribute()]);
    r
}

/// The guest-physical translation layouts: Sv39x4 and Sv48x4.
pub fn mmu_hsmode_attributes() -> (r: [MmuModeAttribute; 2])
    ensures
        r@ == seq![sv39x4_attribute(), sv48x4_attribute()],
{
    let r = [
        MmuModeAttribute {
            xatp_mode: VM_1_10_SV39X4,
            pte_size_in_bytes: 8,
            num_levels: 3,
            va_vpn_bits: [BitRange { msb: 40, lsb: 30 }, BitRange { msb: 29, lsb: 21 }, BitRange { msb: 20, lsb: 12 }, BitRange { msb: 0, lsb: 0 }],
            pa_ppn_bits: [BitRange { msb: 55, lsb: 30 }, BitRange { msb: 29, lsb: 21 }, BitRange { msb: 20, lsb: 12 }, BitRange { msb: 0, lsb: 0 }],
            pte_ppn_bits: [BitRange { msb: 53, lsb: 28 }, BitRange { msb: 27, lsb: 19 }, BitRange { msb: 18, lsb: 10 }, BitRange { msb: 0, lsb: 0 }],
            pbmt_mode_bits: BitRange { msb: 62, lsb: 61 },
        },
        MmuModeAttribute {
            xatp_mode: VM_1_10_SV48X4,
            pte_size_in_bytes: 8,
            num_levels: 4,
            va_vpn_bits: [BitRange { msb: 49, lsb: 39 }, BitRange { msb: 38, lsb: 30 }, BitRange { msb: 29, lsb: 21 }, BitRange { msb: 20, lsb: 12 }],
            pa_ppn_bits: [BitRange { msb: 55, lsb: 39 }, BitRange { msb: 38, lsb: 30 }, BitRange { msb: 29, lsb: 21 }, BitRange { msb: 20, lsb: 12 }],
            pte_ppn_bits: [BitRange { msb: 53, lsb: 37 }, BitRange { msb: 36, lsb: 28 }, BitRange { msb: 27, lsb: 19 }, BitRange { msb: 18, lsb: 10 }],
            pbmt_mode_bits: BitRange { msb: 62, lsb: 61 },
        },
    ];
    assert(r@ =~= seq![sv39x4_attribute(), sv48x4_attribute()]);
    r
}

/// The four built-in layouts are usable by the walker.
pub proof fn lemma_builtin_attributes_wf()
    ensures
        mmu_attribute_wf(sv39_attribute()),
        mmu_attribute_wf(sv48_attribute()),
        mmu_attribute_wf(sv39x4_attribute()),
        mmu_attribute_wf(sv48x4_attribute()),
{
    let a = sv39_attribute();
    assert forall|l: int| 0 <= l < a.num_levels implies valid_bit_range(a.va_vpn_bits@[l]) && range_width(a.va_vpn_bits@[l]) <= 16 && valid_bit_range(a.pte_ppn_bits@[l]) && valid_bit_range(a.pa_ppn_bits@[l]) && a.pa_ppn_bits@[l].msb < 56 && range_width(a.pte_ppn_bits@[l]) <= range_width(a.pa_ppn_bits@[l]) by {
        assert(l == 0 || l == 1 || l == 2);
    }
    let b = sv48_attribute();
    assert forall|l: int| 0 <= l < b.num_levels implies valid_bit_range(b.va_vpn_bits@[l]) && range_width(b.va_vpn_bits@[l]) <= 16 && valid_bit_range(b.pte_ppn_bits@[l]) && valid_bit_range(b.pa_ppn_bits@[l]) && b.pa_ppn_bits@[l].msb < 56 && range_width(b.pte_ppn_bits@[l]) <= range_width(b.pa_ppn_bits@[l]) by {
        assert(l == 0 || l == 1 || l == 2 || l == 3);
    }
    let c = sv39x4_attribute();
    assert forall|l: int| 0 <= l < c.num_levels implies valid_bit_range(c.va_vpn_bits@[l]) && range_width(c.va_vpn_bits@[l]) <= 16 && valid_bit_range(c.pte_ppn_bits@[l]) && valid_bit_range(c.pa_ppn_bits@[l]) && c.pa_ppn_bits@[l].msb < 56 && range_width(c.pte_ppn_bits@[l]) <= range_width(c.pa_ppn_bits@[l]) by {
        assert(l == 0 || l == 1 || l == 2);
    }
    let d = sv48x4_attribute();
    assert forall|l: int| 0 <= l < d.num_levels implies valid_bit_range(d.va_vpn_bits@[l]) && range_width(d.va_vpn_bits@[l]) <= 16 && valid_bit_range(d.pte_ppn_bits@[l]) && valid_bit_range(d.pa_ppn_bits@[l]) && d.pa_ppn_bits@[l].msb < 56 && range_width(d.pte_ppn_bits@[l]) <= range_width(d.pa_ppn_bits@[l]) by {
        assert(l == 0 || l == 1 || l == 2 || l == 3);
    }
}

/// The standard RISC-V page-table layout with `num_levels` levels and a
/// root index `root_width` bits wide: eight-byte entries; level `l`
/// indexes its table with the address bits just above those of level
/// `l + 1`, nine bits each below the root, the last level starting at bit
/// 12; the physical page number of level `l` sits at the same bits of the
/// physical address (up to bit 55 for the root) and two bits lower in an
/// entry; the memory type is entry bits 62:61.
pub open spec fn standard_layout(attr: MmuModeAttribute, num_levels: nat, root_width: nat) -> bool {
    &&& attr.num_levels == num_levels
    &&& attr.pte_size_in_bytes == 8
    &&& attr.pbmt_mode_bits == BitRange { msb: 62, lsb: 61 }
    &&& attr.va_vpn_bits@[num_levels - 1].lsb == 12
    &&& forall|l: int| #![trigger attr.va_vpn_bits@[l]] 0 <= l < num_levels - 1 ==> attr.va_vpn_bits@[l].lsb == attr.va_vpn_bits@[l + 1].msb + 1
    &&& forall|l: int| #![trigger attr.va_vpn_bits@[l]] 0 < l < num_levels ==> range_width(attr.va_vpn_bits@[l]) == 9
    &&& range_width(attr.va_vpn_bits@[0]) == root_width
    &&& forall|l: int| #![trigger attr.pa_ppn_bits@[l]] 0 <= l < num_levels ==> {
        &&& attr.pa_ppn_bits@[l].lsb == attr.va_vpn_bits@[l].lsb
        &&& (l > 0 ==> attr.pa_ppn_bits@[l].msb == attr.va_vpn_bits@[l].msb)
        &&& attr.pte_ppn_bits@[l].lsb + 2 == attr.pa_ppn_bits@[l].lsb
        &&& attr.pte_ppn_bits@[l].msb + 2 == attr.pa_ppn_bits@[l].msb
    }
    &&& attr.pa_ppn_bits@[0].msb == 55
}

/// The built-in layouts are the standard ones: Sv39 and Sv48 with a
/// nine-bit root index, Sv39x4 and Sv48x4 the same with a root index two
/// bits wider; each for the translation mode that selects it.
pub proof fn lemma_builtin_layouts_standard()
    ensures
        standard_layout(sv39_attribute(), 3, 9) && sv39_attribute().xatp_mode == 8,
        standard_layout(sv48_attribute(), 4, 9) && sv48_attribute().xatp_mode == 9,
        standard_layout(sv39x4_attribute(), 3, 11) && sv39x4_attribute().xatp_mode == 8,
        standard_layout(sv48x4_attribute(), 4, 11) && sv48x4_attribute().xatp_mode == 9,
{
    assert(standard_layout(sv39_attribute(), 3, 9)) by {
        let a = sv39_attribute();
        assert forall|l: int| 0 <= l < 3 implies #[trigger] a.pa_ppn_bits@[l].lsb == a.va_vpn_bits@[l].lsb by {
            assert(l == 0 || l == 1 || l == 2);
        }
    }
    assert(standard_layout(sv48_attribute(), 4, 9)) by {
        let a = sv48_attribute();
        assert forall|l: int| 0 <= l < 4 implies #[trigger] a.pa_ppn_bits@[l].lsb == a.va_vpn_bits@[l].lsb by {
            assert(l == 0 || l == 1 || l == 2 || l == 3);
        }
    }
    assert(standard_layout(sv39x4_attribute(), 3, 11)) by {
        let a = sv39x4_attribute();
        assert forall|l: int| 0 <= l < 3 implies #[trigger] a.pa_ppn_bits@[l].lsb == a.va_vpn_bits@[l].lsb by {
            assert(l == 0 || l == 1 || l == 2);
        }
    }
    assert(standard_layout(sv48x4_attribute(), 4, 11)) by {
        let a = sv48x4_attribute();
        assert forall|l: int| 0 <= l < 4 implies #[trigger] a.pa_ppn_bits@[l].lsb == a.va_vpn_bits@[l].lsb by {
            assert(l == 0 || l == 1 || l == 2 || l == 3);
        }
    }
}

/// Index of the first layout in `attrs` for translation mode `mode`.
pub open spec fn find_mode(attrs: Seq<MmuModeAttribute>, mode: u8) -> Option<int> {
    if exists|k: int| 0 <= k < attrs.len() && #[trigger] attrs[k].xatp_mode == mode {
        Some(choose|k: int| 0 <= k < attrs.len() && #[trigger] attrs[k].xatp_mode == mode && forall|j: int| 0 <= j < k ==> attrs[j].xatp_mode != mode)
    } else {
        None
    }
}

/// Walks the tables selected by `xatp` with the layout, among `attributes`,
/// for the mode that `xatp` selects; with no such layout the walk fails and
/// `xlate_info` is left as it was.
pub fn translate_with_modes<F: Fn(u64) -> u64>(xatp: u64, attributes: &[MmuModeAttribute], va: u64, read_pte: F, xlate_info: &mut TranslationInfo) -> (r: Result<(), WalkFault>)
    requires
        forall|k: int| 0 <= k < attributes@.len() ==> mmu_attribute_wf(#[trigger] attributes@[k]),
        forall|a: u64| read_pte.requires((a,)),
    ensures
        match find_mode(attributes@, xatp_mode_of(xatp)) {
            None => r == Err::<(), WalkFault>(WalkFault::UnsupportedMode) && *final(xlate_info) == *old(xlate_info),
            Some(k) => translated(xatp, attributes@[k], va, read_pte, *old(xlate_info), *final(xlate_info), r),
        },
{
    proof {
        lemma_walk_field_shifts();
    }
    let mode_field: u64 = get_field(xatp, SATP64_MODE);
    let mode: u8 = mode_field as u8;
    let mut k: usize = 0;
    while k < attributes.len()
        invariant
            k <= attributes@.len(),
            mode == xatp_mode_of(xatp),
            forall|j: int| 0 <= j < k ==> attributes@[j].xatp_mode != mode,
            forall|j: int| 0 <= j < attributes@.len() ==> mmu_attribute_wf(#[trigger] attributes@[j]),
            forall|a: u64| read_pte.requires((a,)),
            *xlate_info == *old(xlate_info),
        decreases attributes@.len() - k,
    {
        if attributes[k].xatp_mode == mode {
            proof {
                let c = choose|c: int| 0 <= c < attributes@.len() && #[trigger] attributes@[c].xatp_mode == mode && forall|j: int| 0 <= j < c ==> attributes@[j].xatp_mode != mode;
                assert(attributes@[k as int].xatp_mode == mode);
                if c < k {
                    assert(attributes@[c].xatp_mode != mode);
                } else if c > k {
                    assert(attributes@[k as int].xatp_mode != mode);
                }
                assert(find_mode(attributes@, mode) == Some(k as int));
                assert(mmu_attribute_wf(attributes@[k as int]));
            }
            return translate(xatp, &attributes[k], va, read_pte, xlate_info);
        }
        k = k + 1;
    }
    Err(WalkFault::UnsupportedMode)
}

/// Translates a virtual address through the tables `satp` selects.
#[allow(non_snake_case)]
pub fn translate_VA<F: Fn(u64) -> u64>(satp: u64, va: u64, read_pte: F, xlate_info: &mut TranslationInfo) -> (r: Result<(), WalkFault>)
    requires
        forall|a: u64| read_pte.requires((a,)),
    ensures
        match find_mode(seq![sv39_attribute(), sv48_attribute()], xatp_mode_of(satp)) {
            None => r == Err::<(), WalkFault>(WalkFault::UnsupportedMode) && *final(xlate_info) == *old(xlate_info),
            Some(k) => translated(satp, seq![sv39_attribute(), sv48_attribute()][k], va, read_pte, *old(xlate_info), *final(xlate_info), r),
        },
{
    let attrs = mmu_smode_attributes();
    proof {
        lemma_builtin_attributes_wf();
        assert forall|k: int| 0 <= k < attrs@.len() implies mmu_attribute_wf(#[trigger] attrs@[k]) by {
            assert(k == 0 || k == 1);
        }
    }
    translate_with_modes(satp, attrs.as_slice(), va, read_pte, xlate_info)
}

/// Translates a guest virtual address through the tables `vsatp` selects.
#[allow(non_snake_case)]
pub fn translate_GVA<F: Fn(u64) -> u64>(vsatp: u64, gva: u64, read_pte: F, xlate_info: &mut TranslationInfo) -> (r: Result<(), WalkFault>)
    requires
        forall|a: u64| read_pte.requires((a,)),
    ensures
        match find_mode(seq![sv39_attribute(), sv48_attribute()], xatp_mode_of(vsatp)) {
            None => r == Err::<(), WalkFault>(WalkFault::UnsupportedMode) && *final(xlate_info) == *old(xlate_info),
            Some(k) => translated(vsatp, seq![sv39_attribute(), sv48_attribute()][k], gva, read_pte, *old(xlate_info), *final(xlate_info), r),
        },
{
    let attrs = mmu_smode_attributes();
    proof {
        lemma_builtin_attributes_wf();
        assert forall|k: int| 0 <= k < attrs@.len() implies mmu_attribute_wf(#[trigger] attrs@[k]) by {
            assert(k == 0 || k == 1);
        }
    }
    translate_with_modes(vsatp, attrs.as_slice(), gva, read_pte, xlate_info)
}

/// Translates a guest-physical address through the tables `hgatp` selects.
#[allow(non_snake_case)]
pub fn translate_GPA<F: Fn(u64) -> u64>(hgatp: u64, gpa: u64, read_pte: F, xlate_info: &mut TranslationInfo) -> (r: Result<(), WalkFault>)
    requires
        forall|a: u64| read_pte.requires((a,)),
    ensures
        match find_mode(seq![sv39x4_attribute(), sv48x4_attribute()], xatp_mode_of(hgatp)) {
            None => r == Err::<(), WalkFault>(WalkFault::UnsupportedMode) && *final(xlate_info) == *old(xlate_info),
            Some(k) => translated(hgatp, seq![sv39x4_attribute(), sv48x4_attribute()][k], gpa, read_pte, *old(xlate_info), *final(xlate_info), r),
        },
{
    let attrs = mmu_hsmode_attributes();
    proof {
        lemma_builtin_attributes_wf();
        assert forall|k: int| 0 <= k < attrs@.len() implies mmu_attribute_wf(#[trigger] attrs@[k]) by {
            assert(k == 0 || k == 1);
        }
    }
    translate_with_modes(hgatp, attrs.as_slice(), gpa, read_pte, xlate_info)
}

/// Every level's physical page number lies at or above bit 12.
pub open spec fn ppn_above_page_offset(attr: MmuModeAttribute) -> bool {
    forall|l: int| 0 <= l < attr.num_levels ==> #[trigger] attr.pa_ppn_bits@[l].lsb >= 12
}

/// A physical page address assembled from an entry has its low 12 bits
/// clear.
proof fn lemma_ppn_fold_page_aligned(attr: MmuModeAttribute, pte: u64, n: nat)
    requires
        mmu_attribute_wf(attr),
        ppn_above_page_offset(attr),
        n <= attr.num_levels,
    ensures
        ppn_fold(attr, pte, n) & 0xfff == 0,
    decreases n,
{
    if n == 0 {
        assert(0u64 & 0xfff == 0) by (bit_vector);
    } else {
        lemma_ppn_fold_page_aligned(attr, pte, (n - 1) as nat);
        let r = attr.pa_ppn_bits@[n - 1];
        assert(valid_bit_range(r) && r.lsb >= 12);
        let a = ppn_fold(attr, pte, (n - 1) as nat);
        let b = bits_of(pte, attr.pte_ppn_bits@[n - 1]) as u64;
        crate::utils::lemma_bit_range_forms(a, b, r);
        let w = (r.msb - r.lsb + 1) as u8;
        let m = ((1u64 << w) - 1) as u64;
        let l = r.lsb;
        assert(((a & !(m << l)) | (b << l)) & 0xfff == 0) by (bit_vector)
            requires
                a & 0xfff == 0,
                12 <= l < 64,
        ;
    }
}

/// A successful translation keeps the offset inside the page: the low 12
/// bits of the physical address are those of the virtual address, for any
/// layout whose physical page numbers lie above bit 12.
pub proof fn lemma_translation_keeps_page_offset<F: Fn(u64) -> u64>(
    xatp: u64,
    attr: MmuModeAttribute,
    va: u64,
    read_pte: F,
    old: TranslationInfo,
    new: TranslationInfo,
    r: Result<(), WalkFault>,
)
    requires
        mmu_attribute_wf(attr),
        ppn_above_page_offset(attr),
        translated(xatp, attr, va, read_pte, old, new, r),
        r is Ok,
        new.walk_successful == 1,
    ensures
        new.pa % 4096 == va % 4096,
{
    if new.xatp_mode != VM_1_10_MBARE {
        let n = new.levels_traversed as int;
        let vals = new.pte_value@.take(n);
        let f = ppn_fold(attr, vals[n - 1], attr.num_levels as nat);
        lemma_ppn_fold_page_aligned(attr, vals[n - 1], attr.num_levels as nat);
        vstd::arithmetic::power2::lemma2_to64();
        assert(pow2(0) == 1 && pow2(12) == 4096);
        assert(va as nat / 1 == va);
        assert(bits_of(va, page_offset_range()) == va % 4096);
        assert(f % 4096 == 0) by (bit_vector)
            requires
                f & 0xfff == 0,
        ;
        assert(new.pa == f + va % 4096);
    }
}

/// The built-in layouts place physical page numbers above bit 12.
pub proof fn lemma_builtin_attributes_page_aligned()
    ensures
        ppn_above_page_offset(sv39_attribute()),
        ppn_above_page_offset(sv48_attribute()),
        ppn_above_page_offset(sv39x4_attribute()),
        ppn_above_page_offset(sv48x4_attribute()),
{
    assert forall|l: int| 0 <= l < sv39_attribute().num_levels implies #[trigger] sv39_attribute().pa_ppn_bits@[l].lsb >= 12 by {
        assert(l == 0 || l == 1 || l == 2);
    }
    assert forall|l: int| 0 <= l < sv48_attribute().num_levels implies #[trigger] sv48_attribute().pa_ppn_bits@[l].lsb >= 12 by {
        assert(l == 0 || l == 1 || l == 2 || l == 3);
    }
    assert forall|l: int| 0 <= l < sv39x4_attribute().num_levels implies #[trigger] sv39x4_attribute().pa_ppn_bits@[l].lsb >= 12 by {
        assert(l == 0 || l == 1 || l == 2);
    }
    assert forall|l: int| 0 <= l < sv48x4_attribute().num_levels implies #[trigger] sv48x4_attribute().pa_ppn_bits@[l].lsb >= 12 by {
        assert(l == 0 || l == 1 || l == 2 || l == 3);
    }
}

} // verus!
