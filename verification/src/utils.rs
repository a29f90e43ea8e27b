//! Bit-range extraction and insertion, the shared linear-congruential
//! pseudo-random generator and the entropy-seed poll.
use vstd::prelude::*;
use vstd::arithmetic::power2::{pow2, lemma_pow2_adds, lemma_pow2_pos, lemma2_to64, lemma2_to64_rest, lemma_pow2_strictly_increases};
use vstd::bits::{low_bits_mask, lemma_u64_low_bits_mask_is_mod, lemma_u64_shl_is_mul, lemma_u64_shr_is_div, lemma_u64_pow2_no_overflow};
use crate::cpu_bits::range_mask;

verus! {

/// An inclusive range of bit positions `lsb..=msb`.
#[derive(Clone, Copy, Debug, PartialEq, Eq, Structural)]
pub struct BitRange {
    pub msb: u8,
    pub lsb: u8,
}

/// A range that lies wholly inside a 64-bit word and is narrower than the
/// whole word.
pub open spec fn valid_bit_range(range: BitRange) -> bool {
    &&& range.lsb <= range.msb
    &&& range.msb < 64
    &&& range.msb - range.lsb < 63
}

/// Number of bits in `range`.
pub open spec fn range_width(range: BitRange) -> nat {
    (range.msb - range.lsb + 1) as nat
}

/// The field of `value` at `range`, as a number.
pub open spec fn bits_of(value: u64, range: BitRange) -> nat {
    (value as nat / pow2(range.lsb as nat)) % pow2(range_width(range))
}

/// A range that `extract_bits` and `place_bits` accept: its low bit lies
/// inside a 64-bit word and it is narrower than the whole word. Its bits
/// above bit 63 read as zero and are not written.
pub open spec fn extractable_range(range: BitRange) -> bool {
    &&& range.lsb <= range.msb
    &&& range.lsb < 64
    &&& range.msb - range.lsb < 63
}

/// The highest bit of `range` that lies inside a 64-bit word.
pub open spec fn word_msb(range: BitRange) -> nat {
    if range.msb < 64 { range.msb as nat } else { 63 }
}

/// `value` with the bits of `range` cleared and `bits << lsb` or-ed in.
pub open spec fn with_bits(value: u64, bits: u64, range: BitRange) -> u64 {
    (value & !(range_mask(range.lsb as nat, word_msb(range)) as u64)) | (bits << range.lsb)
}

/// `(1 << w) - 1` is the low `w` bits, and `(1 << w) - 1 << l` the bits
/// `l..l+w` that lie inside the word.
pub(crate) proof fn lemma_width_mask(l: u8, w: u8)
    requires
        1 <= w < 64,
        l < 64,
    ensures
        1u64 << w == pow2(w as nat),
        1u64 << w >= 1,
        ((1u64 << w) - 1) as u64 == pow2(w as nat) - 1,
        ((1u64 << w) - 1) as u64 == low_bits_mask(w as nat),
        (((1u64 << w) - 1) as u64) << l == range_mask(l as nat, (if l + w <= 64 { l + w - 1 } else { 63 }) as nat),
{
    if l + w > 64 {
        lemma_u64_pow2_no_overflow(w as nat);
        lemma_u64_shl_is_mul(1, w as u64);
        lemma_pow2_pos(w as nat);
        lemma_u64_pow2_no_overflow(l as nat);
        lemma_u64_shl_is_mul(1, l as u64);
        let m: u64 = ((1u64 << w) - 1) as u64;
        assert(1u64 << w == 1u64 << (w as u64) && 1u64 << l == 1u64 << (l as u64)
            && m << l == (0xFFFF_FFFF_FFFF_FFFFu64 - (((1u64 << l) - 1) as u64)) as u64) by (bit_vector)
            requires
                m == ((1u64 << w) - 1) as u64,
                1 <= w < 64,
                l < 64,
                l + w > 64,
        ;
        lemma2_to64_rest();
        lemma2_to64();
        assert(range_mask(l as nat, 63) == pow2(64) - pow2(l as nat));
        return;
    }
    lemma_u64_pow2_no_overflow(w as nat);
    lemma_u64_shl_is_mul(1, w as u64);
    assert(1u64 << w == 1u64 << (w as u64)) by (bit_vector);
    lemma_pow2_pos(w as nat);
    lemma_pow2_pos(l as nat);
    lemma_pow2_adds(w as nat, l as nat);
    lemma2_to64_rest();
    assert(pow2((w + l) as nat) <= pow2(64)) by {
        if w + l < 64 {
            lemma_pow2_strictly_increases((w + l) as nat, 64);
        }
    }
    let m: u64 = ((1u64 << w) - 1) as u64;
    let a = pow2(w as nat) as int;
    let b = pow2(l as nat) as int;
    assert((a - 1) * b == a * b - b) by (nonlinear_arith);
    assert(l < 64);
    lemma_u64_shl_is_mul(m, l as u64);
    assert(m << l == m << (l as u64)) by (bit_vector);
}

/// Reads the bits of `value` at `range`, shifted down to bit 0.
pub fn extract_bits(value: u64, range: BitRange) -> (r: u64)
    requires
        extractable_range(range),
    ensures
        r == bits_of(value, range),
{
    let msb = range.msb;
    let lsb = range.lsb;
    let w: u8 = msb - lsb + 1;
    proof {
        lemma_width_mask(lsb, w);
        lemma_u64_low_bits_mask_is_mod(value >> lsb, w as nat);
        lemma_u64_shr_is_div(value, lsb as u64);
        lemma_u64_pow2_no_overflow(w as nat);
    }
    (value >> lsb) & ((1u64 << w) - 1)
}

/// Clears the bits of `value` at `range` and or-s in `bits` shifted up to
/// the range's low bit.
pub fn place_bits(value: u64, bits: u64, range: BitRange) -> (r: u64)
    requires
        extractable_range(range),
    ensures
        r == with_bits(value, bits, range),
{
    let msb = range.msb;
    let lsb = range.lsb;
    let w: u8 = msb - lsb + 1;
    proof {
        lemma_width_mask(lsb, w);
    }
    (value & !(((1u64 << w) - 1) << lsb)) | (bits << lsb)
}

/// `bits_of` and `with_bits` in the shift-and-mask form the bit-vector
/// solver works with.
pub(crate) proof fn lemma_bit_range_forms(value: u64, bits: u64, range: BitRange)
    requires
        valid_bit_range(range),
    ensures
        ({
            let w = (range.msb - range.lsb + 1) as u8;
            let m = ((1u64 << w) - 1) as u64;
            &&& bits_of(value, range) == (value >> range.lsb) & m
            &&& with_bits(value, bits, range) == (value & !(m << range.lsb)) | (bits << range.lsb)
            &&& m == pow2(range_width(range)) - 1
            &&& 1 <= w < 64
            &&& range.lsb + w <= 64
        }),
{
    let w = (range.msb - range.lsb + 1) as u8;
    lemma_width_mask(range.lsb, w);
    lemma_u64_low_bits_mask_is_mod(value >> range.lsb, w as nat);
    lemma_u64_shr_is_div(value, range.lsb as u64);
    lemma_u64_pow2_no_overflow(w as nat);
}

/// Placing a value that fits the range and reading the range back gives
/// that value.
pub proof fn lemma_extract_after_place(value: u64, bits: u64, range: BitRange)
    requires
        valid_bit_range(range),
        bits < pow2(range_width(range)),
    ensures
        bits_of(with_bits(value, bits, range), range) == bits,
{
    lemma_bit_range_forms(value, bits, range);
    lemma_bit_range_forms(with_bits(value, bits, range), bits, range);
    let w = (range.msb - range.lsb + 1) as u8;
    let m = ((1u64 << w) - 1) as u64;
    let l = range.lsb;
    let v = value;
    let b = bits;
    assert(((((v & !(m << l)) | (b << l)) >> l) & m) == b) by (bit_vector)
        requires
            m == ((1u64 << w) - 1) as u64,
            1 <= w < 64,
            l + w <= 64,
            b <= m,
    ;
}

/// Writing back the bits just read from a range leaves the value unchanged.
pub proof fn lemma_place_after_extract(value: u64, range: BitRange)
    requires
        valid_bit_range(range),
    ensures
        with_bits(value, bits_of(value, range) as u64, range) == value,
{
    lemma_bit_range_forms(value, bits_of(value, range) as u64, range);
    let w = (range.msb - range.lsb + 1) as u8;
    let m = ((1u64 << w) - 1) as u64;
    let l = range.lsb;
    let v = value;
    assert((v & !(m << l)) | (((v >> l) & m) << l) == v) by (bit_vector)
        requires
            m == ((1u64 << w) - 1) as u64,
            1 <= w < 64,
            l + w <= 64,
    ;
}

/// Placing bits into one range leaves every range disjoint from it as it
/// was.
pub proof fn lemma_place_keeps_disjoint_range(value: u64, bits: u64, range: BitRange, other: BitRange)
    requires
        valid_bit_range(range),
        valid_bit_range(other),
        bits < pow2(range_width(range)),
        other.msb < range.lsb || range.msb < other.lsb,
    ensures
        bits_of(with_bits(value, bits, range), other) == bits_of(value, other),
{
    lemma_bit_range_forms(value, bits, range);
    lemma_bit_range_forms(value, bits, other);
    lemma_bit_range_forms(with_bits(value, bits, range), bits, other);
    let w = (range.msb - range.lsb + 1) as u8;
    let m = ((1u64 << w) - 1) as u64;
    let l = range.lsb;
    let w2 = (other.msb - other.lsb + 1) as u8;
    let m2 = ((1u64 << w2) - 1) as u64;
    let l2 = other.lsb;
    let v = value;
    let b = bits;
    assert(((((v & !(m << l)) | (b << l)) >> l2) & m2) == ((v >> l2) & m2)) by (bit_vector)
        requires
            m == ((1u64 << w) - 1) as u64,
            m2 == ((1u64 << w2) - 1) as u64,
            1 <= w < 64,
            l + w <= 64,
            1 <= w2 < 64,
            l2 + w2 <= 64,
            b <= m,
            l2 + w2 <= l || l + w <= l2,
    ;
}

/// Largest value the pseudo-random generator returns.
pub const RAND_MAX: u64 = 0x7fffffff;
/// Multiplier of the linear-congruential generator.
pub const LCG_MULTIPLIER: u64 = 6364136223846793005;

/// The generator's next state: `seed * LCG_MULTIPLIER + 1` modulo `2^64`.
pub open spec fn lcg_next(seed: u64) -> u64 {
    ((seed as nat * LCG_MULTIPLIER as nat + 1) % 0x1_0000_0000_0000_0000) as u64
}

/// The number the generator hands out for a state: bits 32 to 62.
pub open spec fn lcg_output(state: u64) -> u64 {
    ((state as nat / 0x1_0000_0000) % 0x8000_0000) as u64
}

/// One step of the generator from state `current`: the new state and the
/// number handed out.
pub fn random_step(current: u64) -> (r: (u64, u64))
    ensures
        r.0 == lcg_next(current),
        r.1 == lcg_output(r.0),
        r.1 <= RAND_MAX,
{
    let w: u64 = current.wrapping_mul(LCG_MULTIPLIER);
    let val: u64 = w.wrapping_add(1);
    proof {
        let m: int = 0x1_0000_0000_0000_0000;
        let p: int = current as int * LCG_MULTIPLIER as int;
        assert(w as int == p % m);
        vstd::arithmetic::div_mod::lemma_add_mod_noop(p, 1, m);
        assert(val as int == (p + 1) % m);
    }
    let ret: u64 = (val >> 32) & RAND_MAX;
    assert(ret == ((val as nat / 0x1_0000_0000) % 0x8000_0000) as u64 && ret <= 0x7fffffff) by (bit_vector)
        requires
            ret == (val >> 32u64) & 0x7fffffffu64,
    ;
    (val, ret)
}

/// Advances the generator state `seed` and returns the number it hands out.
pub fn random_next(seed: &mut u64) -> (r: u64)
    ensures
        *final(seed) == lcg_next(*old(seed)),
        r == lcg_output(*final(seed)),
        r <= RAND_MAX,
{
    let (val, ret) = random_step(*seed);
    *seed = val;
    ret
}

/// Seeds the generator with `value` (sign-extended to 64 bits).
pub fn set_seed(seed: &mut u64, value: i32)
    ensures
        *final(seed) == value as u64,
{
    *seed = value as u64;
}

/// The generator's next number as a C `int`.
pub fn get_random_number(seed: &mut u64) -> (r: i32)
    ensures
        *final(seed) == lcg_next(*old(seed)),
        r == lcg_output(*final(seed)),
        0 <= r,
{
    let v = random_next(seed);
    v as i32
}

/// Seed-CSR operational state: entropy is ready.
pub const SEED_STATE_ES16: u64 = 2;

/// Why polling the entropy source fails the test.
#[derive(Clone, Copy, Debug, PartialEq, Eq, Structural)]
pub enum SeedError {
    /// The entropy source reports an unrecoverable failure.
    Dead,
}

/// Most seed-CSR reads one poll makes.
pub const SEED_POLL_LIMIT: u32 = 100;

/// The operational-state field (bits 31:30) of a seed-CSR value.
pub open spec fn seed_opst(seed: u32) -> nat {
    (seed as nat / 0x4000_0000) % 4
}

/// The entropy field (bits 15:0) of a seed-CSR value.
pub open spec fn seed_entropy(seed: u32) -> nat {
    seed as nat % 0x10000
}

/// `polls` are the seed-CSR values of a complete poll: every read but the
/// last reports that entropy is still coming (BIST or WAIT), and the last
/// reports entropy or failure, unless the read limit was reached.
pub open spec fn seed_poll_complete(polls: Seq<u32>) -> bool {
    &&& 1 <= polls.len() <= SEED_POLL_LIMIT
    &&& forall|i: int| 0 <= i < polls.len() - 1 ==> #[trigger] seed_opst(polls[i]) <= 1
    &&& (seed_opst(polls.last()) >= 2 || polls.len() == SEED_POLL_LIMIT)
}

/// The outcome of a complete poll: the entropy of the last read, or a
/// failure when the source reported itself dead.
pub open spec fn seed_poll_outcome(polls: Seq<u32>) -> Result<i32, SeedError> {
    if seed_opst(polls.last()) == 3 {
        Err(SeedError::Dead)
    } else {
        Ok(seed_entropy(polls.last()) as i32)
    }
}

/// A complete poll ends in failure exactly when its last read reports the
/// dead state (bits 31:30 equal to 3); otherwise its result is the whole
/// 16-bit entropy field (bits 15:0) of the last read, whether that read
/// reported entropy or the read limit was reached.
pub proof fn lemma_seed_poll_outcome(polls: Seq<u32>)
    requires
        seed_poll_complete(polls),
    ensures
        (polls.last() >> 30u32) & 3 == 3 ==> seed_poll_outcome(polls) == Err::<i32, SeedError>(SeedError::Dead),
        (polls.last() >> 30u32) & 3 != 3 ==> seed_poll_outcome(polls) == Ok::<i32, SeedError>((polls.last() & 0xFFFF) as i32),
        (polls.last() >> 30u32) & 3 == 2 ==> seed_poll_outcome(polls) == Ok::<i32, SeedError>((polls.last() & 0xFFFF) as i32),
{
    let x = polls.last();
    assert((x >> 30u32) & 3 == (x / 0x4000_0000) % 4 && x & 0xFFFF == x % 0x10000) by (bit_vector);
}

/// Polls the entropy source through `read_seed` until it delivers entropy,
/// reports failure, or `SEED_POLL_LIMIT` reads have been made.
pub fn try_get_seed<F: Fn() -> u32>(read_seed: F) -> (r: Result<i32, SeedError>)
    requires
        read_seed.requires(()),
    ensures
        exists|polls: Seq<u32>|
            #[trigger] seed_poll_complete(polls) && r == seed_poll_outcome(polls) && forall|i: int|
                0 <= i < polls.len() ==> call_ensures(read_seed, (), #[trigger] polls[i]),
{
    proof {
        assert((0xC000_0000u64 >> 30u64) & 1 == 1 && 0xC000_0000u64 << 34u64 == 0 && (0xFFFFu64 >> 0u64) & 1 == 1
            && 0xFFFFu64 << 64u64 == 0) by (bit_vector);
        crate::cpu_bits::lemma_field_shift_of(crate::cpu_bits::SEED_OPST, 30);
        crate::cpu_bits::lemma_field_shift_of(crate::cpu_bits::SEED_ENTROPY_MASK, 0);
    }
    let mut seed: u32 = 0;
    let ghost mut polls: Seq<u32> = Seq::empty();
    let mut n: u32 = 0;
    while n < SEED_POLL_LIMIT
        invariant
            n <= SEED_POLL_LIMIT,
            polls.len() == n,
            n > 0 ==> seed == polls.last(),
            forall|i: int| 0 <= i < polls.len() ==> #[trigger] seed_opst(polls[i]) <= 1,
            forall|i: int| 0 <= i < polls.len() ==> call_ensures(read_seed, (), #[trigger] polls[i]),
            read_seed.requires(()),
            crate::cpu_bits::field_shift(crate::cpu_bits::SEED_OPST) == 30,
            crate::cpu_bits::field_shift(crate::cpu_bits::SEED_ENTROPY_MASK) == 0,
        decreases SEED_POLL_LIMIT - n,
    {
        seed = read_seed();
        proof {
            polls = polls.push(seed);
        }
        n = n + 1;
        let opst = crate::cpu_bits::get_field(seed as u64, crate::cpu_bits::SEED_OPST);
        let entropy = crate::cpu_bits::get_field(seed as u64, crate::cpu_bits::SEED_ENTROPY_MASK);
        let s64: u64 = seed as u64;
        assert(opst == seed_opst(seed) && entropy == seed_entropy(seed)) by (bit_vector)
            requires
                opst == (s64 & 0xC000_0000u64) >> 30u64,
                entropy == (s64 & 0xFFFFu64) >> 0u64,
                s64 == seed,
        ;
        if opst == crate::cpu_bits::SEED_OPST_ES16 {
            assert(seed_poll_complete(polls));
            return Ok(entropy as i32);
        } else if opst == crate::cpu_bits::SEED_OPST_WAIT || opst == crate::cpu_bits::SEED_OPST_BIST {
            continue;
        } else {
            assert(seed_poll_complete(polls));
            return Err(SeedError::Dead);
        }
    }
    let entropy = crate::cpu_bits::get_field(seed as u64, crate::cpu_bits::SEED_ENTROPY_MASK);
    let s64: u64 = seed as u64;
    assert(entropy == seed_entropy(seed)) by (bit_vector)
        requires
            entropy == (s64 & 0xFFFFu64) >> 0u64,
            s64 == seed,
    ;
    assert(seed_poll_complete(polls));
    Ok(entropy as i32)
}

} // verus!
