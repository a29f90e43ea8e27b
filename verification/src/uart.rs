//! Console output logic: the UART device description, whether the console
//! is enabled, and the text that `puts` and the `printk` formatter produce.
//! Writing the bytes to the device is left to the caller.
use vstd::prelude::*;
use crate::string::{nul_terminated, is_c_string_length};

verus! {

/// A memory-mapped UART, by the address of its transmit register.
pub struct Uart {
    pub base_address: usize,
}

impl Uart {
    /// The UART whose transmit register is at `base_address`.
    pub fn new(base_address: usize) -> (r: Self)
        ensures
            r.base_address == base_address,
    {
        Uart { base_address }
    }
}

/// Whether console output has been enabled.
pub struct UartState {
    pub initialized: u8,
}

impl UartState {
    /// Console output not yet enabled.
    pub fn new() -> (r: Self)
        ensures
            r.initialized == 0,
    {
        UartState { initialized: 0 }
    }

    /// Marks console output as enabled.
    pub fn mark_uart_enabled(&mut self)
        ensures
            final(self).initialized == 1,
    {
        self.initialized = 1;
    }

    /// Sets the console up; that only marks it enabled.
    pub fn init_uart(&mut self)
        ensures
            final(self).initialized == 1,
    {
        self.mark_uart_enabled();
    }

    /// Whether console output is enabled.
    pub fn uart_enabled(&self) -> (r: bool)
        ensures
            r == (self.initialized != 0),
    {
        self.initialized != 0
    }
}

/// The contents of the C string in a NUL-terminated buffer, without the NUL.
pub open spec fn c_string(s: Seq<u8>) -> Seq<u8> {
    s.take(choose|n: int| is_c_string_length(s, n))
}

/// Reads the contents of a NUL-terminated buffer.
fn c_string_contents(s: &[u8]) -> (r: usize)
    requires
        nul_terminated(s@),
    ensures
        is_c_string_length(s@, r as int),
        c_string(s@) == s@.take(r as int),
{
    let n = crate::string::strlen(Some(s));
    proof {
        let m = choose|m: int| is_c_string_length(s@, m);
        assert(is_c_string_length(s@, n as int));
        if m < n {
            assert(s@[m] != 0);
        } else if m > n {
            assert(s@[n as int] != 0);
        }
    }
    n
}

/// The bytes the console receives for byte `b` printed as a character:
/// `b` itself below 0x80, otherwise the two-byte UTF-8 encoding of the
/// character U+0080 to U+00FF that `b` stands for.
pub open spec fn char_bytes(b: u8) -> Seq<u8> {
    if b < 0x80 {
        seq![b]
    } else {
        seq![(0xC0 + b / 64) as u8, (0x80 + b % 64) as u8]
    }
}

/// The bytes the console receives for the bytes `s` printed one by one as
/// characters.
pub open spec fn chars_bytes(s: Seq<u8>) -> Seq<u8>
    decreases s.len(),
{
    if s.len() == 0 {
        Seq::empty()
    } else {
        chars_bytes(s.drop_last()) + char_bytes(s.last())
    }
}

/// Appends the bytes of `b` printed as a character.
fn push_char(out: &mut Vec<u8>, b: u8)
    ensures
        final(out)@ == old(out)@ + char_bytes(b),
{
    let ghost o = out@;
    if b < 0x80 {
        out.push(b);
    } else {
        out.push(0xC0 + b / 64);
        out.push(0x80 + b % 64);
    }
    assert(out@ =~= o + char_bytes(b));
}

/// Appends the bytes `s` printed one by one as characters.
fn push_chars(out: &mut Vec<u8>, s: &[u8], n: usize)
    requires
        n <= s@.len(),
    ensures
        final(out)@ == old(out)@ + chars_bytes(s@.take(n as int)),
{
    let ghost o = out@;
    let mut i: usize = 0;
    while i < n
        invariant
            i <= n,
            n <= s@.len(),
            out@ == o + chars_bytes(s@.take(i as int)),
        decreases n - i,
    {
        push_char(out, s[i]);
        i = i + 1;
        assert(s@.take(i as int).drop_last() =~= s@.take(i - 1));
        assert(out@ =~= o + chars_bytes(s@.take(i as int)));
    }
}

/// What `puts` prints for a C string: its bytes, each printed as a
/// character, and a newline; nothing
/// while the console is disabled (the string is not read then).
pub fn put_str(uart_enabled: bool, s: Option<&[u8]>) -> (r: (Vec<u8>, i32))
    requires
        uart_enabled ==> (s matches Some(b) ==> nul_terminated(b@)),
    ensures
        !uart_enabled ==> r.0@.len() == 0 && r.1 == 0,
        uart_enabled && s is None ==> r.0@.len() == 0 && r.1 == -1,
        uart_enabled ==> (s matches Some(b) ==> r.0@ == chars_bytes(c_string(b@)).push(10u8) && r.1 == 0),
{
    let mut out: Vec<u8> = Vec::new();
    if !uart_enabled {
        return (out, 0);
    }
    match s {
        None => (out, -1),
        Some(b) => {
            let n = c_string_contents(b);
            push_chars(&mut out, b, n);
            out.push(10u8);
            (out, 0)
        },
    }
}

/// The character of a digit value below 16 (lower-case for 10 to 15).
pub open spec fn digit_char(d: nat) -> u8 {
    if d < 10 { (48 + d) as u8 } else { (87 + d) as u8 }
}

/// The digits of `n` in `base`, most significant first.
pub open spec fn digits(n: nat, base: nat) -> Seq<u8>
    decreases n,
{
    if base < 2 || n < base {
        seq![digit_char(n)]
    } else {
        proof {
            assert(n / base < n) by (nonlinear_arith)
                requires
                    base >= 2,
                    n >= base,
            ;
        }
        digits(n / base, base).push(digit_char(n % base))
    }
}

/// The decimal text of a signed value.
pub open spec fn decimal_text(v: i32) -> Seq<u8> {
    if v < 0 { seq![45u8] + digits((-v) as nat, 10) } else { digits(v as nat, 10) }
}

/// The lower-case hexadecimal text of an unsigned value.
pub open spec fn hex_text(v: u32) -> Seq<u8> {
    digits(v as nat, 16)
}

/// The value of a digit character: `0`-`9` and `a`-`f` (other bytes read
/// as 0).
pub open spec fn digit_value(c: u8) -> nat {
    if 48 <= c <= 57 {
        (c - 48) as nat
    } else if 97 <= c <= 102 {
        (c - 87) as nat
    } else {
        0
    }
}

/// Whether `c` is a decimal digit or a lower-case hexadecimal digit.
pub open spec fn is_digit_char(c: u8) -> bool {
    (48 <= c <= 57) || (97 <= c <= 102)
}

/// The number a string of digits reads as in `base`, most significant
/// digit first.
pub open spec fn parse_digits(s: Seq<u8>, base: nat) -> nat
    decreases s.len(),
{
    if s.len() == 0 {
        0
    } else {
        parse_digits(s.drop_last(), base) * base + digit_value(s.last())
    }
}

/// The digits of `n` in `base` are digit characters and read back as `n`.
proof fn lemma_digits_read_back(n: nat, base: nat)
    requires
        2 <= base <= 16,
    ensures
        parse_digits(digits(n, base), base) == n,
        digits(n, base).len() >= 1,
        forall|i: int| 0 <= i < digits(n, base).len() ==> is_digit_char(#[trigger] digits(n, base)[i]),
    decreases n,
{
    if n < base {
        let d = digits(n, base);
        assert(d == seq![digit_char(n)]);
        assert(d.drop_last() =~= Seq::<u8>::empty());
        assert(d.last() == digit_char(n));
        assert(digit_value(digit_char(n)) == n);
        assert(parse_digits(d.drop_last(), base) == 0);
        assert(parse_digits(d, base) == parse_digits(d.drop_last(), base) * base + digit_value(d.last()));
        assert(0 * base == 0);
    } else {
        assert(n / base < n) by (nonlinear_arith)
            requires
                base >= 2,
                n >= base,
        ;
        lemma_digits_read_back(n / base, base);
        let d = digits(n, base);
        assert(d == digits(n / base, base).push(digit_char(n % base)));
        assert(d.drop_last() =~= digits(n / base, base));
        assert(n % base < base) by (nonlinear_arith)
            requires
                base >= 2,
        ;
        assert((n / base) * base + n % base == n) by (nonlinear_arith)
            requires
                base >= 2,
        ;
        assert forall|i: int| 0 <= i < d.len() implies is_digit_char(#[trigger] d[i]) by {
            if i < d.len() - 1 {
                assert(d[i] == digits(n / base, base)[i]);
            }
        }
    }
}

/// `printk` prints `%x` as the lower-case hexadecimal digits of the whole
/// 32-bit argument and `%d`/`%i` as its signed decimal digits, after a `-`
/// for a negative value: read back, the digits give the argument.
pub proof fn lemma_number_text_reads_back(v: u32, d: i32)
    ensures
        parse_digits(piece_text(PrintkPiece::Hex(v)), 16) == v,
        forall|i: int| 0 <= i < piece_text(PrintkPiece::Hex(v)).len() ==> is_digit_char(#[trigger] piece_text(PrintkPiece::Hex(v))[i]),
        d >= 0 ==> parse_digits(piece_text(PrintkPiece::Decimal(d)), 10) == d,
        d < 0 ==> {
            let t = piece_text(PrintkPiece::Decimal(d));
            &&& t[0] == 45u8
            &&& parse_digits(t.drop_first(), 10) == -d
        },
{
    lemma_digits_read_back(v as nat, 16);
    if d >= 0 {
        lemma_digits_read_back(d as nat, 10);
    } else {
        lemma_digits_read_back((-d) as nat, 10);
        let t = piece_text(PrintkPiece::Decimal(d));
        assert(t.drop_first() =~= digits((-d) as nat, 10));
    }
}

/// Digits of `n` in `base`.
pub(crate) fn render_digits(n: u64, base: u64) -> (r: Vec<u8>)
    requires
        2 <= base <= 16,
    ensures
        r@ == digits(n as nat, base as nat),
    decreases n,
{
    if n < base {
        let mut v: Vec<u8> = Vec::new();
        let d: u8 = if n < 10 { 48 + n as u8 } else { 87 + n as u8 };
        v.push(d);
        v
    } else {
        assert(n / base < n) by (nonlinear_arith)
            requires
                base >= 2,
                n >= base,
        ;
        let mut v = render_digits(n / base, base);
        let m = n % base;
        let d: u8 = if m < 10 { 48 + m as u8 } else { 87 + m as u8 };
        v.push(d);
        v
    }
}

/// Decimal text of a signed value.
fn render_decimal(v: i32) -> (r: Vec<u8>)
    ensures
        r@ == decimal_text(v),
{
    if v < 0 {
        let mag: u64 = (0i64 - v as i64) as u64;
        let mut d = render_digits(mag, 10);
        let mut r: Vec<u8> = Vec::new();
        r.push(45u8);
        r.append(&mut d);
        r
    } else {
        render_digits(v as u64, 10)
    }
}

/// One element of `printk` output.
#[derive(Clone, Copy, Debug, PartialEq, Eq, Structural)]
pub enum PrintkPiece {
    /// A byte of the format, printed as a character.
    Literal(u8),
    /// `%s` with a non-null string argument at this address.
    Str(usize),
    /// `%s` with a null (or missing) string argument: `(null)`.
    NullStr,
    /// `%d` or `%i`: the argument as a signed decimal.
    Decimal(i32),
    /// `%x`: the argument as lower-case hexadecimal.
    Hex(u32),
    /// `%%`: a percent sign.
    Percent,
    /// `%` followed by any other byte: `%` and that byte, as a character. A `%` at
    /// the end of the format is followed by the terminating NUL.
    Unknown(u8),
}

/// The `k`-th argument, or 0 beyond the arguments.
pub open spec fn printk_arg(args: Seq<usize>, k: nat) -> usize {
    if k < args.len() { args[k as int] } else { 0 }
}

/// The element a conversion byte produces, and whether it uses an argument.
pub open spec fn directive_piece(d: u8, args: Seq<usize>, k: nat) -> (PrintkPiece, bool) {
    if d == 115u8 {
        if printk_arg(args, k) != 0 { (PrintkPiece::Str(printk_arg(args, k)), true) } else { (PrintkPiece::NullStr, true) }
    } else if d == 100u8 || d == 105u8 {
        (PrintkPiece::Decimal(printk_arg(args, k) as i32), true)
    } else if d == 120u8 {
        (PrintkPiece::Hex(printk_arg(args, k) as u32), true)
    } else if d == 37u8 {
        (PrintkPiece::Percent, false)
    } else {
        (PrintkPiece::Unknown(d), false)
    }
}

/// The elements the format produces from position `i`, with `k` arguments
/// used so far. A `%` at the very end takes the terminating NUL as its
/// conversion byte, an unknown one, and ends the format.
pub open spec fn printk_pieces(fmt: Seq<u8>, args: Seq<usize>, i: nat, k: nat) -> Seq<PrintkPiece>
    decreases fmt.len() - i,
{
    if i >= fmt.len() {
        Seq::empty()
    } else if fmt[i as int] == 37u8 {
        if i + 1 < fmt.len() {
            let (p, uses) = directive_piece(fmt[i + 1int], args, k);
            seq![p] + printk_pieces(fmt, args, i + 2, if uses { k + 1 } else { k })
        } else {
            seq![PrintkPiece::Unknown(0u8)]
        }
    } else {
        seq![PrintkPiece::Literal(fmt[i as int])] + printk_pieces(fmt, args, i + 1, k)
    }
}

/// Splits the C string `fmt` into the elements `printk` prints.
pub fn format_pieces(fmt: &[u8], args: &[usize; 7]) -> (r: Vec<PrintkPiece>)
    requires
        nul_terminated(fmt@),
    ensures
        r@ == printk_pieces(c_string(fmt@), args@, 0, 0),
{
    let n = c_string_contents(fmt);
    let ghost content = c_string(fmt@);
    let mut out: Vec<PrintkPiece> = Vec::new();
    let mut i: usize = 0;
    let mut arg_idx: usize = 0;
    while fmt[i] != 0
        invariant
            is_c_string_length(fmt@, n as int),
            content == fmt@.take(n as int),
            i <= n,
            out@ + printk_pieces(content, args@, i as nat, arg_idx as nat) == printk_pieces(content, args@, 0, 0),
            arg_idx <= i,
        decreases n - i,
    {
        assert(i < n) by {
            if i == n {
                assert(fmt@[n as int] == 0);
            }
        }
        let ch = fmt[i];
        assert(content[i as int] == ch);
        if ch == 37u8 && i + 1 == n {
            let ghost old_out = out@;
            out.push(PrintkPiece::Unknown(0u8));
            assert(out@ =~= old_out + seq![PrintkPiece::Unknown(0u8)]);
            i = i + 1;
        } else if ch == 37u8 {
            assert(content[i + 1] == fmt@[i + 1]);
            let d = fmt[i + 1];
            let arg: usize = if arg_idx < 7 { args[arg_idx] } else { 0 };
            let piece: PrintkPiece;
            let mut uses = true;
            if d == 115u8 {
                piece = if arg != 0 { PrintkPiece::Str(arg) } else { PrintkPiece::NullStr };
            } else if d == 100u8 || d == 105u8 {
                piece = PrintkPiece::Decimal(arg as i32);
            } else if d == 120u8 {
                piece = PrintkPiece::Hex(arg as u32);
            } else if d == 37u8 {
                piece = PrintkPiece::Percent;
                uses = false;
            } else {
                piece = PrintkPiece::Unknown(d);
                uses = false;
            }
            assert(directive_piece(d, args@, arg_idx as nat) == (piece, uses));
            let ghost old_out = out@;
            out.push(piece);
            assert(out@ =~= old_out + seq![piece]);
            if uses {
                arg_idx = arg_idx + 1;
            }
            i = i + 2;
        } else {
            let ghost old_out = out@;
            out.push(PrintkPiece::Literal(ch));
            assert(out@ =~= old_out + seq![PrintkPiece::Literal(ch)]);
            i = i + 1;
        }
    }
    assert(i == n) by {
        if i < n {
            assert(fmt@[i as int] != 0);
        }
    }
    assert(out@ =~= printk_pieces(content, args@, 0, 0));
    out
}

/// The text of an element that is not a string argument.
pub open spec fn piece_text(p: PrintkPiece) -> Seq<u8> {
    match p {
        PrintkPiece::Literal(c) => char_bytes(c),
        PrintkPiece::Str(_) => Seq::empty(),
        PrintkPiece::NullStr => seq![40u8, 110u8, 117u8, 108u8, 108u8, 41u8],
        PrintkPiece::Decimal(v) => decimal_text(v),
        PrintkPiece::Hex(v) => hex_text(v),
        PrintkPiece::Percent => seq![37u8],
        PrintkPiece::Unknown(c) => seq![37u8] + char_bytes(c),
    }
}

/// How much an element that is not a string argument adds to the count.
pub open spec fn piece_count(p: PrintkPiece) -> int {
    match p {
        PrintkPiece::Literal(_) => 1,
        PrintkPiece::Str(_) => 0,
        PrintkPiece::NullStr => 6,
        PrintkPiece::Decimal(_) => 1,
        PrintkPiece::Hex(_) => 1,
        PrintkPiece::Percent => 1,
        PrintkPiece::Unknown(_) => 2,
    }
}

/// The addresses of the string arguments among `ps`, in order.
pub open spec fn string_reads(ps: Seq<PrintkPiece>) -> Seq<usize>
    decreases ps.len(),
{
    if ps.len() == 0 {
        Seq::empty()
    } else {
        match ps.last() {
            PrintkPiece::Str(a) => string_reads(ps.drop_last()).push(a),
            _ => string_reads(ps.drop_last()),
        }
    }
}

/// The text and count of `ps`, with `strs` the contents of its string
/// arguments in order: each byte of a string argument is printed as a
/// character and counts one.
pub open spec fn render_pieces(ps: Seq<PrintkPiece>, strs: Seq<Seq<u8>>) -> (Seq<u8>, int)
    decreases ps.len(),
{
    if ps.len() == 0 {
        (Seq::empty(), 0)
    } else {
        match ps.last() {
            PrintkPiece::Str(_) => {
                let (o, c) = render_pieces(ps.drop_last(), strs.drop_last());
                (o + chars_bytes(strs.last()), c + strs.last().len())
            },
            p => {
                let (o, c) = render_pieces(ps.drop_last(), strs);
                (o + piece_text(p), c + piece_count(p))
            },
        }
    }
}

/// `n` reduced to a 32-bit signed value, as repeated wrapping additions
/// leave it.
pub open spec fn wrap32(n: int) -> i32 {
    let m = n % 0x1_0000_0000;
    if m >= 0x8000_0000 { (m - 0x1_0000_0000) as i32 } else { m as i32 }
}

/// Wrapping addition of a small amount follows `wrap32`.
proof fn lemma_wrap32_add(t: int, k: int)
    requires
        0 <= k <= 6,
    ensures
        vstd::wrapping::i32_specs::wrapping_add(wrap32(t), k as i32) == wrap32(t + k),
{
    vstd::arithmetic::div_mod::lemma_add_mod_noop(t, k, 0x1_0000_0000);
    vstd::arithmetic::div_mod::lemma_small_mod(k as nat, 0x1_0000_0000);
    vstd::arithmetic::div_mod::lemma_mod_bound(t, 0x1_0000_0000);
    vstd::arithmetic::div_mod::lemma_mod_bound(t + k, 0x1_0000_0000);
    let m = t % 0x1_0000_0000;
    if m + k >= 0x1_0000_0000 {
        assert((m + k) % 0x1_0000_0000 == m + k - 0x1_0000_0000) by (nonlinear_arith)
            requires
                0x1_0000_0000 <= m + k < 0x2_0000_0000,
        ;
    } else {
        vstd::arithmetic::div_mod::lemma_small_mod((m + k) as nat, 0x1_0000_0000);
    }
}

/// `read_str` may return the bytes `bytes` for the string at `addr`.
pub open spec fn read_gives<F: Fn(usize) -> Vec<u8>>(read_str: F, addr: usize, bytes: Seq<u8>) -> bool {
    exists|v: Vec<u8>| v@ == bytes && #[trigger] call_ensures(read_str, (addr,), v)
}

/// Renders the elements, reading each string argument through `read_str`;
/// returns the text and the count (with 32-bit wrap-around).
pub fn render_printk<F: Fn(usize) -> Vec<u8>>(pieces: &Vec<PrintkPiece>, read_str: F) -> (r: (Vec<u8>, i32))
    requires
        forall|a: usize| read_str.requires((a,)),
    ensures
        exists|strs: Seq<Seq<u8>>|
            #[trigger] render_pieces(pieces@, strs).0 == r.0@ && r.1 == wrap32(render_pieces(pieces@, strs).1)
                && strs.len() == string_reads(pieces@).len()
                && forall|j: int| 0 <= j < strs.len() ==> #[trigger] read_gives(read_str, string_reads(pieces@)[j], strs[j]),
{
    let mut out: Vec<u8> = Vec::new();
    let mut count: i32 = 0;
    let ghost mut total: int = 0;
    let ghost mut strs: Seq<Seq<u8>> = Seq::empty();
    let mut k: usize = 0;
    while k < pieces.len()
        invariant
            k <= pieces@.len(),
            forall|a: usize| read_str.requires((a,)),
            render_pieces(pieces@.take(k as int), strs) == (out@, total),
            count == wrap32(total),
            strs.len() == string_reads(pieces@.take(k as int)).len(),
            forall|j: int| 0 <= j < strs.len() ==> #[trigger] read_gives(read_str, string_reads(pieces@.take(k as int))[j], strs[j]),
        decreases pieces@.len() - k,
    {
        let ghost pre = pieces@.take(k as int);
        let ghost next = pieces@.take(k + 1);
        assert(next.drop_last() =~= pre);
        assert(next.last() == pieces@[k as int]);
        let ghost out0 = out@;
        let ghost total0 = total;
        match pieces[k] {
            PrintkPiece::Str(a) => {
                let s = read_str(a);
                let mut j: usize = 0;
                while j < s.len()
                    invariant
                        j <= s@.len(),
                        out@ == out0 + chars_bytes(s@.take(j as int)),
                        count == wrap32(total0 + j),
                    decreases s@.len() - j,
                {
                    push_char(&mut out, s[j]);
                    proof {
                        lemma_wrap32_add(total0 + j, 1);
                    }
                    count = count.wrapping_add(1);
                    j = j + 1;
                    assert(s@.take(j as int).drop_last() =~= s@.take(j - 1));
                    assert(out@ =~= out0 + chars_bytes(s@.take(j as int)));
                }
                proof {
                    assert(s@.take(s@.len() as int) =~= s@);
                    let old_strs = strs;
                    strs = strs.push(s@);
                    total = total0 + s@.len();
                    assert(strs.drop_last() =~= old_strs);
                    assert(string_reads(next) == string_reads(pre).push(a));
                    assert forall|j: int| 0 <= j < strs.len() implies #[trigger] read_gives(read_str, string_reads(next)[j], strs[j]) by {
                        if j < old_strs.len() {
                            assert(strs[j] == old_strs[j]);
                            assert(string_reads(next)[j] == string_reads(pre)[j]);
                            assert(read_gives(read_str, string_reads(pre)[j], old_strs[j]));
                        } else {
                            assert(string_reads(next)[j] == a);
                            assert(s@ == strs[j] && call_ensures(read_str, (a,), s));
                        }
                    }
                }
            },
            PrintkPiece::Literal(c) => {
                push_char(&mut out, c);
                proof {
                    lemma_wrap32_add(total, 1);
                    total = total + 1;
                }
                count = count.wrapping_add(1);
                assert(out@ =~= out0 + piece_text(PrintkPiece::Literal(c)));
            },
            PrintkPiece::NullStr => {
                out.push(40u8);
                out.push(110u8);
                out.push(117u8);
                out.push(108u8);
                out.push(108u8);
                out.push(41u8);
                proof {
                    lemma_wrap32_add(total, 6);
                    total = total + 6;
                }
                count = count.wrapping_add(6);
                assert(out@ =~= out0 + piece_text(PrintkPiece::NullStr));
            },
            PrintkPiece::Decimal(v) => {
                let mut d = render_decimal(v);
                out.append(&mut d);
                proof {
                    lemma_wrap32_add(total, 1);
                    total = total + 1;
                }
                count = count.wrapping_add(1);
            },
            PrintkPiece::Hex(v) => {
                let mut d = render_digits(v as u64, 16);
                out.append(&mut d);
                proof {
                    lemma_wrap32_add(total, 1);
                    total = total + 1;
                }
                count = count.wrapping_add(1);
            },
            PrintkPiece::Percent => {
                out.push(37u8);
                proof {
                    lemma_wrap32_add(total, 1);
                    total = total + 1;
                }
                count = count.wrapping_add(1);
                assert(out@ =~= out0 + piece_text(PrintkPiece::Percent));
            },
            PrintkPiece::Unknown(c) => {
                out.push(37u8);
                push_char(&mut out, c);
                proof {
                    lemma_wrap32_add(total, 2);
                    total = total + 2;
                }
                count = count.wrapping_add(2);
                assert(out@ =~= out0 + piece_text(PrintkPiece::Unknown(c)));
            },
        }
        proof {
            if !(pieces@[k as int] is Str) {
                assert(string_reads(next) == string_reads(pre));
                assert forall|j: int| 0 <= j < strs.len() implies #[trigger] read_gives(read_str, string_reads(next)[j], strs[j]) by {
                    assert(read_gives(read_str, string_reads(pre)[j], strs[j]));
                }
            }
        }
        k = k + 1;
    }
    assert(pieces@.take(pieces@.len() as int) =~= pieces@);
    proof {
        assert forall|j: int| 0 <= j < strs.len() implies #[trigger] read_gives(read_str, string_reads(pieces@)[j], strs[j]) by {
            assert(read_gives(read_str, string_reads(pieces@.take(pieces@.len() as int))[j], strs[j]));
        }
        assert(render_pieces(pieces@, strs).0 == out@);
    }
    (out, count)
}

/// What `printk` prints for the format `fmt` and its arguments, and the
/// count it returns: nothing and 0 while the console is disabled (the
/// format is not read then), -1 for a null format.
pub fn format_printk<F: Fn(usize) -> Vec<u8>>(uart_enabled: bool, fmt: Option<&[u8]>, args: &[usize; 7], read_str: F) -> (r: (Vec<u8>, i32))
    requires
        uart_enabled ==> (fmt matches Some(f) ==> nul_terminated(f@)),
        forall|a: usize| read_str.requires((a,)),
    ensures
        !uart_enabled ==> r.0@.len() == 0 && r.1 == 0,
        uart_enabled && fmt is None ==> r.0@.len() == 0 && r.1 == -1,
        uart_enabled ==> (fmt matches Some(f) ==> {
            let ps = printk_pieces(c_string(f@), args@, 0, 0);
            exists|strs: Seq<Seq<u8>>|
                #[trigger] render_pieces(ps, strs).0 == r.0@ && r.1 == wrap32(render_pieces(ps, strs).1)
                    && strs.len() == string_reads(ps).len()
                    && forall|j: int| 0 <= j < strs.len() ==> #[trigger] read_gives(read_str, string_reads(ps)[j], strs[j])
        }),
{
    if !uart_enabled {
        return (Vec::new(), 0);
    }
    match fmt {
        None => (Vec::new(), -1),
        Some(f) => {
            let pieces = format_pieces(f, args);
            render_printk(&pieces, read_str)
        },
    }
}

} // verus!
