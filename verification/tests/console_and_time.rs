use jumpstart::time::{delay_elapsed, get_time, get_time_of_day, time_t, timeval};
use jumpstart::uart::{
    format_pieces, format_printk, put_str, render_printk, PrintkPiece, Uart, UartState,
};

fn cstr(s: &[u8]) -> Option<&[u8]> {
    Some(s)
}

fn strings(addr: usize) -> Vec<u8> {
    match addr {
        0x1000 => b"abc".to_vec(),
        0x2000 => b"world".to_vec(),
        _ => Vec::new(),
    }
}

#[test]
fn uart_keeps_base_address() {
    assert_eq!(Uart::new(0x1000_0000).base_address, 0x1000_0000);
}

#[test]
fn uart_state_enables_once_set_up() {
    let mut st = UartState::new();
    assert!(!st.uart_enabled());
    st.init_uart();
    assert!(st.uart_enabled());
    let mut other = UartState::new();
    other.mark_uart_enabled();
    assert_eq!(other.initialized, 1);
}

#[test]
fn puts_appends_newline() {
    assert_eq!(put_str(true, cstr(b"hi\0")), (b"hi\n".to_vec(), 0));
    assert_eq!(put_str(true, cstr(b"\0")), (b"\n".to_vec(), 0));
    assert_eq!(put_str(true, cstr(b"a\0b\0")), (b"a\n".to_vec(), 0));
}

#[test]
fn puts_disabled_or_null() {
    assert_eq!(put_str(false, cstr(b"hi\0")), (Vec::new(), 0));
    assert_eq!(put_str(true, None), (Vec::new(), -1));
    assert_eq!(put_str(false, None), (Vec::new(), 0));
}

#[test]
fn printk_conversions() {
    let args: [usize; 7] = [(-42i32) as u32 as usize, 255, 0x1000, 0, 0, 0, 0];
    let (out, count) = format_printk(true, cstr(b"x=%d y=%x s=%s %% %q\0"), &args, strings);
    assert_eq!(out, b"x=-42 y=ff s=abc % %q".to_vec());
    assert_eq!(count, 18);
}

#[test]
fn printk_null_string() {
    let (out, count) = format_printk(true, cstr(b"[%s]\0"), &[0; 7], strings);
    assert_eq!(out, b"[(null)]".to_vec());
    assert_eq!(count, 8);
}

#[test]
fn printk_missing_arguments_read_as_zero() {
    let args: [usize; 7] = [1, 2, 3, 4, 5, 6, 7];
    let (out, count) = format_printk(true, cstr(b"%d%d%d%d%d%d%d%d\0"), &args, strings);
    assert_eq!(out, b"12345670".to_vec());
    assert_eq!(count, 8);
    let (out2, count2) = format_printk(true, cstr(b"%d%d%d%d%d%d%d%s\0"), &args, strings);
    assert_eq!(out2, b"1234567(null)".to_vec());
    assert_eq!(count2, 13);
}

#[test]
fn printk_truncates_arguments_to_32_bits() {
    let args: [usize; 7] = [usize::MAX, 0x1_0000_00ff, 0x8000_0000, 0, 0, 0, 0];
    let (out, _) = format_printk(true, cstr(b"%i %x %d %x\0"), &args, strings);
    assert_eq!(out, b"-1 ff -2147483648 0".to_vec());
}

#[test]
fn printk_disabled_or_null_format() {
    assert_eq!(format_printk(false, cstr(b"abc\0"), &[0; 7], strings), (Vec::new(), 0));
    assert_eq!(format_printk(true, None, &[0; 7], strings), (Vec::new(), -1));
}

#[test]
fn printk_pieces_and_rendering() {
    let args: [usize; 7] = [5, 0x2000, 0, 0, 0, 0, 0];
    let pieces = format_pieces(b"a%d%s%%\0", &args);
    assert_eq!(
        pieces,
        vec![PrintkPiece::Literal(b'a'), PrintkPiece::Decimal(5), PrintkPiece::Str(0x2000), PrintkPiece::Percent]
    );
    assert_eq!(render_printk(&pieces, strings), (b"a5world%".to_vec(), 8));
    let unknown = format_pieces(b"%z\0", &args);
    assert_eq!(unknown, vec![PrintkPiece::Unknown(b'z')]);
    assert_eq!(render_printk(&unknown, strings), (b"%z".to_vec(), 2));
}

#[test]
fn time_of_day_splits_ticks() {
    let mut tv = timeval { tv_sec: -1, tv_usec: -1 };
    assert_eq!(get_time_of_day(3_500_000, Some(&mut tv)), 0);
    assert_eq!((tv.tv_sec, tv.tv_usec), (3, 500_000));
    assert_eq!(get_time_of_day(3_500_000, None), 0);
    assert_eq!(get_time_of_day(999_999, Some(&mut tv)), 0);
    assert_eq!((tv.tv_sec, tv.tv_usec), (0, 999_999));
}

#[test]
fn time_of_day_decomposes_ticks() {
    for ticks in [0u64, 1, 999_999, 1_000_000, 123_456_789, u64::MAX] {
        let mut tv = timeval { tv_sec: 0, tv_usec: 0 };
        get_time_of_day(ticks, Some(&mut tv));
        assert!(tv.tv_usec >= 0 && tv.tv_usec < 1_000_000);
        assert_eq!((tv.tv_sec as u64) * 1_000_000 + tv.tv_usec as u64, ticks);
    }
}

#[test]
fn time_returns_whole_seconds() {
    let mut t: time_t = 0;
    assert_eq!(get_time(7_250_000, Some(&mut t)), 7);
    assert_eq!(t, 7);
    assert_eq!(get_time(42, None), 0);
}

#[test]
fn delay_is_over_once_timer_advanced() {
    assert!(!delay_elapsed(100, 100, 5));
    assert!(!delay_elapsed(100, 104, 5));
    assert!(delay_elapsed(100, 105, 5));
    assert!(delay_elapsed(100, 1_000, 5));
    assert!(delay_elapsed(7, 7, 0));
    assert!(delay_elapsed(0, u32::MAX as u64, u32::MAX));
    assert!(!delay_elapsed(1, u32::MAX as u64, u32::MAX));
}

#[test]
fn delay_stays_over_as_timer_advances() {
    for t in 105u64..200 {
        assert!(delay_elapsed(100, t, 5));
    }
}

#[test]
fn printk_lone_percent_at_end_stops_at_nul() {
    let (out, count) = format_printk(true, cstr(b"a%\0zz"), &[0; 7], strings);
    assert_eq!(out, vec![b'a', b'%', 0]);
    assert_eq!(count, 3);
    assert_eq!(format_pieces(b"a%\0", &[0; 7]), vec![PrintkPiece::Literal(b'a'), PrintkPiece::Unknown(0)]);
    assert_eq!(format_pieces(b"%%%\0", &[0; 7]), vec![PrintkPiece::Percent, PrintkPiece::Unknown(0)]);
}

#[test]
fn high_bytes_are_printed_as_characters() {
    assert_eq!(put_str(true, cstr(&[0xE9, 0])), (vec![0xC3, 0xA9, 0x0A], 0));
    assert_eq!(put_str(true, cstr(&[0x41, 0x80, 0xFF, 0])), (vec![0x41, 0xC2, 0x80, 0xC3, 0xBF, 0x0A], 0));
    let read = |_a: usize| -> Vec<u8> { vec![0xFF, b'x'] };
    let (out, count) = format_printk(true, cstr(&[0xB0, b'%', b's', 0]), &[0x3000, 0, 0, 0, 0, 0, 0], read);
    assert_eq!(out, vec![0xC2, 0xB0, 0xC3, 0xBF, b'x']);
    assert_eq!(count, 3);
    let (out2, count2) = format_printk(true, cstr(&[b'%', 0xE9, 0]), &[0; 7], strings);
    assert_eq!(out2, vec![b'%', 0xC3, 0xA9]);
    assert_eq!(count2, 2);
}

#[test]
fn delay_counts_across_timer_wrap() {
    assert!(!delay_elapsed(u64::MAX - 2, u64::MAX, 5));
    assert!(!delay_elapsed(u64::MAX - 2, 1, 5));
    assert!(delay_elapsed(u64::MAX - 2, 2, 5));
    assert!(delay_elapsed(u64::MAX - 2, 100, 5));
}
