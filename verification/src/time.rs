//! Time keeping from the free-running timer: wall-clock values derived from
//! a tick count, and when a `delay_us` busy-wait is over. Reading the
//! timer and spinning on it is left to the caller.
use vstd::prelude::*;

verus! {

/// Frequency of the timer, in MHz.
pub const CPU_CLOCK_FREQUENCY_IN_MHZ: u64 = 1;

/// Seconds and microseconds, as C's `struct timeval`.
#[allow(non_camel_case_types)]
pub struct timeval {
    pub tv_sec: i64,
    pub tv_usec: i64,
}

/// Seconds since the epoch, as C's `time_t`.
#[allow(non_camel_case_types)]
pub type time_t = i64;

/// Whole seconds in a tick count.
pub open spec fn ticks_seconds(timer_ticks: u64) -> int {
    timer_ticks as int / (CPU_CLOCK_FREQUENCY_IN_MHZ * 1_000_000) as int
}

/// Microseconds past the whole second in a tick count.
pub open spec fn ticks_microseconds(timer_ticks: u64) -> int {
    (timer_ticks as int / CPU_CLOCK_FREQUENCY_IN_MHZ as int) % 1_000_000
}

/// Timer ticks in a delay of `delay_in_useconds` microseconds.
pub open spec fn delay_ticks(delay_in_useconds: u32) -> int {
    delay_in_useconds as int * CPU_CLOCK_FREQUENCY_IN_MHZ as int
}

/// Ticks from timer value `start_time` to timer value `now`, across a
/// wrap of the 64-bit counter.
pub open spec fn timer_elapsed(start_time: u64, now: u64) -> int {
    if now >= start_time { now - start_time } else { now - start_time + 0x1_0000_0000_0000_0000 }
}

/// Whether a busy-wait of `delay_in_useconds` microseconds that started at
/// timer value `start_time` is over at timer value `now`: the timer has
/// advanced by at least the delay's ticks.
pub fn delay_elapsed(start_time: u64, now: u64, delay_in_useconds: u32) -> (r: bool)
    ensures
        r == (timer_elapsed(start_time, now) >= delay_ticks(delay_in_useconds)),
{
    now.wrapping_sub(start_time) >= (delay_in_useconds as u64) * CPU_CLOCK_FREQUENCY_IN_MHZ
}

/// A delay that is over stays over as the timer advances, and every delay
/// is over once the timer has advanced by its ticks.
pub proof fn lemma_delay_elapsed_monotone(start_time: u64, t1: u64, t2: u64, delay_in_useconds: u32)
    requires
        start_time <= t1 <= t2,
    ensures
        timer_elapsed(start_time, t1) >= delay_ticks(delay_in_useconds) ==> timer_elapsed(start_time, t2) >= delay_ticks(delay_in_useconds),
        t1 >= start_time + delay_ticks(delay_in_useconds) ==> timer_elapsed(start_time, t1) >= delay_ticks(delay_in_useconds),
{
}

/// The time of day for a tick count; stored in `tv` when it is given.
/// Always succeeds (returns 0).
pub fn get_time_of_day(timer_ticks: u64, tv: Option<&mut timeval>) -> (r: i32)
    ensures
        r == 0,
        tv matches Some(t) ==> final(t).tv_sec == ticks_seconds(timer_ticks) && final(t).tv_usec == ticks_microseconds(timer_ticks),
{
    let seconds: u64 = timer_ticks / (CPU_CLOCK_FREQUENCY_IN_MHZ * 1_000_000);
    let microseconds: u64 = (timer_ticks / CPU_CLOCK_FREQUENCY_IN_MHZ) % 1_000_000;
    match tv {
        Some(t) => {
            t.tv_sec = seconds as i64;
            t.tv_usec = microseconds as i64;
        },
        None => {},
    }
    0
}

/// Seconds since the epoch for a tick count; stored in `tloc` when it is
/// given.
pub fn get_time(timer_ticks: u64, tloc: Option<&mut time_t>) -> (r: time_t)
    ensures
        r == ticks_seconds(timer_ticks),
        tloc matches Some(t) ==> *final(t) == ticks_seconds(timer_ticks),
{
    let mut tv = timeval { tv_sec: 0, tv_usec: 0 };
    if get_time_of_day(timer_ticks, Some(&mut tv)) != 0 {
        return -1;
    }
    let current_time = tv.tv_sec;
    match tloc {
        Some(t) => {
            *t = current_time;
        },
        None => {},
    }
    current_time
}

/// A tick count is its whole seconds and the microseconds past them, with
/// the microseconds below one million.
pub proof fn lemma_time_of_day_decomposes(timer_ticks: u64)
    ensures
        ticks_seconds(timer_ticks) * 1_000_000 + ticks_microseconds(timer_ticks) == timer_ticks,
        0 <= ticks_microseconds(timer_ticks) < 1_000_000,
{
    let t = timer_ticks as int;
    assert((t / 1_000_000) * 1_000_000 + t % 1_000_000 == t) by (nonlinear_arith);
    assert(t / 1 == t);
}

} // verus!
