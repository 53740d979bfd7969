use vstd::prelude::*;
use crate::config::CLOCK_FREQ;

verus! {

pub const TICKS_PER_SEC: usize = 100;
pub const MSEC_PER_SEC: usize = 1000;
pub const USEC_PER_SEC: usize = 1000_000;

/// A time as seconds and microseconds.
#[derive(Copy, Clone, PartialEq, Eq, Debug, Structural)]
pub struct TimeVal {
    pub sec: usize,
    pub usec: usize,
}

/// Milliseconds since boot, given the cycle counter `time`.
pub fn get_time_ms(time: usize) -> (r: usize)
    ensures
        r == time as int / (CLOCK_FREQ / MSEC_PER_SEC) as int,
{
    time / (CLOCK_FREQ / MSEC_PER_SEC)
}

/// Seconds and microseconds since boot, given the cycle counter `time`.
pub fn get_time_val(time: usize) -> (r: TimeVal)
    ensures
        r.sec == time as int / (CLOCK_FREQ as int),
        r.usec == (time as int % (CLOCK_FREQ as int)) * USEC_PER_SEC / (CLOCK_FREQ as int),
        r.usec < USEC_PER_SEC,
{
    let rem: u64 = (time % CLOCK_FREQ) as u64;
    assert(rem * 1000_000 < 12500_000 * 1000_000) by (nonlinear_arith)
        requires rem < 12500_000;
    let usec: u64 = rem * (USEC_PER_SEC as u64) / (CLOCK_FREQ as u64);
    assert(usec < 1000_000) by (nonlinear_arith)
        requires usec == rem * 1000_000 / 12500_000, rem < 12500_000;
    TimeVal { sec: time / CLOCK_FREQ, usec: usec as usize }
}

/// The cycle count at which the next timer interrupt is due, a tick after
/// `now`.
pub fn set_next_trigger(now: usize) -> (r: usize)
    requires
        now + CLOCK_FREQ / TICKS_PER_SEC <= usize::MAX,
    ensures
        r == now + CLOCK_FREQ / TICKS_PER_SEC,
{
    now + CLOCK_FREQ / TICKS_PER_SEC
}

} // verus!
