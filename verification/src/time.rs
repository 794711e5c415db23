//! The timer.
use vstd::prelude::*;
use crate::register::{SIe, Time};
use crate::ecall::{EcallRequest, set_timer};

verus! {

/// The `sie` mask that enables timer interrupts; setting it is the
/// caller's part.
pub fn enable_time_interrupt() -> (r: u64)
    ensures
        r == 0x20,
{
    SIe::enable_time_interrupt()
}

/// The time, in milliseconds, that the `time` counter value `now` stands
/// for on a clock of `clocks_per_ms` ticks per millisecond.
pub fn get_now(now: Time, clocks_per_ms: usize) -> (r: u64)
    requires
        clocks_per_ms > 0,
    ensures
        r == now.bits / clocks_per_ms,
{
    now.as_duration(clocks_per_ms)
}

/// The request that makes the timer fire `duration_ms` milliseconds after
/// the `time` counter value `now`, on a clock of `clocks_per_ms` ticks per
/// millisecond; performing it is the caller's part.
pub fn set_next_timer(now: Time, duration_ms: u64, clocks_per_ms: usize) -> (r: EcallRequest)
    requires
        now.bits + duration_ms * clocks_per_ms <= u64::MAX,
    ensures
        r == set_timer_request((now.bits + duration_ms * clocks_per_ms) as u64),
{
    assert(duration_ms * clocks_per_ms <= u64::MAX) by (nonlinear_arith)
        requires
            now.bits + duration_ms * clocks_per_ms <= u64::MAX,
            now.bits >= 0,
    ;
    let ticks: u64 = duration_ms * (clocks_per_ms as u64);
    set_timer(now.bits as u64 + ticks)
}

/// The request that arms the timer for `deadline`.
pub open spec fn set_timer_request(deadline: u64) -> EcallRequest {
    EcallRequest { op_code: 0, a0: deadline as usize, a1: 0, a2: 0 }
}

} // verus!
