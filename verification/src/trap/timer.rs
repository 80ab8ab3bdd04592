//! The supervisor timer: when the next tick is due, and how timer values
//! read as milliseconds.

use vstd::prelude::*;

use crate::config::CLOCK_FREQ;
use crate::sbi::call::SbiCall;
use crate::sbi::legacy::{SBI_SET_TIMER, set_timer};

verus! {

/// Timer interrupts per second.
pub const TICKS_PER_SEC: usize = 100;

/// Milliseconds per second.
pub const MSEC_PER_SEC: usize = 1000;

/// The timer value one tick after `now`.
pub open spec fn spec_next_trigger(now: usize) -> int {
    now + CLOCK_FREQ / TICKS_PER_SEC
}

/// The call that programs the timer interrupt one tick after the timer
/// value `now`.
pub fn set_next_trigger(now: usize) -> (r: SbiCall)
    requires
        spec_next_trigger(now) <= usize::MAX,
    ensures
        r.eid == SBI_SET_TIMER,
        r.fid == 0,
        r.args@ == seq![spec_next_trigger(now) as usize, 0usize, 0usize, 0usize, 0usize],
{
    set_timer(now + CLOCK_FREQ / TICKS_PER_SEC)
}

/// The milliseconds that the timer value `ticks` stands for.
pub open spec fn spec_time_ms(ticks: usize) -> usize {
    ticks / (CLOCK_FREQ / MSEC_PER_SEC)
}

/// The milliseconds that the timer value `ticks` stands for.
pub fn get_time_ms(ticks: usize) -> (r: usize)
    ensures
        r == spec_time_ms(ticks),
        r * 12500 <= ticks < (r + 1) * 12500,
{
    proof {
        law_time_ms(ticks, ticks);
    }
    ticks / (CLOCK_FREQ / MSEC_PER_SEC)
}

/// A timer value reads as the whole milliseconds that have passed at
/// 12 500 000 ticks per second, 12 500 ticks each: the result is the
/// number of whole milliseconds in `ticks`, so it never falls as the timer
/// runs on.
pub proof fn law_time_ms(ticks: usize, later: usize)
    ensures
        spec_time_ms(ticks) * 12500 <= ticks < (spec_time_ms(ticks) + 1) * 12500,
        ticks <= later ==> spec_time_ms(ticks) <= spec_time_ms(later),
{
    let a = spec_time_ms(ticks) as int;
    let b = spec_time_ms(later) as int;
    assert(CLOCK_FREQ / MSEC_PER_SEC == 12500);
    assert(a * 12500 <= ticks < (a + 1) * 12500) by (nonlinear_arith)
        requires
            a == ticks / 12500,
            ticks >= 0,
    ;
    assert(b * 12500 <= later < (b + 1) * 12500) by (nonlinear_arith)
        requires
            b == later / 12500,
            later >= 0,
    ;
    if ticks <= later {
        assert(a <= b) by (nonlinear_arith)
            requires
                a * 12500 <= ticks,
                later < (b + 1) * 12500,
                ticks <= later,
        ;
    }
}

} // verus!
