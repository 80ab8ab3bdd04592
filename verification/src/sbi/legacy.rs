//! Legacy SBI calls (extension ids 0x00 to 0x08).

use vstd::prelude::*;

use super::call::{SbiCall, sbicall};
use super::ret::{SbiRet, spec_error_code};

verus! {

pub const SBI_SET_TIMER: usize = 0x00;

pub const SBI_CONSOLE_PUTCHAR: usize = 0x01;

pub const SBI_CONSOLE_GETCHAR: usize = 0x02;

pub const SBI_CLEAR_IPI: usize = 0x03;

pub const SBI_SEND_IPI: usize = 0x04;

pub const SBI_REMOTE_FENCE_I: usize = 0x05;

pub const SBI_REMOTE_SFENCE_VMA: usize = 0x06;

pub const SBI_REMOTE_SFENCE_VMA_ASID: usize = 0x07;

pub const SBI_SHUTDOWN: usize = 0x08;

/// The call that programs the next timer interrupt at time `timer`.
pub fn set_timer(timer: usize) -> (r: SbiCall)
    ensures
        r.eid == SBI_SET_TIMER,
        r.fid == 0,
        r.args@ == seq![timer, 0usize, 0usize, 0usize, 0usize],
{
    sbicall(SBI_SET_TIMER, 0, [timer, 0, 0, 0, 0])
}

/// The call that writes `ch` to the console.
pub fn console_putchar(ch: u8) -> (r: SbiCall)
    ensures
        r.eid == SBI_CONSOLE_PUTCHAR,
        r.fid == 0,
        r.args@ == seq![ch as usize, 0usize, 0usize, 0usize, 0usize],
{
    sbicall(SBI_CONSOLE_PUTCHAR, 0, [ch as usize, 0, 0, 0, 0])
}

/// The call that reads a character from the console.
pub fn console_getchar() -> (r: SbiCall)
    ensures
        r.eid == SBI_CONSOLE_GETCHAR,
        r.fid == 0,
        r.args@ == seq![0usize, 0usize, 0usize, 0usize, 0usize],
{
    sbicall(SBI_CONSOLE_GETCHAR, 0, [0, 0, 0, 0, 0])
}

/// What `console_getchar` returns: legacy calls answer in `a0`, the error
/// register, so the character (or -1 when none is waiting) is its code.
pub fn console_getchar_value(ret: SbiRet) -> (r: isize)
    ensures
        r == spec_error_code(ret.error),
{
    ret.error.code()
}

} // verus!
