//! The Hart State Management extension.

use vstd::prelude::*;

use super::call::{SbiCall, sbicall};
use super::ret::SbiRet;

verus! {

/// Extension id of Hart State Management ("HSM").
pub const EXTENSION_HSM: usize = 0x48534D;

/// States that a hart can be in.
#[allow(non_camel_case_types)]
#[derive(Clone, Copy, PartialEq, Eq, Structural)]
pub enum HSMHartStates {
    STARTED,
    STOPPED,
    START_PENDING,
    STOP_PENDING,
    SUSPENDED,
    SUSPEND_PRNDING,
    RESUME_PENDING,
    UNKNOWN,
}

/// The state that a status value names.
pub open spec fn spec_hart_state(value: isize) -> HSMHartStates {
    if value == 0 {
        HSMHartStates::STARTED
    } else if value == 1 {
        HSMHartStates::STOPPED
    } else if value == 2 {
        HSMHartStates::START_PENDING
    } else if value == 3 {
        HSMHartStates::STOP_PENDING
    } else if value == 4 {
        HSMHartStates::SUSPENDED
    } else if value == 5 {
        HSMHartStates::SUSPEND_PRNDING
    } else if value == 6 {
        HSMHartStates::RESUME_PENDING
    } else {
        HSMHartStates::UNKNOWN
    }
}

impl From<SbiRet> for HSMHartStates {
    fn from(ret: SbiRet) -> (r: Self) {
        match ret.value {
            0 => HSMHartStates::STARTED,
            1 => HSMHartStates::STOPPED,
            2 => HSMHartStates::START_PENDING,
            3 => HSMHartStates::STOP_PENDING,
            4 => HSMHartStates::SUSPENDED,
            5 => HSMHartStates::SUSPEND_PRNDING,
            6 => HSMHartStates::RESUME_PENDING,
            _ => HSMHartStates::UNKNOWN,
        }
    }
}

impl vstd::std_specs::convert::FromSpecImpl<SbiRet> for HSMHartStates {
    open spec fn obeys_from_spec() -> bool {
        true
    }

    open spec fn from_spec(v: SbiRet) -> Self {
        spec_hart_state(v.value)
    }
}

impl HSMHartStates {
    /// The state that the result of a status call reports.
    pub fn from_ret(ret: SbiRet) -> (r: Self)
        ensures
            r == spec_hart_state(ret.value),
            ret.value == 0 ==> r == HSMHartStates::STARTED,
            ret.value == 1 ==> r == HSMHartStates::STOPPED,
            ret.value == 2 ==> r == HSMHartStates::START_PENDING,
            ret.value == 3 ==> r == HSMHartStates::STOP_PENDING,
            ret.value == 4 ==> r == HSMHartStates::SUSPENDED,
            ret.value == 5 ==> r == HSMHartStates::SUSPEND_PRNDING,
            ret.value == 6 ==> r == HSMHartStates::RESUME_PENDING,
            !(0 <= ret.value <= 6) ==> r == HSMHartStates::UNKNOWN,
    {
        proof {
            law_hart_state_numbering(ret.value);
        }
        HSMHartStates::from(ret)
    }
}

/// The call that starts hart `hart_id` at `start_addr` with `opaque` in `a1`.
pub fn sbi_hart_start(hart_id: usize, start_addr: usize, opaque: usize) -> (r: SbiCall)
    ensures
        r.eid == EXTENSION_HSM,
        r.fid == 0,
        r.args@ == seq![hart_id, start_addr, opaque, 0usize, 0usize],
{
    sbicall(EXTENSION_HSM, 0, [hart_id, start_addr, opaque, 0, 0])
}

/// The call that stops the calling hart.
pub fn sbi_hart_stop() -> (r: SbiCall)
    ensures
        r.eid == EXTENSION_HSM,
        r.fid == 1,
        r.args@ == seq![0usize, 0usize, 0usize, 0usize, 0usize],
{
    sbicall(EXTENSION_HSM, 1, [0, 0, 0, 0, 0])
}

/// The call that asks for the state of hart `hart_id`.
pub fn sbi_hart_get_status(hart_id: usize) -> (r: SbiCall)
    ensures
        r.eid == EXTENSION_HSM,
        r.fid == 2,
        r.args@ == seq![hart_id, 0usize, 0usize, 0usize, 0usize],
{
    sbicall(EXTENSION_HSM, 2, [hart_id, 0, 0, 0, 0])
}

/// Status values name hart states as the SBI HSM extension numbers them:
/// 0 started, 1 stopped, 2 start pending, 3 stop pending, 4 suspended,
/// 5 suspend pending, 6 resume pending; any other value names no state.
pub proof fn law_hart_state_numbering(value: isize)
    ensures
        value == 0 ==> spec_hart_state(value) == HSMHartStates::STARTED,
        value == 1 ==> spec_hart_state(value) == HSMHartStates::STOPPED,
        value == 2 ==> spec_hart_state(value) == HSMHartStates::START_PENDING,
        value == 3 ==> spec_hart_state(value) == HSMHartStates::STOP_PENDING,
        value == 4 ==> spec_hart_state(value) == HSMHartStates::SUSPENDED,
        value == 5 ==> spec_hart_state(value) == HSMHartStates::SUSPEND_PRNDING,
        value == 6 ==> spec_hart_state(value) == HSMHartStates::RESUME_PENDING,
        !(0 <= value <= 6) ==> spec_hart_state(value) == HSMHartStates::UNKNOWN,
{
}

} // verus!
