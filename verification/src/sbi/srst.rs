//! The System Reset extension.

use vstd::prelude::*;

use super::call::{SbiCall, sbicall};

verus! {

/// Extension id of System Reset ("SRST").
pub const EXTENSION_SRST: usize = 0x53525354;

/// Kinds of system reset.
#[derive(Clone, Copy, PartialEq, Eq, Structural)]
pub enum ResetType {
    Shutdown,
    ColdReboot,
    WarmReboot,
}

/// Reasons given for a system reset.
#[derive(Clone, Copy, PartialEq, Eq, Structural)]
pub enum ResetReason {
    NoReason,
    SystemFailure,
}

impl ResetType {
    /// The code of the reset type in the SRST extension.
    pub open spec fn spec_code(self) -> usize {
        match self {
            ResetType::Shutdown => 0,
            ResetType::ColdReboot => 1,
            ResetType::WarmReboot => 2,
        }
    }

    /// The code of the reset type in the SRST extension.
    pub fn code(&self) -> (r: usize)
        ensures
            r == self.spec_code(),
    {
        match self {
            ResetType::Shutdown => 0,
            ResetType::ColdReboot => 1,
            ResetType::WarmReboot => 2,
        }
    }
}

impl ResetReason {
    /// The code of the reason in the SRST extension.
    pub open spec fn spec_code(self) -> usize {
        match self {
            ResetReason::NoReason => 0,
            ResetReason::SystemFailure => 1,
        }
    }

    /// The code of the reason in the SRST extension.
    pub fn code(&self) -> (r: usize)
        ensures
            r == self.spec_code(),
    {
        match self {
            ResetReason::NoReason => 0,
            ResetReason::SystemFailure => 1,
        }
    }
}

/// The call that shuts the system down for the given reason.
pub fn shutdown(reset_reason: ResetReason) -> (r: SbiCall)
    ensures
        r.eid == EXTENSION_SRST,
        r.fid == 0,
        r.args@ == seq![0usize, reset_reason.spec_code(), 0usize, 0usize, 0usize],
{
    sbicall(EXTENSION_SRST, 0, [0, reset_reason.code(), 0, 0, 0])
}

/// The call that resets the system in the given way for the given reason.
pub fn reboot(reset_type: ResetType, reset_reason: ResetReason) -> (r: SbiCall)
    ensures
        r.eid == EXTENSION_SRST,
        r.fid == 0,
        r.args@ == seq![reset_type.spec_code(), reset_reason.spec_code(), 0usize, 0usize, 0usize],
{
    sbicall(EXTENSION_SRST, 0, [reset_type.code(), reset_reason.code(), 0, 0, 0])
}

} // verus!
