//! An SBI call as the values it places in registers.

use vstd::prelude::*;

use super::ret::{ErrorType, SbiRet, spec_error_from};

verus! {

/// An `ecall` to the SBI: extension id (`a7`), function id (`a6`) and the
/// five argument registers `a0`..`a4`.
#[derive(Clone, Copy)]
pub struct SbiCall {
    pub eid: usize,
    pub fid: usize,
    pub args: [usize; 5],
}

/// The call with the given extension, function and arguments.
pub fn sbicall(eid: usize, fid: usize, args: [usize; 5]) -> (r: SbiCall)
    ensures
        r.eid == eid,
        r.fid == fid,
        r.args == args,
{
    SbiCall { eid, fid, args }
}

/// The result of a call from the two registers it returns in: the error
/// code (`a0`) and the value (`a1`).
pub fn sbi_result(error: isize, value: isize) -> (r: SbiRet)
    ensures
        r.error == spec_error_from(error),
        r.value == value,
{
    SbiRet { error: ErrorType::from(error), value }
}

} // verus!
