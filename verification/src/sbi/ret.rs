//! SBI error codes and call results.

use vstd::prelude::*;

verus! {

/// The result of an SBI call: an error code and a value.
pub struct SbiRet {
    pub error: ErrorType,
    pub value: isize,
}

/// The result of an SBI call, under its shorter name: an error code and a
/// value.
pub struct Ret {
    pub error: ErrorType,
    pub value: isize,
}

/// SBI error codes; `Other` keeps any code that the standard does not name.
#[allow(non_camel_case_types)]
#[derive(Clone, Copy, PartialEq, Eq, Structural)]
pub enum ErrorType {
    SBI_SUCCESS,
    SBI_ERR_FAILED,
    SBI_ERR_NOT_SUPPORTED,
    SBI_ERR_INVALID_PARAM,
    SBI_ERR_DENIED,
    SBI_ERR_INVALID_ADDRESS,
    SBI_ERR_ALREADY_AVAILABLE,
    Other(isize),
}

/// The error code that the SBI standard gives to an integer.
pub open spec fn spec_error_from(e: isize) -> ErrorType {
    if e == 0 {
        ErrorType::SBI_SUCCESS
    } else if e == -1 {
        ErrorType::SBI_ERR_FAILED
    } else if e == -2 {
        ErrorType::SBI_ERR_NOT_SUPPORTED
    } else if e == -3 {
        ErrorType::SBI_ERR_INVALID_PARAM
    } else if e == -4 {
        ErrorType::SBI_ERR_DENIED
    } else if e == -5 {
        ErrorType::SBI_ERR_INVALID_ADDRESS
    } else if e == -6 {
        ErrorType::SBI_ERR_ALREADY_AVAILABLE
    } else {
        ErrorType::Other(e)
    }
}

/// The integer of an error code.
pub open spec fn spec_error_code(e: ErrorType) -> isize {
    match e {
        ErrorType::SBI_SUCCESS => 0isize,
        ErrorType::SBI_ERR_FAILED => -1isize,
        ErrorType::SBI_ERR_NOT_SUPPORTED => -2isize,
        ErrorType::SBI_ERR_INVALID_PARAM => -3isize,
        ErrorType::SBI_ERR_DENIED => -4isize,
        ErrorType::SBI_ERR_INVALID_ADDRESS => -5isize,
        ErrorType::SBI_ERR_ALREADY_AVAILABLE => -6isize,
        ErrorType::Other(v) => v,
    }
}

impl From<isize> for ErrorType {
    fn from(e: isize) -> (r: Self) {
        match e {
            0 => ErrorType::SBI_SUCCESS,
            -1 => ErrorType::SBI_ERR_FAILED,
            -2 => ErrorType::SBI_ERR_NOT_SUPPORTED,
            -3 => ErrorType::SBI_ERR_INVALID_PARAM,
            -4 => ErrorType::SBI_ERR_DENIED,
            -5 => ErrorType::SBI_ERR_INVALID_ADDRESS,
            -6 => ErrorType::SBI_ERR_ALREADY_AVAILABLE,
            v => ErrorType::Other(v),
        }
    }
}

impl vstd::std_specs::convert::FromSpecImpl<isize> for ErrorType {
    open spec fn obeys_from_spec() -> bool {
        true
    }

    open spec fn from_spec(v: isize) -> Self {
        spec_error_from(v)
    }
}

impl From<ErrorType> for isize {
    fn from(e: ErrorType) -> (r: Self) {
        match e {
            ErrorType::SBI_SUCCESS => 0,
            ErrorType::SBI_ERR_FAILED => -1,
            ErrorType::SBI_ERR_NOT_SUPPORTED => -2,
            ErrorType::SBI_ERR_INVALID_PARAM => -3,
            ErrorType::SBI_ERR_DENIED => -4,
            ErrorType::SBI_ERR_INVALID_ADDRESS => -5,
            ErrorType::SBI_ERR_ALREADY_AVAILABLE => -6,
            ErrorType::Other(v) => v,
        }
    }
}

impl vstd::std_specs::convert::FromSpecImpl<ErrorType> for isize {
    open spec fn obeys_from_spec() -> bool {
        true
    }

    open spec fn from_spec(v: ErrorType) -> Self {
        spec_error_code(v)
    }
}

impl ErrorType {
    /// The error code that the SBI standard gives to an integer.
    pub fn from_code(e: isize) -> (r: Self)
        ensures
            r == spec_error_from(e),
    {
        ErrorType::from(e)
    }

    /// The integer of this error code.
    pub fn code(self) -> (r: isize)
        ensures
            r == spec_error_code(self),
    {
        isize::from(self)
    }
}

/// Reading an integer as an error code and back gives the integer again.
pub proof fn law_error_code_round_trip(e: isize)
    ensures
        spec_error_code(spec_error_from(e)) == e,
{
}

/// An error code turned into its integer and read back is the same code,
/// except for an `Other` that carries a code the standard names.
pub proof fn law_error_from_code(e: ErrorType)
    requires
        !(e matches ErrorType::Other(v) && -6 <= v <= 0),
    ensures
        spec_error_from(spec_error_code(e)) == e,
{
}

} // verus!
