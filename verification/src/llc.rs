//! Return codes of an allocator that reports its results as plain numbers.
use vstd::prelude::*;
use crate::Error;

verus! {

/// The error that a negative return code stands for.
pub open spec fn error_of(code: i64) -> Error
    recommends
        -5 <= code < 0,
{
    if code == -1 {
        Error::Memory
    } else if code == -2 {
        Error::Retry
    } else if code == -3 {
        Error::Address
    } else if code == -4 {
        Error::Initialization
    } else {
        Error::Corruption
    }
}

/// Turns a return code into a result: a code from zero up is the value, a
/// negative one names an error. Codes below -5 do not occur.
pub fn to_result(code: i64) -> (r: Result<u64, Error>)
    requires
        code >= -5,
    ensures
        code >= 0 ==> r == Ok::<u64, Error>(code as u64),
        code < 0 ==> r == Err::<u64, Error>(error_of(code)),
{
    if code >= 0 {
        Ok(code as u64)
    } else if code == -1 {
        Err(Error::Memory)
    } else if code == -2 {
        Err(Error::Retry)
    } else if code == -3 {
        Err(Error::Address)
    } else if code == -4 {
        Err(Error::Initialization)
    } else {
        Err(Error::Corruption)
    }
}

} // verus!
