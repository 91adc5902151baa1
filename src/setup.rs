//! Checks made before the listener starts.
use vstd::prelude::*;

verus! {

/// A shared key whose length is outside the range the cipher takes.
#[derive(PartialEq, Eq, Structural, Clone, Copy, Debug)]
pub struct KeyLengthError {
    pub min: usize,
    pub max: usize,
}

/// Accepts a key of `len` bytes where the cipher takes keys of `min` to `max`
/// bytes; otherwise reports that range.
pub fn check_key_length(len: usize, min: usize, max: usize) -> (r: Result<(), KeyLengthError>)
    ensures
        r is Ok <==> min <= len <= max,
        r is Err ==> r->Err_0 == (KeyLengthError { min, max }),
{
    if len < min || len > max {
        Err(KeyLengthError { min, max })
    } else {
        Ok(())
    }
}

/// The command line takes the program name and exactly two arguments: the
/// relay's address and the shared key.
pub fn args_ok(count: usize) -> (r: bool)
    ensures
        r == (count == 3),
{
    count == 3
}

} // verus!
