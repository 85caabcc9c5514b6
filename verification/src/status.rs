//! The statuses with which the program leaves.

use vstd::prelude::*;

verus! {

/// The status of a run that did what it was asked.
pub open spec fn success() -> i32 {
    0
}

/// The status of a run that was asked for something that is not there.
pub open spec fn unavailable() -> i32 {
    69
}

/// The constant `exitcode::OK`. Believed, not proved: its value is 0.
#[verifier::external_body]
pub(crate) fn ok_status() -> (c: i32)
    ensures
        c == success(),
{
    exitcode::OK
}

/// The constant `exitcode::UNAVAILABLE`. Believed, not proved: its value is 69.
#[verifier::external_body]
pub(crate) fn unavailable_status() -> (c: i32)
    ensures
        c == unavailable(),
{
    exitcode::UNAVAILABLE
}

} // verus!
