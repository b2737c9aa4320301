//! Wall-clock readings, as plain nanosecond counts.

use vstd::prelude::*;

verus! {

/// `SystemTime::now()`, as nanoseconds after (`Ok`) or before (`Err`) the Unix epoch.
/// Nothing is stated of the reading: it is whatever the system clock says.
#[verifier::external_body]
pub(crate) fn system_clock_nanos() -> (r: Result<u128, u128>) {
    match std::time::SystemTime::now().duration_since(std::time::UNIX_EPOCH) {
        Ok(d) => Ok(d.as_nanos()),
        Err(e) => Err(e.duration().as_nanos()),
    }
}

} // verus!

verus! {

/// Signed nanoseconds since the Unix epoch of a clock reading, saturated to `i128`.
pub open spec fn reading_nanos(r: Result<u128, u128>) -> i128 {
    match r {
        Ok(n) => if n <= i128::MAX {
            n as i128
        } else {
            i128::MAX
        },
        Err(n) => if n <= i128::MAX {
            -(n as int) as i128
        } else {
            (-i128::MAX) as i128
        },
    }
}

/// Signed nanoseconds since the Unix epoch of a clock reading, saturated to `i128`.
pub fn nanos_of_reading(r: Result<u128, u128>) -> (t: i128)
    ensures
        t == reading_nanos(r),
{
    match r {
        Ok(n) => if n <= i128::MAX as u128 {
            n as i128
        } else {
            i128::MAX
        },
        Err(n) => if n <= i128::MAX as u128 {
            -(n as i128)
        } else {
            -i128::MAX
        },
    }
}

/// The current time, as signed nanoseconds since the Unix epoch.
pub(crate) fn now_nanos() -> (t: i128)
    ensures
        exists|r: Result<u128, u128>| t == reading_nanos(r),
{
    let r = system_clock_nanos();
    nanos_of_reading(r)
}

} // verus!
