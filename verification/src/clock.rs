//! The high-resolution clock that seeds generators and times intervals.
use vstd::prelude::*;

verus! {

/// Reads the high-resolution performance counter through
/// `time::precise_time_ns`: nanoseconds since an epoch that the platform
/// leaves unspecified. Nothing is claimed of the reading: two calls may
/// return any two values.
#[verifier::external_body]
pub(crate) fn precise_time_ns() -> (now_ns: u64) {
    time::precise_time_ns()
}

} // verus!
