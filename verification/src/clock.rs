//! The one place where the library reads the time.

use vstd::prelude::*;

verus! {

/// Calls `time::precise_time_ns`: the current value of a high-resolution
/// counter, in nanoseconds since an epoch that the `time` crate leaves
/// unspecified. The reading depends on the machine and the moment, so nothing
/// is claimed of it: callers are verified for every `u64` it may return.
#[verifier::external_body]
pub(crate) fn now_ns() -> u64 {
    time::precise_time_ns()
}

} // verus!
