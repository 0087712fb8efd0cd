//! Wall-clock readings used for the cooperative time limit.

use std::time::{Duration, Instant};
use vstd::prelude::*;

verus! {

/// A point on the monotonic clock of `std::time`; opaque to the verifier.
#[verifier::external_type_specification]
#[verifier::external_body]
pub struct ExInstant(Instant);

/// `Instant` is `Copy`: its `clone` hands back the same reading.
pub assume_specification[ <Instant as Clone>::clone ](t: &Instant) -> (copy: Instant)
    ensures
        copy == *t,
;

/// Reads the clock through `std::time::Instant::now`. Nothing is claimed
/// about the reading.
#[verifier::external_body]
pub(crate) fn now() -> Instant {
    Instant::now()
}

/// Time passed since `start`, through `std::time::Instant::elapsed`. Nothing
/// is claimed about the amount.
#[verifier::external_body]
pub(crate) fn elapsed(start: &Instant) -> Duration {
    start.elapsed()
}

/// Whole seconds held by `d`, through `std::time::Duration::as_secs`. Nothing
/// is claimed about the number.
#[verifier::external_body]
pub(crate) fn whole_seconds(d: &Duration) -> u64 {
    d.as_secs()
}

/// A run that has lasted `elapsed_secs` whole seconds is over its budget of
/// `time_limit` seconds, where a budget of zero means that the run is
/// unlimited.
pub open spec fn over_time_limit(time_limit: u64, elapsed_secs: u64) -> bool {
    time_limit != 0 && elapsed_secs > time_limit
}

/// Decides whether a run that has lasted `elapsed_secs` whole seconds is over
/// its budget of `time_limit` seconds.
pub fn time_limit_exceeded(time_limit: u64, elapsed_secs: u64) -> (exceeded: bool)
    ensures
        exceeded == over_time_limit(time_limit, elapsed_secs),
{
    time_limit != 0 && elapsed_secs > time_limit
}

} // verus!
