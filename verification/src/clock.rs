//! Durations and instants of `std::time`, as used for timing measurements.

use vstd::prelude::*;
use std::time::{Duration, Instant};

verus! {

/// `std::time::Instant` is carried through opaquely.
#[verifier::external_type_specification]
#[verifier::external_body]
pub struct ExInstant(Instant);

/// `<Duration as Clone>::clone`: `Duration` is `Copy`, so a clone is the same value.
pub assume_specification [<std::time::Duration as std::clone::Clone>::clone] (d: &Duration) -> (r: Duration)
    ensures
        r == *d,
;

/// The duration that `Duration::from_millis` builds from a number of milliseconds.
pub uninterp spec fn millis_duration(ms: u64) -> Duration;

/// `Duration::from_millis`.
#[verifier::external_body]
pub(crate) fn duration_from_millis(ms: u64) -> (r: Duration)
    ensures
        r == millis_duration(ms),
{
    Duration::from_millis(ms)
}

/// `Instant::now`: the current time (no property of it is stated).
#[verifier::external_body]
pub(crate) fn instant_now() -> Instant {
    Instant::now()
}

/// `Instant::elapsed`: time passed since the instant (no property is stated;
/// it depends on the clock).
#[verifier::external_body]
pub(crate) fn instant_elapsed(start: &Instant) -> Duration {
    start.elapsed()
}

/// The number of whole microseconds in a duration.
pub uninterp spec fn whole_micros(d: Duration) -> u128;

/// `Duration::as_micros`: whole microseconds in the duration.
#[verifier::external_body]
pub(crate) fn duration_as_micros(d: &Duration) -> (r: u128)
    ensures
        r == whole_micros(*d),
{
    d.as_micros()
}

} // verus!
