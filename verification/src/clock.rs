//! Time stamps: nanoseconds elapsed since a starting instant.
use crate::events::TimeStamp;
use std::time::{Duration, Instant};
use vstd::prelude::*;

verus! {

#[verifier::external_type_specification]
#[verifier::external_body]
pub struct ExInstant(Instant);

/// Calls `Instant::elapsed`; nothing is claimed of the duration, which
/// depends on the time at which the call is made.
#[verifier::external_body]
fn elapsed(start: &Instant) -> Duration {
    start.elapsed()
}

/// Calls `Duration::as_nanos`; nothing is claimed of the count, since no
/// model of the duration is kept here.
#[verifier::external_body]
fn as_nanos(duration: &Duration) -> u128 {
    duration.as_nanos()
}

/// Calls `Instant::now`; nothing is claimed of the instant, which depends
/// on the time at which the call is made.
#[verifier::external_body]
pub(crate) fn instant_now() -> Instant {
    Instant::now()
}

/// Number of nanoseconds since `start` (kept modulo 2^64).
pub fn now(start: &Instant) -> TimeStamp {
    let d = elapsed(start);
    let n = as_nanos(&d);
    n as u64
}

} // verus!
