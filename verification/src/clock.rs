//! Points in time.
//!
//! A point in time is a count of nanoseconds on some monotonic clock. Functions
//! that depend on the time take it as an argument.

use vstd::prelude::*;

verus! {

/// Nanoseconds from `then` to `now`; zero if `then` lies ahead.
pub open spec fn age(now: u128, then: u128) -> nat {
    if now >= then {
        (now - then) as nat
    } else {
        0
    }
}

/// An age is the time that has passed, and nothing is older than the time that has passed.
pub proof fn law_age_is_the_time_passed(now: u128, then: u128)
    ensures
        then <= now ==> then + age(now, then) == now,
        then >= now ==> age(now, then) == 0,
{
}

/// `now - then`, or zero.
pub fn elapsed(now: u128, then: u128) -> (nanos: u128)
    ensures
        nanos == age(now, then),
{
    if now >= then {
        now - then
    } else {
        0
    }
}

/// `std::time::Instant`, opaque here.
#[verifier::external_type_specification]
#[verifier::external_body]
pub struct ExInstant(std::time::Instant);

/// `std::time::Instant::now`. Nothing is claimed: the time is what it is.
#[verifier::external_body]
pub(crate) fn start_of_clock() -> std::time::Instant {
    std::time::Instant::now()
}

/// `std::time::Instant::elapsed`. Nothing is claimed: the time is what it is.
#[verifier::external_body]
fn since(origin: &std::time::Instant) -> std::time::Duration {
    origin.elapsed()
}

/// `std::time::Duration::as_nanos`. Nothing is claimed: a span of time is opaque here.
#[verifier::external_body]
fn in_nanos(span: std::time::Duration) -> u128 {
    span.as_nanos()
}

/// The time since `origin`, in nanoseconds. Its value is left open: it is whatever the
/// clock shows, and callers hold for every value of it.
pub(crate) fn nanos_since(origin: &std::time::Instant) -> u128 {
    in_nanos(since(origin))
}

} // verus!
