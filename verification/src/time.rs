//! Points in time and spans of time, both in nanoseconds.

use vstd::prelude::*;

verus! {

/// A point in time (nanoseconds on the simulation's clock) or a span of time (nanoseconds).
pub type Nanos = u128;

/// The longest span that can be expressed: `u64::MAX` seconds and 999,999,999 nanoseconds.
pub const SPAN_MAX: u128 = 18_446_744_073_709_551_615_999_999_999;

pub const NANOS_PER_MILLI: u128 = 1_000_000;

/// The span of `ms` milliseconds.
pub fn from_millis(ms: u64) -> (span: Nanos)
    ensures
        span == ms * 1_000_000,
        span <= SPAN_MAX,
{
    (ms as u128) * NANOS_PER_MILLI
}

/// How much time has passed at `now` since `start`; zero when `start` lies in the future.
pub open spec fn elapsed_spec(start: Nanos, now: Nanos) -> Nanos {
    if start <= now {
        (now - start) as u128
    } else {
        0
    }
}

/// How much time has passed at `now` since `start`; zero when `start` lies in the future.
pub fn elapsed(start: Nanos, now: Nanos) -> (span: Nanos)
    ensures
        span == elapsed_spec(start, now),
{
    if start <= now {
        now - start
    } else {
        0
    }
}

/// The time that has passed is what lies between the two moments, and never negative.
pub proof fn law_time_passes(start: Nanos, now: Nanos)
    ensures
        start + elapsed_spec(start, now) == if now < start {
            start
        } else {
            now
        },
{
}

/// How long to wait at `now` before something that should start `start_at` after `start`; zero when
/// that moment has passed.
pub fn time_until(start: Nanos, start_at: Nanos, now: Nanos) -> (span: Nanos)
    ensures
        start <= now ==> now + span == if now - start < start_at {
            start + start_at
        } else {
            now as int
        },
        span == if elapsed_spec(start, now) < start_at {
            start_at - elapsed_spec(start, now)
        } else {
            0
        },
{
    let passed: Nanos = elapsed(start, now);
    if passed < start_at {
        start_at - passed
    } else {
        0
    }
}

} // verus!
