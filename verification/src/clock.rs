//! Time: the wall clock in whole seconds, and durations measured in
//! nanoseconds.

use vstd::prelude::*;
use std::time::{Duration, Instant};

verus! {

/// Seconds since the Unix epoch (`SystemTime::now`). The value depends on
/// the machine's clock, so nothing is promised of it; a clock set before
/// 1970 reads as 0.
#[verifier::external_body]
pub(crate) fn unix_now_secs() -> (t: u64) {
    std::time::SystemTime::now().duration_since(std::time::UNIX_EPOCH).map(|d| d.as_secs()).unwrap_or(0)
}

/// `std::time::Instant`, a reading of the monotonic clock.
#[verifier::external_type_specification]
#[verifier::external_body]
pub struct ExInstant(Instant);

/// The current instant (`Instant::now`); nothing is promised of it.
#[verifier::external_body]
pub(crate) fn instant_now() -> (i: Instant) {
    Instant::now()
}

/// The whole nanoseconds that a duration holds (`Duration::as_nanos`).
pub uninterp spec fn duration_nanos(d: Duration) -> nat;

/// Nanoseconds in a second.
pub const NANOS_PER_SEC: u64 = 1_000_000_000;

/// The longest duration, in nanoseconds.
pub open spec fn max_duration_nanos() -> nat {
    (u64::MAX as nat) * 1_000_000_000 + 999_999_999
}

/// The whole nanoseconds of `d` (`Duration::as_nanos`).
#[verifier::external_body]
pub(crate) fn duration_as_nanos(d: &Duration) -> (n: u128)
    ensures
        n == duration_nanos(*d),
        n <= max_duration_nanos(),
{
    d.as_nanos()
}

/// The duration of `secs` seconds and `nanos` nanoseconds (`Duration::new`).
#[verifier::external_body]
pub(crate) fn duration_new(secs: u64, nanos: u32) -> (d: Duration)
    requires
        nanos < NANOS_PER_SEC,
    ensures
        duration_nanos(d) == secs * 1_000_000_000 + nanos,
{
    Duration::new(secs, nanos)
}

/// The duration of `ms` milliseconds (`Duration::from_millis`).
#[verifier::external_body]
pub(crate) fn duration_from_millis(ms: u64) -> (d: Duration)
    ensures
        duration_nanos(d) == ms * 1_000_000,
{
    Duration::from_millis(ms)
}

/// The sum of two durations (`Duration + Duration`, which panics on
/// overflow).
#[verifier::external_body]
pub(crate) fn duration_add(a: Duration, b: Duration) -> (d: Duration)
    requires
        duration_nanos(a) + duration_nanos(b) <= max_duration_nanos(),
    ensures
        duration_nanos(d) == duration_nanos(a) + duration_nanos(b),
{
    a + b
}

/// The whole microseconds of a duration, truncated to 64 bits as `as u64`
/// does.
pub fn duration_micros_u64(d: &Duration) -> (m: u64)
    ensures
        m == (duration_nanos(*d) / 1000) as u64,
{
    let n = duration_as_nanos(d);
    #[verifier::truncate] ((n / 1000) as u64)
}

/// The duration of `n` nanoseconds, for `n` that a duration can hold.
pub fn duration_from_nanos_u128(n: u128) -> (d: Duration)
    requires
        n <= max_duration_nanos(),
    ensures
        duration_nanos(d) == n,
{
    let secs = n / 1_000_000_000;
    let nanos = n % 1_000_000_000;
    assert(secs <= u64::MAX) by (nonlinear_arith)
        requires
            n <= (u64::MAX as nat) * 1_000_000_000 + 999_999_999,
            secs == n / 1_000_000_000;
    assert(n == secs * 1_000_000_000 + nanos) by (nonlinear_arith)
        requires
            secs == n / 1_000_000_000,
            nanos == n % 1_000_000_000;
    duration_new(secs as u64, nanos as u32)
}

} // verus!
