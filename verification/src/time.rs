//! The durations that the timer logic reads, stated over their length in nanoseconds.

use std::time::Duration;
use vstd::prelude::*;

verus! {

/// The span of time that a `Duration` holds, in nanoseconds.
pub uninterp spec fn duration_nanos(d: Duration) -> nat;

/// Gives `<Duration as Clone>::clone` its contract: `Duration` is `Copy`, so a
/// clone is the same value.
pub assume_specification[ <Duration as Clone>::clone ](d: &Duration) -> (r: Duration)
    ensures
        r == *d,
;

/// Whole milliseconds in a duration, as `Duration::as_millis` counts them.
pub open spec fn millis_of(d: Duration) -> nat {
    duration_nanos(d) / 1_000_000
}

/// Whole milliseconds in a duration, cut to 64 bits as the timer logic stores them.
pub open spec fn millis_u64(d: Duration) -> u64 {
    (millis_of(d) % 0x1_0000_0000_0000_0000) as u64
}

/// Calls `Duration::as_millis`, which returns the total number of whole
/// milliseconds in the duration.
#[verifier::external_body]
pub fn duration_as_millis(d: &Duration) -> (r: u128)
    ensures
        r == millis_of(*d),
{
    d.as_millis()
}

/// Calls `Duration::as_millis` and keeps the low 64 bits of the count, as an
/// `as u64` cast does.
pub fn duration_millis_u64(d: &Duration) -> (r: u64)
    ensures
        r == millis_u64(*d),
{
    let ms = duration_as_millis(d);
    let low = ms % 0x1_0000_0000_0000_0000u128;
    low as u64
}

/// Calls `Duration::as_nanos`, which returns the total number of nanoseconds
/// in the duration.
#[verifier::external_body]
pub fn duration_as_nanos(d: &Duration) -> (r: u128)
    ensures
        r == duration_nanos(*d),
{
    d.as_nanos()
}

/// The duration holds at least one whole millisecond, and its count of
/// whole milliseconds fits in 64 bits.
pub open spec fn millis_in_u64(d: Duration) -> bool {
    1 <= millis_of(d) <= u64::MAX
}

/// The number of whole milliseconds in the duration, when it is at least one
/// and fits in 64 bits.
pub fn duration_millis_in_u64(d: &Duration) -> (r: Option<u64>)
    ensures
        r is Some <==> millis_in_u64(*d),
        r matches Some(ms) ==> ms == millis_of(*d),
{
    let ms = duration_as_millis(d);
    if ms < 1 || ms > 0xffff_ffff_ffff_ffffu128 {
        return None;
    }
    Some(ms as u64)
}

/// Calls `Duration::is_zero`, which is true exactly when the duration spans no time.
#[verifier::external_body]
pub fn duration_is_zero(d: &Duration) -> (r: bool)
    ensures
        r == (duration_nanos(*d) == 0),
{
    d.is_zero()
}

/// Calls `Duration::from_millis`, which makes a duration of `ms` milliseconds.
#[verifier::external_body]
pub fn duration_from_millis(ms: u64) -> (d: Duration)
    ensures
        duration_nanos(d) == ms * 1_000_000,
{
    Duration::from_millis(ms)
}

/// Calls `Duration::from_secs`, which makes a duration of `secs` seconds.
#[verifier::external_body]
pub fn duration_from_secs(secs: u64) -> (d: Duration)
    ensures
        duration_nanos(d) == secs * 1_000_000_000,
{
    Duration::from_secs(secs)
}

} // verus!
