//! The range of the signed duration type that totals are accumulated in:
//! `chrono::Duration`, which holds up to `i64::MAX` milliseconds either way.

use vstd::prelude::*;

verus! {

/// The most whole seconds that a `chrono::Duration` holds: `i64::MAX / 1000`.
pub const MAX_SECONDS: i64 = 9223372036854775;

/// A count of whole seconds as a `chrono::Duration` would hold it: `None`
/// where it is outside of that type's range.
pub open spec fn whole_seconds(total: int) -> Option<i64> {
    if -MAX_SECONDS <= total <= MAX_SECONDS {
        Some(total as i64)
    } else {
        None
    }
}

/// Calls `chrono::Duration::try_weeks` and reads the result back with
/// `num_seconds`. Trusted: the result is `weeks` times 604800 where that
/// product lies within `MAX_SECONDS` of zero, and `None` otherwise.
#[verifier::external_body]
pub(crate) fn weeks_to_seconds(weeks: i64) -> (r: Option<i64>)
    ensures
        r == whole_seconds(weeks * 604800),
{
    match chrono::Duration::try_weeks(weeks) {
        Some(d) => Some(d.num_seconds()),
        None => None,
    }
}

/// Calls `chrono::Duration::try_days` and reads the result back with
/// `num_seconds`. Trusted: the result is `days` times 86400 where that
/// product lies within `MAX_SECONDS` of zero, and `None` otherwise.
#[verifier::external_body]
pub(crate) fn days_to_seconds(days: i64) -> (r: Option<i64>)
    ensures
        r == whole_seconds(days * 86400),
{
    match chrono::Duration::try_days(days) {
        Some(d) => Some(d.num_seconds()),
        None => None,
    }
}

/// Calls `chrono::Duration::try_hours` and reads the result back with
/// `num_seconds`. Trusted: the result is `hours` times 3600 where that
/// product lies within `MAX_SECONDS` of zero, and `None` otherwise.
#[verifier::external_body]
pub(crate) fn hours_to_seconds(hours: i64) -> (r: Option<i64>)
    ensures
        r == whole_seconds(hours * 3600),
{
    match chrono::Duration::try_hours(hours) {
        Some(d) => Some(d.num_seconds()),
        None => None,
    }
}

/// Calls `chrono::Duration::try_minutes` and reads the result back with
/// `num_seconds`. Trusted: the result is `minutes` times 60 where that
/// product lies within `MAX_SECONDS` of zero, and `None` otherwise.
#[verifier::external_body]
pub(crate) fn minutes_to_seconds(minutes: i64) -> (r: Option<i64>)
    ensures
        r == whole_seconds(minutes * 60),
{
    match chrono::Duration::try_minutes(minutes) {
        Some(d) => Some(d.num_seconds()),
        None => None,
    }
}

/// Calls `chrono::Duration::try_seconds` and reads the result back with
/// `num_seconds`. Trusted: the result is `seconds` itself where it lies
/// within `MAX_SECONDS` of zero, and `None` otherwise.
#[verifier::external_body]
pub(crate) fn seconds_to_seconds(seconds: i64) -> (r: Option<i64>)
    ensures
        r == whole_seconds(seconds as int),
{
    match chrono::Duration::try_seconds(seconds) {
        Some(d) => Some(d.num_seconds()),
        None => None,
    }
}

} // verus!
