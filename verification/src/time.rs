//! Monotonic time as seen by the library. Readings of the clock are never assumed to have any
//! particular value: everything proved about code that reads the clock holds for every reading.
use vstd::prelude::*;

verus! {

#[verifier::external_type_specification]
#[verifier::external_body]
pub struct ExInstant(std::time::Instant);

/// The largest number of whole milliseconds that a `std::time::Duration` can hold: its whole
/// seconds are a `u64` and its sub-second part is below one second.
pub const MAX_DURATION_MILLIS: u128 = 18_446_744_073_709_551_615_999;

/// The largest number of whole nanoseconds that a `std::time::Duration` can hold
/// (`Duration::MAX`: `u64::MAX` seconds and 999,999,999 nanoseconds).
pub const MAX_DURATION_NANOS: u128 = 18_446_744_073_709_551_615_999_999_999;

/// Calls `std::time::Instant::now`. Nothing is claimed about the returned instant: it depends
/// on the clock.
#[verifier::external_body]
pub(crate) fn instant_now() -> (t: std::time::Instant) {
    std::time::Instant::now()
}

/// A name for `std::time::Instant::checked_sub` by a duration of `ms` milliseconds: the
/// instant that long before `t`, `None` when the platform cannot represent it.
pub uninterp spec fn instant_minus_millis(t: std::time::Instant, ms: u64) -> Option<std::time::Instant>;

/// Calls `std::time::Instant::checked_sub` with a duration of `ms` milliseconds (made by
/// `Duration::from_millis`); the result is named by `instant_minus_millis`.
#[verifier::external_body]
pub(crate) fn checked_sub_millis(t: &std::time::Instant, ms: u64) -> (r: Option<std::time::Instant>)
    ensures
        r == instant_minus_millis(*t, ms),
{
    t.checked_sub(std::time::Duration::from_millis(ms))
}

/// A name for the nanoseconds from `earlier` to `later` (`std::time::Instant`'s subtraction,
/// which gives zero when `earlier` is the later one).
pub uninterp spec fn nanos_between(later: std::time::Instant, earlier: std::time::Instant) -> u128;

/// Calls `std::time::Instant::saturating_duration_since` and converts the duration with
/// `Duration::as_nanos`; the result is named by `nanos_between`. Claimed besides: it is no more
/// than a `Duration` can hold.
#[verifier::external_body]
pub(crate) fn gap_nanos(later: &std::time::Instant, earlier: &std::time::Instant) -> (ns: u128)
    ensures
        ns == nanos_between(*later, *earlier),
        ns <= MAX_DURATION_NANOS,
{
    later.saturating_duration_since(*earlier).as_nanos()
}



/// A name for `std::time::Duration::from_millis`: the duration of `ms` milliseconds.
pub uninterp spec fn duration_from_millis(ms: u64) -> std::time::Duration;

/// Calls `std::time::Duration::from_millis`; the result is named by `duration_from_millis`.
#[verifier::external_body]
pub(crate) fn millis_to_duration(ms: u64) -> (d: std::time::Duration)
    ensures
        d == duration_from_millis(ms),
{
    std::time::Duration::from_millis(ms)
}

/// A name for `std::time::Duration::as_nanos`: the whole nanoseconds of a duration.
pub uninterp spec fn duration_as_nanos(d: std::time::Duration) -> u128;

/// Calls `std::time::Duration::as_nanos`; the result is named by `duration_as_nanos`. Claimed
/// besides: a duration made by `Duration::from_millis(ms)` is `ms` million nanoseconds.
#[verifier::external_body]
pub(crate) fn duration_to_nanos(d: &std::time::Duration) -> (ns: u128)
    ensures
        ns == duration_as_nanos(*d),
        forall|ms: u64| *d == #[trigger] duration_from_millis(ms) ==> ns == ms * 1_000_000,
{
    d.as_nanos()
}

} // verus!
