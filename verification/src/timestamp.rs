//! Calendar time for decoded timestamps, through the `time` crate.
//!
//! A cookie keeps its timestamps as raw `f64` bits; turning those seconds into
//! a whole Unix second is floating-point work done by callers. What follows it
//! is here: the clamp into the range that `time` accepts, and the conversion.

use vstd::prelude::*;

use time::error::ComponentRange;
use time::OffsetDateTime;

verus! {

#[verifier::external_type_specification]
#[verifier::external_body]
pub struct ExOffsetDateTime(OffsetDateTime);

#[verifier::external_type_specification]
#[verifier::external_body]
pub struct ExComponentRange(ComponentRange);

/// Unix seconds at the Mac epoch (2001-01-01T00:00:00Z).
pub const MAC_EPOCH_UNIX_SECONDS: i64 = 978_307_200;

/// The earliest Unix second that `OffsetDateTime` represents (year -9999).
pub const MIN_UNIX_TIMESTAMP: i64 = -377_705_116_800;

/// The latest Unix second that `OffsetDateTime` represents (year 9999).
pub const MAX_UNIX_TIMESTAMP: i64 = 253_402_300_799;

/// `unix` moved into `[MIN_UNIX_TIMESTAMP, MAX_UNIX_TIMESTAMP]`.
pub open spec fn clamped_unix(unix: i64) -> i64 {
    if unix < MIN_UNIX_TIMESTAMP {
        MIN_UNIX_TIMESTAMP
    } else if unix > MAX_UNIX_TIMESTAMP {
        MAX_UNIX_TIMESTAMP
    } else {
        unix
    }
}

/// The UTC date-time that `OffsetDateTime::from_unix_timestamp` gives for a
/// Unix second it accepts.
pub uninterp spec fn unix_datetime(unix: i64) -> OffsetDateTime;

/// Calls `time::OffsetDateTime::from_unix_timestamp`.
///
/// Trusted: the call succeeds on every second from year -9999 to year 9999,
/// as its source shows, and the date-time it gives depends on the second
/// alone (named `unix_datetime`). Which instant that is, is not spelled out.
#[verifier::external_body]
fn offset_date_time_from_unix_timestamp(unix: i64) -> (r: Result<OffsetDateTime, ComponentRange>)
    ensures
        MIN_UNIX_TIMESTAMP <= unix <= MAX_UNIX_TIMESTAMP ==> r is Ok,
        r matches Ok(datetime) ==> datetime == unix_datetime(unix),
{
    OffsetDateTime::from_unix_timestamp(unix)
}

/// Returns `time::OffsetDateTime::UNIX_EPOCH`. Nothing is stated of it.
#[verifier::external_body]
fn offset_date_time_unix_epoch() -> OffsetDateTime {
    OffsetDateTime::UNIX_EPOCH
}

/// Clamps a Unix second into the range that `OffsetDateTime` accepts.
pub fn clamp_unix_timestamp(unix: i64) -> (r: i64)
    ensures
        r == clamped_unix(unix),
        MIN_UNIX_TIMESTAMP <= r <= MAX_UNIX_TIMESTAMP,
        MIN_UNIX_TIMESTAMP <= unix <= MAX_UNIX_TIMESTAMP ==> r == unix,
        unix < MIN_UNIX_TIMESTAMP ==> r == MIN_UNIX_TIMESTAMP,
        unix > MAX_UNIX_TIMESTAMP ==> r == MAX_UNIX_TIMESTAMP,
{
    if unix < MIN_UNIX_TIMESTAMP {
        MIN_UNIX_TIMESTAMP
    } else if unix > MAX_UNIX_TIMESTAMP {
        MAX_UNIX_TIMESTAMP
    } else {
        unix
    }
}

/// The calendar time of a Unix second, after clamping it into the years
/// ±9999; weird timestamps neither panic nor fail. The Unix-epoch fallback of
/// the conversion is never taken, since the clamped second is always in range.
pub fn datetime_from_unix(unix: i64) -> (datetime: OffsetDateTime)
    ensures
        datetime == unix_datetime(clamped_unix(unix)),
        MIN_UNIX_TIMESTAMP <= unix <= MAX_UNIX_TIMESTAMP ==> datetime == unix_datetime(unix),
        unix < MIN_UNIX_TIMESTAMP ==> datetime == unix_datetime(MIN_UNIX_TIMESTAMP),
        unix > MAX_UNIX_TIMESTAMP ==> datetime == unix_datetime(MAX_UNIX_TIMESTAMP),
{
    let clamped = clamp_unix_timestamp(unix);
    let converted = offset_date_time_from_unix_timestamp(clamped);
    assert(converted is Ok);
    match converted {
        Ok(datetime) => datetime,
        Err(_) => offset_date_time_unix_epoch(),
    }
}

/// The clamp changes only seconds that `OffsetDateTime` cannot hold: every
/// second in range is kept, and one outside goes to the nearest bound; so
/// the clamp never moves a second further than needed and is idempotent.
pub proof fn lemma_clamp_is_nearest_in_range(unix: i64)
    ensures
        MIN_UNIX_TIMESTAMP <= clamped_unix(unix) <= MAX_UNIX_TIMESTAMP,
        MIN_UNIX_TIMESTAMP <= unix <= MAX_UNIX_TIMESTAMP ==> clamped_unix(unix) == unix,
        unix < MIN_UNIX_TIMESTAMP ==> clamped_unix(unix) == MIN_UNIX_TIMESTAMP,
        unix > MAX_UNIX_TIMESTAMP ==> clamped_unix(unix) == MAX_UNIX_TIMESTAMP,
        forall|t: i64|
            MIN_UNIX_TIMESTAMP <= t <= MAX_UNIX_TIMESTAMP ==> #[trigger] abs_diff(unix, t)
                >= abs_diff(unix, clamped_unix(unix)),
        clamped_unix(clamped_unix(unix)) == clamped_unix(unix),
{
}

/// The distance between two seconds.
pub open spec fn abs_diff(a: i64, b: i64) -> int {
    if a >= b {
        a - b
    } else {
        b - a
    }
}

} // verus!
