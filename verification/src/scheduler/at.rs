//! Fixed moments for `--at`: RFC 3339, or a local `YYYY-MM-DD HH:MM:SS`, or
//! a local date (midnight).

use chrono::{Datelike, NaiveDate, NaiveDateTime, Timelike};
use vstd::prelude::*;

use crate::scheduler::error::{ScheduleError, ScheduleErrorView};
use crate::text::owned;

verus! {

/// An instant: whole seconds since the Unix epoch and the nanoseconds past
/// that second.
#[derive(Debug, Clone, Copy, PartialEq, Eq)]
pub struct Timestamp {
    pub secs: i64,
    pub nanos: u32,
}

/// `a` is not later than `b`.
pub open spec fn ts_le(a: Timestamp, b: Timestamp) -> bool {
    a.secs < b.secs || (a.secs == b.secs && a.nanos <= b.nanos)
}

impl Timestamp {
    /// Whether `self` is not later than `other`.
    pub fn le(&self, other: &Timestamp) -> (r: bool)
        ensures
            r == ts_le(*self, *other),
    {
        self.secs < other.secs || (self.secs == other.secs && self.nanos <= other.nanos)
    }
}

/// A calendar date and time of day as `chrono` reads it, with no time zone.
#[derive(Debug, Clone, Copy, PartialEq, Eq)]
pub struct LocalDateTime {
    pub year: i32,
    pub month: u32,
    pub day: u32,
    pub hour: u32,
    pub minute: u32,
    pub second: u32,
    pub nanos: u32,
}

/// The instant (seconds, nanoseconds) that `DateTime::parse_from_rfc3339`
/// reads from a text, if it accepts it.
pub uninterp spec fn rfc3339_instant(s: Seq<char>) -> Option<(i64, u32)>;

/// The date and time (year, month, day, hour, minute, second, nanosecond)
/// that `NaiveDateTime::parse_from_str` reads from `s` under format `fmt`,
/// if it accepts it.
pub uninterp spec fn naive_datetime_of(s: Seq<char>, fmt: Seq<char>) -> Option<LocalDateTime>;

/// The date (year, month, day) that `NaiveDate::parse_from_str` reads from
/// `s` under format `fmt`, if it accepts it.
pub uninterp spec fn naive_date_of(s: Seq<char>, fmt: Seq<char>) -> Option<(i32, u32, u32)>;

/// `chrono::DateTime::parse_from_rfc3339`, read back as an instant.  The
/// instant is a function of the text alone (the offset is in the text).
#[verifier::external_body]
pub(crate) fn parse_rfc3339(s: &str) -> (r: Option<Timestamp>)
    ensures
        r matches Some(t) ==> rfc3339_instant(s@) == Some((t.secs, t.nanos)),
        r is None ==> rfc3339_instant(s@) is None,
{
    chrono::DateTime::parse_from_rfc3339(s).ok().map(
        |dt| Timestamp { secs: dt.timestamp(), nanos: dt.timestamp_subsec_nanos() },
    )
}

/// `chrono::NaiveDateTime::parse_from_str`, read back as its fields.
#[verifier::external_body]
fn parse_naive_datetime(s: &str, fmt: &str) -> (r: Option<LocalDateTime>)
    ensures
        r == naive_datetime_of(s@, fmt@),
{
    NaiveDateTime::parse_from_str(s, fmt).ok().map(
        |n| LocalDateTime {
            year: n.year(),
            month: n.month(),
            day: n.day(),
            hour: n.hour(),
            minute: n.minute(),
            second: n.second(),
            nanos: n.nanosecond(),
        },
    )
}

/// `chrono::NaiveDate::parse_from_str`, read back as (year, month, day).
#[verifier::external_body]
fn parse_naive_date(s: &str, fmt: &str) -> (r: Option<(i32, u32, u32)>)
    ensures
        r == naive_date_of(s@, fmt@),
{
    NaiveDate::parse_from_str(s, fmt).ok().map(|d| (d.year(), d.month(), d.day()))
}

/// Days from 1970-01-01 to a date of the proleptic Gregorian calendar.
pub open spec fn days_from_civil(y: int, m: int, d: int) -> int {
    let y1 = if m <= 2 { y - 1 } else { y };
    let era = y1 / 400;
    let yoe = y1 - era * 400;
    let mp = if m > 2 { m - 3 } else { m + 9 };
    let doy = (153 * mp + 2) / 5 + d - 1;
    let doe = yoe * 365 + yoe / 4 - yoe / 100 + doy;
    era * 146097 + doe - 719468
}

/// Seconds from 1970-01-01 00:00:00 to a date and time read as UTC.
pub open spec fn civil_secs(f: LocalDateTime) -> int {
    days_from_civil(f.year as int, f.month as int, f.day as int) * 86400 + f.hour * 3600 + f.minute * 60
        + f.second
}

/// That date and time in the machine's time zone
/// (`NaiveDateTime::and_local_timezone(Local).earliest()`), read back as an
/// instant; `None` when it is not a valid date and time or does not exist
/// in the local time zone.  Which offset applies depends on the time zone,
/// so the instant is stated only up to it: chrono's offsets lie strictly
/// within one day, and the nanoseconds are kept.  chrono's Unix lookup of
/// the local time zone calls `expect` on its cache; whether that can fail
/// depends on the machine's time-zone data, which nothing here states.
#[verifier::external_body]
fn local_earliest(f: &LocalDateTime) -> (r: Option<Timestamp>)
    ensures
        r matches Some(t) ==> t.nanos == f.nanos && civil_secs(*f) - 86400 < t.secs < civil_secs(*f) + 86400,
{
    NaiveDate::from_ymd_opt(f.year, f.month, f.day)
        .and_then(|d| d.and_hms_nano_opt(f.hour, f.minute, f.second, f.nanos))
        .and_then(|n| n.and_local_timezone(chrono::Local).earliest())
        .map(|dt| Timestamp { secs: dt.timestamp(), nanos: dt.timestamp_subsec_nanos() })
}

/// The local date-time format accepted by `--at`.
pub open spec fn local_datetime_format() -> Seq<char> {
    "%Y-%m-%d %H:%M:%S"@
}

/// The local date format accepted by `--at`.
pub open spec fn local_date_format() -> Seq<char> {
    "%Y-%m-%d"@
}

/// The local date and time a `--at` text names: a `YYYY-MM-DD HH:MM:SS`
/// as read, else a `YYYY-MM-DD` at midnight.
pub open spec fn at_local_spec(s: Seq<char>) -> Option<LocalDateTime> {
    match naive_datetime_of(s, local_datetime_format()) {
        Some(f) => Some(f),
        None => match naive_date_of(s, local_date_format()) {
            Some((y, m, d)) => Some(
                LocalDateTime { year: y, month: m, day: d, hour: 0, minute: 0, second: 0, nanos: 0 },
            ),
            None => None,
        },
    }
}

/// Reads the local date and time of a `--at` text (see `at_local_spec`).
pub fn at_local_fields(s: &str) -> (r: Option<LocalDateTime>)
    ensures
        r == at_local_spec(s@),
{
    proof {
        reveal_strlit("%Y-%m-%d %H:%M:%S");
        reveal_strlit("%Y-%m-%d");
    }
    if let Some(f) = parse_naive_datetime(s, "%Y-%m-%d %H:%M:%S") {
        return Some(f);
    }
    match parse_naive_date(s, "%Y-%m-%d") {
        Some((y, m, d)) => Some(LocalDateTime { year: y, month: m, day: d, hour: 0, minute: 0, second: 0, nanos: 0 }),
        None => None,
    }
}

/// What `parse_at` may give for `s`: the instant of an RFC 3339 text; for a
/// local date-time or date, that date and time in the local time zone, whose
/// offset is within one day (it depends on the machine's time zone).
pub open spec fn at_ok(s: Seq<char>, t: Timestamp) -> bool {
    match rfc3339_instant(s) {
        Some((secs, nanos)) => t == Timestamp { secs, nanos },
        None => match at_local_spec(s) {
            Some(f) => t.nanos == f.nanos && civil_secs(f) - 86400 < t.secs < civil_secs(f) + 86400,
            None => false,
        },
    }
}

/// The error `parse_at` may give for `s`: a local time missing from the local
/// time zone, or a text in none of the accepted forms.
pub open spec fn at_err(s: Seq<char>, e: ScheduleErrorView) -> bool {
    &&& rfc3339_instant(s) is None
    &&& if at_local_spec(s) is Some {
        e == ScheduleErrorView::AtAmbiguous(s)
    } else {
        e == ScheduleErrorView::AtInvalid(s)
    }
}

/// Reads a `--at` time: RFC 3339 first, then a local `YYYY-MM-DD HH:MM:SS`,
/// then a local `YYYY-MM-DD` (at midnight); the local date and time (see
/// `at_local_fields`) is placed in the local time zone.  A local time that
/// does not exist in the local time zone is an error of its own.
pub fn parse_at(s: &str) -> (r: Result<Timestamp, ScheduleError>)
    ensures
        rfc3339_instant(s@) matches Some((secs, nanos)) ==> r == Ok::<Timestamp, ScheduleError>(
            Timestamp { secs, nanos },
        ),
        rfc3339_instant(s@) is None && at_local_spec(s@) is Some ==> (r is Ok || (r matches Err(e) && e@
            == ScheduleErrorView::AtAmbiguous(s@))),
        rfc3339_instant(s@) is None && at_local_spec(s@) is None ==> (r matches Err(e) && e@
            == ScheduleErrorView::AtInvalid(s@)),
        r matches Ok(t) ==> at_ok(s@, t),
        r matches Err(e) ==> at_err(s@, e@),
{
    if let Some(t) = parse_rfc3339(s) {
        return Ok(t);
    }
    match at_local_fields(s) {
        Some(f) => match local_earliest(&f) {
            Some(t) => Ok(t),
            None => Err(ScheduleError::AtAmbiguous(owned(s))),
        },
        None => Err(ScheduleError::AtInvalid(owned(s))),
    }
}

} // verus!
