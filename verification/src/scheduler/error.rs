//! Errors of the schedule parsers.

use vstd::prelude::*;

verus! {

/// Why a schedule argument was rejected; each variant carries the offending
/// text (or count).
#[derive(Debug)]
pub enum ScheduleError {
    /// The number before the unit of a duration did not parse.
    DurationNumber(String),
    /// The unit of a duration is not `s`, `m` or `h`.
    DurationUnit(String),
    /// A cron expression did not have five fields; the count found.
    CronFieldCount(usize),
    /// The step after `/` in a cron piece did not parse.
    CronStep(String),
    /// The step after `/` in a cron piece was zero.
    CronZeroStep(String),
    /// The start of a `a-b` range did not parse.
    CronRangeStart(String),
    /// The end of a `a-b` range did not parse.
    CronRangeEnd(String),
    /// A single cron value did not parse.
    CronNumber(String),
    /// A cron piece lies outside the field's bounds or is reversed.
    CronRange(String),
    /// A time for `--at` matched none of the accepted formats.
    AtInvalid(String),
    /// A local time for `--at` does not exist in the local time zone.
    AtAmbiguous(String),
}

/// The plain content of a `ScheduleError`.
pub enum ScheduleErrorView {
    DurationNumber(Seq<char>),
    DurationUnit(Seq<char>),
    CronFieldCount(nat),
    CronStep(Seq<char>),
    CronZeroStep(Seq<char>),
    CronRangeStart(Seq<char>),
    CronRangeEnd(Seq<char>),
    CronNumber(Seq<char>),
    CronRange(Seq<char>),
    AtInvalid(Seq<char>),
    AtAmbiguous(Seq<char>),
}

impl View for ScheduleError {
    type V = ScheduleErrorView;

    open spec fn view(&self) -> ScheduleErrorView {
        match self {
            ScheduleError::DurationNumber(s) => ScheduleErrorView::DurationNumber(s@),
            ScheduleError::DurationUnit(s) => ScheduleErrorView::DurationUnit(s@),
            ScheduleError::CronFieldCount(n) => ScheduleErrorView::CronFieldCount(*n as nat),
            ScheduleError::CronStep(s) => ScheduleErrorView::CronStep(s@),
            ScheduleError::CronZeroStep(s) => ScheduleErrorView::CronZeroStep(s@),
            ScheduleError::CronRangeStart(s) => ScheduleErrorView::CronRangeStart(s@),
            ScheduleError::CronRangeEnd(s) => ScheduleErrorView::CronRangeEnd(s@),
            ScheduleError::CronNumber(s) => ScheduleErrorView::CronNumber(s@),
            ScheduleError::CronRange(s) => ScheduleErrorView::CronRange(s@),
            ScheduleError::AtInvalid(s) => ScheduleErrorView::AtInvalid(s@),
            ScheduleError::AtAmbiguous(s) => ScheduleErrorView::AtAmbiguous(s@),
        }
    }
}

} // verus!
