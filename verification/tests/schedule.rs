use std::time::Duration;

use auto_comfy_maker::cli::daemon::{describe_trigger, DaemonState, Trigger};
use auto_comfy_maker::scheduler::at::{at_local_fields, parse_at, LocalDateTime, Timestamp};
use auto_comfy_maker::scheduler::cron::{parse_cron, CronTime};
use auto_comfy_maker::scheduler::interval::{duration_would_panic, parse_duration};
use auto_comfy_maker::scheduler::persist::{mark_completed, mark_failed, JobFile, JobRecord, JobStatus};
use auto_comfy_maker::scheduler::retry::{retry_decision, RetryDecision};

fn local_text(t: &Timestamp, fmt: &str) -> String {
    let utc = chrono::DateTime::from_timestamp(t.secs, t.nanos).unwrap();
    utc.with_timezone(&chrono::Local).format(fmt).to_string()
}

fn cron_matches(expr: &str, mo: u32, d: u32, h: u32, mi: u32, wd: u32) -> bool {
    let e = parse_cron(expr).unwrap();
    e.matches(&CronTime { minute: mi, hour: h, day: d, month: mo, weekday: wd })
}

fn sample(id: &str) -> JobRecord {
    JobRecord {
        id: id.to_string(),
        scheduled_at: "2026-09-01T09:00:00+08:00".to_string(),
        status: JobStatus::Pending,
        mode: "auto".to_string(),
        prompt: None,
        completed_at: None,
        output_path: None,
    }
}

#[test]
fn parse_simple() {
    assert_eq!(parse_duration("30s").unwrap(), Duration::from_secs(30));
    assert_eq!(parse_duration("5m").unwrap(), Duration::from_secs(300));
    assert_eq!(parse_duration("2h").unwrap(), Duration::from_secs(7200));
}

#[test]
fn parse_rejects_garbage() {
    assert!(parse_duration("abc").is_err());
    assert!(parse_duration("5x").is_err());
    assert!(parse_duration("").is_err());
}

#[test]
fn parse_task_interval() {
    let d = parse_duration("10s").unwrap();
    assert_eq!(d, Duration::from_secs(10));
    let d = parse_duration("1m").unwrap();
    assert_eq!(d, Duration::from_secs(60));
}

#[test]
fn duration_overflow_is_detected() {
    assert!(duration_would_panic("18446744073709551615h"));
    assert!(!duration_would_panic("5m"));
}

#[test]
fn every_15_min() {
    assert!(cron_matches("*/15 * * * *", 8, 24, 10, 0, 1));
    assert!(cron_matches("*/15 * * * *", 8, 24, 10, 45, 1));
    assert!(!cron_matches("*/15 * * * *", 8, 24, 10, 20, 1));
}

#[test]
fn daily_at_9() {
    assert!(cron_matches("0 9 * * *", 8, 24, 9, 0, 1));
    assert!(!cron_matches("0 9 * * *", 8, 24, 10, 0, 1));
    assert!(!cron_matches("0 9 * * *", 8, 24, 9, 30, 1));
}

#[test]
fn weekly_monday() {
    assert!(cron_matches("0 0 * * 1", 8, 24, 0, 0, 1));
    assert!(!cron_matches("0 0 * * 1", 8, 25, 0, 0, 2));
}

#[test]
fn range_and_list() {
    assert!(cron_matches("1-5 * * * *", 8, 24, 10, 3, 1));
    assert!(!cron_matches("1-5 * * * *", 8, 24, 10, 6, 1));
    assert!(cron_matches("0,30 * * * *", 8, 24, 10, 30, 1));
}

#[test]
fn reject_invalid() {
    assert!(parse_cron("* * * *").is_err());
    assert!(parse_cron("* * * * * *").is_err());
    assert!(parse_cron("60 * * * *").is_err());
    assert!(parse_cron("*/0 * * * *").is_err());
    assert!(parse_cron("5-1 * * * *").is_err());
    assert!(parse_cron("? * * * *").is_err());
}

#[test]
fn parse_rfc3339() {
    let dt = parse_at("2026-09-01T09:00:00+08:00").unwrap();
    let east8 = chrono::FixedOffset::east_opt(8 * 3600).unwrap();
    let shown = chrono::DateTime::from_timestamp(dt.secs, dt.nanos)
        .unwrap()
        .with_timezone(&east8)
        .format("%Y-%m-%d %H:%M")
        .to_string();
    assert_eq!(shown, "2026-09-01 09:00");
}

#[test]
fn parse_local_datetime() {
    let dt = parse_at("2026-09-01 09:00:00").unwrap();
    assert_eq!(local_text(&dt, "%Y-%m-%d %H:%M"), "2026-09-01 09:00");
}

#[test]
fn parse_date_only() {
    let dt = parse_at("2026-09-01").unwrap();
    assert_eq!(local_text(&dt, "%Y-%m-%d %H:%M"), "2026-09-01 00:00");
}

#[test]
fn reject_garbage() {
    assert!(parse_at("not a time").is_err());
    assert!(parse_at("").is_err());
}

#[test]
fn parse_at_list() {
    let a = parse_at("2026-09-01 09:00:00").unwrap();
    assert_eq!(local_text(&a, "%H"), "09");
}

#[test]
fn describe_trigger_formats() {
    let t = Trigger::Interval(60);
    assert!(describe_trigger(&t).contains("60s"));
}

#[test]
fn at_moments_fire_once_in_order() {
    let t1 = Timestamp { secs: 100, nanos: 0 };
    let t2 = Timestamp { secs: 200, nanos: 0 };
    let t3 = Timestamp { secs: 300, nanos: 0 };
    let mut state = DaemonState::new(Trigger::At(vec![t3, t1, t2]), &Vec::new());
    assert_eq!(state.at_queue, vec![t1, t2, t3]);
    assert!(!state.finished());
    let fields = CronTime { minute: 0, hour: 0, day: 1, month: 1, weekday: 0 };
    assert!(!state.tick(Timestamp { secs: 50, nanos: 0 }, &fields));
    assert_eq!(state.next_moment(), Some(t1));
    assert!(state.tick(Timestamp { secs: 250, nanos: 0 }, &fields));
    assert_eq!(state.at_queue, vec![t2, t3]);
    assert!(!state.finish_tick(Timestamp { secs: 251, nanos: 0 }));
    assert_eq!(state.next_moment(), Some(t2));
    assert!(state.tick(Timestamp { secs: 252, nanos: 0 }, &fields));
    assert_eq!(state.at_queue, vec![t3]);
    assert!(!state.tick(Timestamp { secs: 260, nanos: 0 }, &fields));
    assert!(!state.finish_tick(Timestamp { secs: 261, nanos: 0 }));
    assert!(state.tick(Timestamp { secs: 300, nanos: 0 }, &fields));
    assert!(state.at_queue.is_empty());
    assert!(state.finish_tick(Timestamp { secs: 301, nanos: 0 }));
}

#[test]
fn restart_skips_moments_already_served() {
    let t1 = Timestamp { secs: 100, nanos: 0 };
    let t2 = Timestamp { secs: 200, nanos: 0 };
    let t3 = Timestamp { secs: 300, nanos: 0 };
    let mut done = sample("tick-a-0");
    done.scheduled_at = "1970-01-01T00:03:20+00:00".to_string();
    let mut later = sample("tick-b-0");
    later.scheduled_at = "1970-01-01T00:04:10+00:00".to_string();
    let mut junk = sample("tick-c-0");
    junk.scheduled_at = "not a time".to_string();
    let state = DaemonState::new(Trigger::At(vec![t3, t1, t2]), &vec![junk.clone(), done.clone(), later]);
    assert_eq!(state.at_queue, vec![t1, t3]);
    let state = DaemonState::new(Trigger::At(vec![t3, t1, t2]), &vec![junk]);
    assert_eq!(state.at_queue, vec![t1, t2, t3]);
    let state = DaemonState::new(Trigger::At(vec![t2]), &vec![done]);
    assert!(state.finished());
}

#[test]
fn interval_waits_after_finish() {
    let mut state = DaemonState::new(Trigger::Interval(60), &Vec::new());
    let fields = CronTime { minute: 0, hour: 0, day: 1, month: 1, weekday: 0 };
    assert!(state.tick(Timestamp { secs: 0, nanos: 0 }, &fields));
    assert!(!state.finish_tick(Timestamp { secs: 10, nanos: 0 }));
    assert!(!state.tick(Timestamp { secs: 69, nanos: 999_999_999 }, &fields));
    assert!(state.tick(Timestamp { secs: 70, nanos: 0 }, &fields));
}

#[test]
fn mark_completed_updates_status() {
    let mut f = JobFile::new();
    f.jobs.push(sample("x"));
    assert!(mark_completed(&mut f, "x", Some("out.png".into())));
    assert_eq!(f.jobs[0].status, JobStatus::Completed);
    assert_eq!(f.jobs[0].output_path.as_deref(), Some("out.png"));
}

#[test]
fn mark_failed_updates_status() {
    let mut f = JobFile::new();
    f.jobs.push(sample("y"));
    assert!(mark_failed(&mut f, "y"));
    assert_eq!(f.jobs[0].status, JobStatus::Failed);
}

#[test]
fn mark_unknown_id_returns_false() {
    let mut f = JobFile::new();
    assert!(!mark_completed(&mut f, "nope", None));
}

#[test]
fn mark_keeps_other_jobs() {
    let mut f = JobFile::new();
    f.jobs.push(sample("a"));
    f.jobs.push(sample("b"));
    assert!(mark_failed(&mut f, "b"));
    assert_eq!(f.jobs[0].status, JobStatus::Pending);
    assert!(f.jobs[0].completed_at.is_none());
    assert_eq!(f.jobs[1].status, JobStatus::Failed);
    assert!(f.jobs[1].completed_at.is_some());
}

#[test]
fn local_fields_of_date_and_datetime() {
    assert_eq!(
        at_local_fields("2026-09-01"),
        Some(LocalDateTime { year: 2026, month: 9, day: 1, hour: 0, minute: 0, second: 0, nanos: 0 })
    );
    assert_eq!(
        at_local_fields("2026-09-01 09:30:15"),
        Some(LocalDateTime { year: 2026, month: 9, day: 1, hour: 9, minute: 30, second: 15, nanos: 0 })
    );
    assert_eq!(at_local_fields("tomorrow"), None);
}

#[test]
fn local_date_lands_within_a_day_of_midnight() {
    let t = parse_at("2026-09-01").unwrap();
    let midnight_utc = chrono::NaiveDate::from_ymd_opt(2026, 9, 1).unwrap().and_hms_opt(0, 0, 0).unwrap().and_utc().timestamp();
    assert!((t.secs - midnight_utc).abs() < 86400);
    assert_eq!(t.nanos, 0);
}

#[test]
fn retry_policy_steps() {
    assert_eq!(retry_decision(1), RetryDecision::RetryAfter(0));
    assert_eq!(retry_decision(2), RetryDecision::RetryAfter(30));
    assert_eq!(retry_decision(3), RetryDecision::RetryAfter(120));
    assert_eq!(retry_decision(4), RetryDecision::GiveUp);
    assert_eq!(retry_decision(9), RetryDecision::GiveUp);
}

#[test]
fn described_cron_reads_back() {
    let e = parse_cron("5-10/5,30 1-3 2 7 1").unwrap();
    let text = e.describe();
    assert_eq!(text, "5,10,30 1,2,3 2 7 1");
    assert_eq!(parse_cron(&text).unwrap(), e);
}
