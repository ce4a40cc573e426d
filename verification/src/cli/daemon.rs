//! The daemon: which trigger the arguments select, when a tick fires, and
//! what it records.

use vstd::prelude::*;

use crate::scheduler::at::{at_err, at_ok, parse_at, parse_rfc3339, rfc3339_instant, ts_le, Timestamp};
use crate::scheduler::cron::{
    cron_spec, cron_would_panic, expr_lists, field_text_ok, parse_cron, CronExpr, CronSpec, CronTime,
};
use crate::text::join_spec;
use crate::scheduler::error::{ScheduleError, ScheduleErrorView};
use crate::scheduler::interval::{duration_spec, parse_duration_secs, DurationSpec};
use crate::scheduler::persist::{JobRecord, JobStatus};
use crate::text::{decimal_spec, decimal_u64, owned, push_all};

verus! {

/// Where the prompt of each tick comes from.
#[derive(Debug, Clone, Copy, PartialEq, Eq, Structural)]
pub enum DaemonMode {
    /// One prompt given on the command line or in a file.
    Fixed,
    /// A fresh combination from a theme at every tick.
    Auto,
}

/// Arguments of the `daemon` command.
#[derive(Debug, Clone)]
pub struct DaemonArgs {
    /// Tick period such as `5m`; excludes `cron` and `at`.
    pub interval: Option<String>,
    /// Cron expression; excludes `interval` and `at`.
    pub cron: Option<String>,
    /// Fixed moments; exclude `interval` and `cron`.
    pub at: Vec<String>,
    /// Pause between jobs in continuous mode; excludes the three others.
    pub task_interval: Option<String>,
    pub mode: DaemonMode,
    /// The prompt of `fixed` mode.
    pub prompt: Option<String>,
    /// A file holding the prompt of `fixed` mode.
    pub prompt_file: Option<String>,
    /// The theme of `auto` mode.
    pub theme: String,
    pub lang: Option<String>,
    pub count_per_tick: u32,
    pub template: String,
    pub no_send: bool,
    pub refine: bool,
    /// Where the job records are kept.
    pub persist: String,
}

/// Why the daemon cannot start.
#[derive(Debug)]
pub enum DaemonError {
    Schedule(ScheduleError),
    /// None of `--interval`, `--cron`, `--at`, `--task-interval` was given.
    NoTrigger,
    /// `auto` mode was given a prompt.
    PromptInAutoMode,
    /// `fixed` mode was given no prompt.
    MissingPrompt,
}

/// The plain content of a `DaemonError`.
pub enum DaemonErrorView {
    Schedule(ScheduleErrorView),
    NoTrigger,
    PromptInAutoMode,
    MissingPrompt,
}

impl View for DaemonError {
    type V = DaemonErrorView;

    open spec fn view(&self) -> DaemonErrorView {
        match self {
            DaemonError::Schedule(e) => DaemonErrorView::Schedule(e@),
            DaemonError::NoTrigger => DaemonErrorView::NoTrigger,
            DaemonError::PromptInAutoMode => DaemonErrorView::PromptInAutoMode,
            DaemonError::MissingPrompt => DaemonErrorView::MissingPrompt,
        }
    }
}

/// What makes a tick fire.
#[derive(Debug)]
pub enum Trigger {
    /// Every so many seconds, counted from the end of the previous tick.
    Interval(u64),
    /// Whenever the current minute matches.
    Cron(CronExpr),
    /// At each of these moments once.
    At(Vec<Timestamp>),
    /// Continuously, pausing so many seconds after each job.
    Continuous(u64),
}

/// Which trigger the arguments select (ignoring the errors of reading it):
/// 0 continuous, 1 interval, 2 cron, 3 at, 4 none.
pub open spec fn trigger_choice(args: DaemonArgs) -> int {
    if args.task_interval is Some {
        0
    } else if args.interval is Some {
        1
    } else if args.cron is Some {
        2
    } else if args.at@.len() > 0 {
        3
    } else {
        4
    }
}

/// Reading the selected trigger text stays within the readers' domains.
pub open spec fn trigger_readable(args: DaemonArgs) -> bool {
    let k = trigger_choice(args);
    if k == 0 {
        !(duration_spec(args.task_interval->0@) is Panics)
    } else if k == 1 {
        !(duration_spec(args.interval->0@) is Panics)
    } else if k == 2 {
        !(cron_spec(args.cron->0@) is Panics)
    } else {
        true
    }
}

/// Whether reading the selected trigger would panic.
pub fn trigger_would_panic(args: &DaemonArgs) -> (r: bool)
    ensures
        r == !trigger_readable(*args),
{
    if let Some(s) = &args.task_interval {
        crate::scheduler::interval::duration_would_panic(s.as_str())
    } else if let Some(s) = &args.interval {
        crate::scheduler::interval::duration_would_panic(s.as_str())
    } else if let Some(c) = &args.cron {
        cron_would_panic(c.as_str())
    } else {
        false
    }
}

/// Reads the `--at` list in order; the first unreadable entry is the error.
fn parse_at_list(at: &Vec<String>) -> (r: Result<Vec<Timestamp>, ScheduleError>)
    ensures
        r matches Ok(v) ==> v@.len() == at@.len() && forall|i: int| 0 <= i < at@.len() ==> at_ok(at@[i]@, #[trigger] v@[i]),
        r matches Err(e) ==> exists|i: int| 0 <= i < at@.len() && at_err(#[trigger] at@[i]@, e@),
{
    let mut out: Vec<Timestamp> = Vec::new();
    let mut i: usize = 0;
    while i < at.len()
        invariant
            i <= at@.len(),
            out@.len() == i,
            forall|j: int| 0 <= j < i ==> at_ok(at@[j]@, #[trigger] out@[j]),
        decreases at@.len() - i,
    {
        match parse_at(at[i].as_str()) {
            Ok(t) => out.push(t),
            Err(e) => {
                return Err(e);
            },
        }
        i = i + 1;
    }
    Ok(out)
}

/// Builds the trigger: `--task-interval` first, then `--interval`, `--cron`,
/// `--at`; none of them is an error.
pub fn build_trigger(args: &DaemonArgs) -> (r: Result<Trigger, DaemonError>)
    requires
        trigger_readable(*args),
    ensures
        trigger_choice(*args) == 4 <==> (r matches Err(e) && e@ == DaemonErrorView::NoTrigger),
        trigger_choice(*args) == 0 ==> match duration_spec(args.task_interval->0@) {
            DurationSpec::Secs(n) => r matches Ok(Trigger::Continuous(m)) && m == n,
            DurationSpec::Error(e) => r matches Err(d) && d@ == DaemonErrorView::Schedule(e),
            DurationSpec::Panics => false,
        },
        trigger_choice(*args) == 1 ==> match duration_spec(args.interval->0@) {
            DurationSpec::Secs(n) => r matches Ok(Trigger::Interval(m)) && m == n,
            DurationSpec::Error(e) => r matches Err(d) && d@ == DaemonErrorView::Schedule(e),
            DurationSpec::Panics => false,
        },
        trigger_choice(*args) == 2 ==> match cron_spec(args.cron->0@) {
            CronSpec::Fields(sets) => r matches Ok(Trigger::Cron(c)) && expr_lists(c, sets),
            CronSpec::Error(e) => r matches Err(d) && d@ == DaemonErrorView::Schedule(e),
            CronSpec::Panics => false,
        },
        trigger_choice(*args) == 3 ==> (r matches Ok(Trigger::At(v)) && v@.len() == args.at@.len() && forall|i: int|
            0 <= i < v@.len() ==> at_ok(args.at@[i]@, #[trigger] v@[i])) || (r matches Err(DaemonError::Schedule(e))
            && exists|i: int| 0 <= i < args.at@.len() && at_err(#[trigger] args.at@[i]@, e@)),
{
    if let Some(s) = &args.task_interval {
        return match parse_duration_secs(s.as_str()) {
            Ok(n) => Ok(Trigger::Continuous(n)),
            Err(e) => Err(DaemonError::Schedule(e)),
        };
    }
    if let Some(s) = &args.interval {
        return match parse_duration_secs(s.as_str()) {
            Ok(n) => Ok(Trigger::Interval(n)),
            Err(e) => Err(DaemonError::Schedule(e)),
        };
    }
    if let Some(c) = &args.cron {
        return match parse_cron(c.as_str()) {
            Ok(e) => Ok(Trigger::Cron(e)),
            Err(e) => Err(DaemonError::Schedule(e)),
        };
    }
    if args.at.len() > 0 {
        return match parse_at_list(&args.at) {
            Ok(v) => Ok(Trigger::At(v)),
            Err(e) => Err(DaemonError::Schedule(e)),
        };
    }
    Err(DaemonError::NoTrigger)
}

/// How `Duration`'s `Debug` writes a whole number of seconds.
pub open spec fn duration_debug(secs: nat) -> Seq<char> {
    if secs == 0 {
        "0ns"@
    } else {
        decimal_spec(secs) + "s"@
    }
}

fn write_duration(out: &mut String, secs: u64)
    ensures
        final(out)@ == old(out)@ + duration_debug(secs as nat),
{
    if secs == 0 {
        push_all(out, "0ns");
    } else {
        let d = decimal_u64(secs);
        push_all(out, d.as_str());
        push_all(out, "s");
        assert(final(out)@ =~= old(out)@ + (decimal_spec(secs as nat) + "s"@));
    }
}

/// The one-line description of a trigger printed when the daemon starts.
pub fn describe_trigger(t: &Trigger) -> (r: String)
    ensures
        t matches Trigger::Interval(s) ==> r@ == "every "@ + duration_debug(s as nat),
        t matches Trigger::Continuous(s) ==> r@ == "continuous, task-interval "@ + duration_debug(
            s as nat,
        ),
        t matches Trigger::At(v) ==> r@ == "at "@ + decimal_spec(v@.len()) + " time(s)"@,
        t matches Trigger::Cron(e) ==> (exists|ps: Seq<Seq<char>>|
            ps.len() == 5 && (forall|k: int| 0 <= k < 5 ==> field_text_ok(e.fields()[k], #[trigger] ps[k])) && r@
                == "cron '"@ + join_spec(ps, seq![' ']) + "'"@),
{
    let mut out = String::new();
    match t {
        Trigger::Interval(s) => {
            push_all(&mut out, "every ");
            write_duration(&mut out, *s);
        },
        Trigger::Continuous(s) => {
            push_all(&mut out, "continuous, task-interval ");
            write_duration(&mut out, *s);
        },
        Trigger::At(v) => {
            push_all(&mut out, "at ");
            let n = decimal_u64(v.len() as u64);
            push_all(&mut out, n.as_str());
            push_all(&mut out, " time(s)");
        },
        Trigger::Cron(e) => {
            push_all(&mut out, "cron '");
            let d = e.describe();
            push_all(&mut out, d.as_str());
            push_all(&mut out, "'");
        },
    }
    out
}

/// Where the prompt of `fixed` mode comes from.
#[derive(Debug)]
pub enum PromptSource {
    /// `--prompt` text.
    Text(String),
    /// `--prompt-file` path; the file's trimmed content is the prompt.
    File(String),
    /// `auto` mode: no fixed prompt.
    NoPrompt,
}

/// The prompt source the arguments select: in `fixed` mode `--prompt`
/// before `--prompt-file`, one of them required; in `auto` mode neither
/// allowed.
pub fn prompt_source(args: &DaemonArgs) -> (r: Result<PromptSource, DaemonError>)
    ensures
        args.mode == DaemonMode::Fixed ==> match args.prompt {
            Some(p) => r matches Ok(PromptSource::Text(q)) && q@ == p@,
            None => match args.prompt_file {
                Some(f) => r matches Ok(PromptSource::File(g)) && g@ == f@,
                None => r matches Err(e) && e@ == DaemonErrorView::MissingPrompt,
            },
        },
        args.mode == DaemonMode::Auto ==> if args.prompt is Some || args.prompt_file is Some {
            r matches Err(e) && e@ == DaemonErrorView::PromptInAutoMode
        } else {
            r matches Ok(PromptSource::NoPrompt)
        },
{
    match args.mode {
        DaemonMode::Fixed => {
            if let Some(p) = &args.prompt {
                return Ok(PromptSource::Text(owned(p.as_str())));
            }
            if let Some(f) = &args.prompt_file {
                return Ok(PromptSource::File(owned(f.as_str())));
            }
            Err(DaemonError::MissingPrompt)
        },
        DaemonMode::Auto => {
            if args.prompt.is_some() || args.prompt_file.is_some() {
                Err(DaemonError::PromptInAutoMode)
            } else {
                Ok(PromptSource::NoPrompt)
            }
        },
    }
}

/// The name a mode is recorded under.
pub open spec fn mode_name_spec(m: DaemonMode) -> Seq<char> {
    match m {
        DaemonMode::Fixed => "fixed"@,
        DaemonMode::Auto => "auto"@,
    }
}

/// The name a mode is recorded under: `fixed` or `auto`.
pub fn mode_name(m: DaemonMode) -> (r: String)
    ensures
        r@ == mode_name_spec(m),
{
    match m {
        DaemonMode::Fixed => owned("fixed"),
        DaemonMode::Auto => owned("auto"),
    }
}

/// The record of job `index` of the tick `tick_id`, written when the job
/// starts: id `<tick_id>-<index>`, status running.
pub fn tick_job(
    tick_id: &str,
    index: u32,
    scheduled_at: &str,
    mode: DaemonMode,
    prompt: Option<&str>,
) -> (r: JobRecord)
    ensures
        r.id@ == tick_id@ + "-"@ + decimal_spec(index as nat),
        r.scheduled_at@ == scheduled_at@,
        r.status == JobStatus::Running,
        r.mode@ == mode_name_spec(mode),
        prompt matches Some(p) ==> (r.prompt matches Some(q) && q@ == p@),
        prompt is None ==> r.prompt is None,
        r.completed_at is None,
        r.output_path is None,
{
    let mut id = owned(tick_id);
    push_all(&mut id, "-");
    let n = decimal_u64(index as u64);
    push_all(&mut id, n.as_str());
    JobRecord {
        id,
        scheduled_at: owned(scheduled_at),
        status: JobStatus::Running,
        mode: mode_name(mode),
        prompt: match prompt {
            Some(p) => Some(owned(p)),
            None => None,
        },
        completed_at: None,
        output_path: None,
    }
}

/// Nanoseconds since the epoch.
pub open spec fn ts_nanos(t: Timestamp) -> int {
    t.secs * 1_000_000_000 + t.nanos
}

/// From `from` to `to` at least `secs` seconds passed; a negative span
/// counts as zero.
pub open spec fn elapsed_at_least(from: Timestamp, to: Timestamp, secs: nat) -> bool {
    let d = ts_nanos(to) - ts_nanos(from);
    if d < 0 {
        secs == 0
    } else {
        d >= secs * 1_000_000_000
    }
}

fn elapsed_reaches(from: &Timestamp, to: &Timestamp, secs: u64) -> (r: bool)
    ensures
        r == elapsed_at_least(*from, *to, secs as nat),
{
    let d: i128 = (to.secs as i128 - from.secs as i128) * 1_000_000_000 + (to.nanos as i128
        - from.nanos as i128);
    if d < 0 {
        secs == 0
    } else {
        d >= (secs as i128) * 1_000_000_000
    }
}

/// Moments in order, earliest first.
pub open spec fn sorted_ts(v: Seq<Timestamp>) -> bool {
    forall|i: int, j: int| 0 <= i < j < v.len() ==> ts_le(v[i], v[j])
}

/// Sorts moments, earliest first (insertion sort, stable).
pub fn sort_timestamps(v: &Vec<Timestamp>) -> (r: Vec<Timestamp>)
    ensures
        sorted_ts(r@),
        r@.to_multiset() == v@.to_multiset(),
{
    let mut out: Vec<Timestamp> = Vec::new();
    let mut i: usize = 0;
    assert(v@.subrange(0, 0) =~= Seq::<Timestamp>::empty());
    while i < v.len()
        invariant
            i <= v@.len(),
            sorted_ts(out@),
            out@.to_multiset() == v@.subrange(0, i as int).to_multiset(),
        decreases v@.len() - i,
    {
        let x = v[i];
        let mut pos: usize = 0;
        while pos < out.len() && out[pos].le(&x)
            invariant
                pos <= out@.len(),
                forall|k: int| 0 <= k < pos ==> ts_le(out@[k], x),
            decreases out@.len() - pos,
        {
            pos = pos + 1;
        }
        let ghost before = out@;
        out.insert(pos, x);
        assert(out@ == before.insert(pos as int, x));
        assert(sorted_ts(out@)) by {
            assert forall|a: int, b: int| 0 <= a < b < out@.len() implies ts_le(out@[a], out@[b]) by {
                if pos < before.len() {
                    assert(!ts_le(before[pos as int], x));
                }
                if a < pos && b > pos {
                    assert(ts_le(before[a], before[b - 1]));
                }
                if a == pos && b > pos {
                    assert(ts_le(before[pos as int], before[b - 1]));
                }
            }
        }
        assert(v@.subrange(0, i + 1) =~= v@.subrange(0, i as int).push(x));
        proof {
            vstd::seq_lib::to_multiset_insert(before, pos as int, x);
            vstd::seq_lib::to_multiset_build(v@.subrange(0, i as int), x);
        }
        i = i + 1;
    }
    assert(v@.subrange(0, v@.len() as int) =~= v@);
    out
}

/// An `at` tick fires each moment once and in order: a firing tick takes the
/// earliest moment still queued, which is due; what stays is the rest, still
/// in order, each no earlier than the fired one, with that one taken out once.
pub proof fn at_queue_law(q: Seq<Timestamp>, now: Timestamp)
    requires
        sorted_ts(q),
        q.len() > 0,
        ts_le(q[0], now),
    ensures
        sorted_ts(q.drop_first()),
        forall|j: int| 0 <= j < q.drop_first().len() ==> ts_le(q[0], #[trigger] q.drop_first()[j]),
        q.drop_first().to_multiset() == q.to_multiset().remove(q[0]),
{
    let rest = q.drop_first();
    assert forall|a: int, b: int| 0 <= a < b < rest.len() implies ts_le(rest[a], rest[b]) by {
        assert(rest[a] == q[a + 1] && rest[b] == q[b + 1]);
    }
    assert forall|j: int| 0 <= j < rest.len() implies ts_le(q[0], #[trigger] rest[j]) by {
        assert(rest[j] == q[j + 1]);
    }
    assert(q.remove(0) =~= rest);
    q.to_multiset_ensures();
}

/// The instant a job record was scheduled at, when its text is RFC 3339.
pub open spec fn record_instant(j: JobRecord) -> Option<Timestamp> {
    match rfc3339_instant(j.scheduled_at@) {
        Some((secs, nanos)) => Some(Timestamp { secs, nanos }),
        None => None,
    }
}

/// A moment already served: some recorded job was scheduled at that very
/// instant (an `at` tick records the moment it fires for).
pub open spec fn moment_served(jobs: Seq<JobRecord>, t: Timestamp) -> bool {
    exists|i: int| 0 <= i < jobs.len() && #[trigger] record_instant(jobs[i]) == Some(t)
}

/// The moments that no recorded job has served, in their order.
pub open spec fn pending_moments(v: Seq<Timestamp>, jobs: Seq<JobRecord>) -> Seq<Timestamp> {
    v.filter(|t: Timestamp| !moment_served(jobs, t))
}

fn served(records: &Vec<JobRecord>, t: &Timestamp) -> (r: bool)
    ensures
        r == moment_served(records@, *t),
{
    let mut i: usize = 0;
    while i < records.len()
        invariant
            i <= records@.len(),
            forall|k: int| 0 <= k < i ==> #[trigger] record_instant(records@[k]) != Some(*t),
        decreases records@.len() - i,
    {
        if let Some(x) = parse_rfc3339(records[i].scheduled_at.as_str()) {
            if x.secs == t.secs && x.nanos == t.nanos {
                assert(record_instant(records@[i as int]) == Some(x));
                return true;
            }
        }
        i = i + 1;
    }
    false
}

fn unserved_moments(v: &Vec<Timestamp>, records: &Vec<JobRecord>) -> (r: Vec<Timestamp>)
    ensures
        r@ == pending_moments(v@, records@),
{
    let mut out: Vec<Timestamp> = Vec::new();
    let mut i: usize = 0;
    proof {
        reveal(Seq::filter);
        assert(v@.subrange(0, 0) =~= Seq::<Timestamp>::empty());
    }
    while i < v.len()
        invariant
            i <= v@.len(),
            out@ == pending_moments(v@.subrange(0, i as int), records@),
        decreases v@.len() - i,
    {
        let x = v[i];
        let done = served(records, &x);
        proof {
            reveal(Seq::filter);
            assert(v@.subrange(0, i + 1).drop_last() =~= v@.subrange(0, i as int));
            assert(v@.subrange(0, i + 1).last() == x);
        }
        if !done {
            out.push(x);
        }
        i = i + 1;
    }
    assert(v@.subrange(0, v@.len() as int) =~= v@);
    out
}

/// The daemon's scheduling state between ticks.
#[derive(Debug)]
pub struct DaemonState {
    pub trigger: Trigger,
    /// `at` mode: the moments still to come, earliest first.
    pub at_queue: Vec<Timestamp>,
    /// `interval` mode: when the last fired tick finished.
    pub last_fired: Option<Timestamp>,
}

/// The moments of an `at` trigger; none for the other triggers.
pub open spec fn trigger_moments(t: Trigger) -> Seq<Timestamp> {
    match t {
        Trigger::At(v) => v@,
        _ => seq![],
    }
}

impl DaemonState {
    /// The state before the first tick, given the job records kept by
    /// earlier runs: the `at` moments that no recorded job has served,
    /// sorted; nothing fired yet.
    pub fn new(trigger: Trigger, records: &Vec<JobRecord>) -> (r: DaemonState)
        ensures
            r.trigger == trigger,
            sorted_ts(r.at_queue@),
            r.at_queue@.to_multiset() == pending_moments(trigger_moments(trigger), records@).to_multiset(),
            forall|k: int| 0 <= k < r.at_queue@.len() ==> !moment_served(records@, #[trigger] r.at_queue@[k]),
            r.last_fired is None,
    {
        let queue = match &trigger {
            Trigger::At(v) => {
                let pending = unserved_moments(v, records);
                sort_timestamps(&pending)
            },
            _ => {
                proof {
                    reveal(Seq::filter);
                }
                Vec::new()
            },
        };
        proof {
            let p = pending_moments(trigger_moments(trigger), records@);
            p.filter_lemma(|t: Timestamp| !moment_served(records@, t));
            queue@.to_multiset_ensures();
            p.to_multiset_ensures();
            assert(queue@.to_multiset() == p.to_multiset());
            assert forall|k: int| 0 <= k < queue@.len() implies !moment_served(records@, #[trigger] queue@[k]) by {
                let x = queue@[k];
                assert(queue@.contains(x));
                assert(queue@.to_multiset().count(x) > 0);
                assert(p.to_multiset().count(x) > 0);
                assert(p.contains(x));
                let j = choose|j: int| 0 <= j < p.len() && p[j] == x;
                assert(p[j] == x);
            }
        }
        DaemonState { trigger, at_queue: queue, last_fired: None }
    }

    /// Whether the tick at `now` (with calendar fields `fields`) fires:
    /// an interval once enough time passed since the last fired tick ended
    /// (always the first time), a cron expression when it matches, an `at`
    /// queue when its earliest moment is due, continuous mode always.
    pub open spec fn fires(&self, now: Timestamp, fields: CronTime) -> bool {
        match self.trigger {
            Trigger::Interval(d) => match self.last_fired {
                None => true,
                Some(t) => elapsed_at_least(t, now, d as nat),
            },
            Trigger::Cron(e) => e.fields()[0].contains(fields.minute) && e.fields()[1].contains(
                fields.hour,
            ) && e.fields()[2].contains(fields.day) && e.fields()[3].contains(fields.month)
                && e.fields()[4].contains(fields.weekday),
            Trigger::At(_) => self.at_queue@.len() > 0 && ts_le(self.at_queue@[0], now),
            Trigger::Continuous(_) => true,
        }
    }

    /// Decides the tick at `now`.  When it fires in `at` mode, the earliest
    /// moment (the one it fires for) leaves the queue; nothing else changes.
    #[verifier::spinoff_prover]
    pub fn tick(&mut self, now: Timestamp, fields: &CronTime) -> (fire: bool)
        requires
            sorted_ts(old(self).at_queue@),
        ensures
            fire == old(self).fires(now, *fields),
            final(self).trigger == old(self).trigger,
            final(self).last_fired == old(self).last_fired,
            sorted_ts(final(self).at_queue@),
            !(fire && old(self).trigger is At) ==> final(self).at_queue@ == old(self).at_queue@,
            fire && old(self).trigger is At ==> final(self).at_queue@ == old(self).at_queue@.drop_first(),
    {
        let fire = match &self.trigger {
            Trigger::Interval(d) => match &self.last_fired {
                None => true,
                Some(t) => elapsed_reaches(t, &now, *d),
            },
            Trigger::Cron(e) => e.matches(fields),
            Trigger::At(_) => self.at_queue.len() > 0 && self.at_queue[0].le(&now),
            Trigger::Continuous(_) => true,
        };
        let is_at = match &self.trigger {
            Trigger::At(_) => true,
            _ => false,
        };
        if fire && is_at {
            let ghost q = self.at_queue@;
            self.at_queue.remove(0);
            assert(self.at_queue@ =~= q.drop_first());
            assert forall|a: int, b: int| 0 <= a < b < self.at_queue@.len() implies ts_le(
                self.at_queue@[a],
                self.at_queue@[b],
            ) by {
                assert(self.at_queue@[a] == q[a + 1] && self.at_queue@[b] == q[b + 1]);
            }
        }
        fire
    }

    /// The moment the next `at` tick would fire for: the earliest one queued.
    pub fn next_moment(&self) -> (r: Option<Timestamp>)
        ensures
            self.at_queue@.len() > 0 ==> r == Some(self.at_queue@[0]),
            self.at_queue@.len() == 0 ==> r is None,
    {
        if self.at_queue.len() > 0 {
            Some(self.at_queue[0])
        } else {
            None
        }
    }

    /// Whether there is nothing left to do: an `at` trigger whose queue is
    /// empty (at start, when every moment was already served).
    pub fn finished(&self) -> (r: bool)
        ensures
            r == (self.trigger is At && self.at_queue@.len() == 0),
    {
        match &self.trigger {
            Trigger::At(_) => self.at_queue.len() == 0,
            _ => false,
        }
    }

    /// After a fired tick that ended at `done`: an interval counts from
    /// `done`; returns whether the daemon stops because an `at` queue ran out.
    pub fn finish_tick(&mut self, done: Timestamp) -> (stop: bool)
        ensures
            final(self).trigger == old(self).trigger,
            final(self).at_queue@ == old(self).at_queue@,
            old(self).trigger is Interval ==> final(self).last_fired == Some(done),
            !(old(self).trigger is Interval) ==> final(self).last_fired == old(self).last_fired,
            stop == (old(self).trigger is At && old(self).at_queue@.len() == 0),
    {
        let (is_interval, is_at) = match &self.trigger {
            Trigger::Interval(_) => (true, false),
            Trigger::At(_) => (false, true),
            _ => (false, false),
        };
        if is_interval {
            self.last_fired = Some(done);
        }
        is_at && self.at_queue.len() == 0
    }

    /// The pause after each job of continuous mode, in seconds.
    pub fn pause_secs(&self) -> (r: Option<u64>)
        ensures
            self.trigger matches Trigger::Continuous(d) ==> r == Some(d),
            !(self.trigger is Continuous) ==> r is None,
    {
        match &self.trigger {
            Trigger::Continuous(d) => Some(*d),
            _ => None,
        }
    }
}

} // verus!
