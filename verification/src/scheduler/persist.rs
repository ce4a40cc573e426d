//! Records of the jobs the daemon ran, kept so that a restart knows what has
//! already happened.

use vstd::prelude::*;

use crate::text::str_eq;

verus! {

/// Lifecycle of a scheduled job.
#[derive(Debug, Clone, Copy, PartialEq, Eq, Structural)]
pub enum JobStatus {
    Pending,
    Running,
    Completed,
    Failed,
}

/// One scheduled job.
#[derive(Debug, Clone)]
pub struct JobRecord {
    pub id: String,
    pub scheduled_at: String,
    pub status: JobStatus,
    /// `fixed` or `auto`.
    pub mode: String,
    /// The prompt of a `fixed` job.
    pub prompt: Option<String>,
    /// When the job finished (RFC 3339, local time).
    pub completed_at: Option<String>,
    /// Where the image of a completed job was written.
    pub output_path: Option<String>,
}

/// The whole schedule file.
#[derive(Debug, Clone)]
pub struct JobFile {
    pub jobs: Vec<JobRecord>,
}

impl JobFile {
    /// An empty schedule.
    pub fn new() -> (r: JobFile)
        ensures
            r.jobs@.len() == 0,
    {
        JobFile { jobs: Vec::new() }
    }
}

/// The current local time in RFC 3339 (`Local::now().to_rfc3339()`); it
/// depends on the clock, so nothing is stated of it.  chrono's Unix lookup of
/// the local time zone calls `expect` on its cache; whether that can fail
/// depends on the machine's time-zone data, which nothing here states.
#[verifier::external_body]
fn now_rfc3339() -> (r: String) {
    chrono::Local::now().to_rfc3339()
}

/// Index of the first job whose id is `id`.
pub open spec fn first_job_index(jobs: Seq<JobRecord>, id: Seq<char>) -> Option<int>
    decreases jobs.len(),
{
    if jobs.len() == 0 {
        None
    } else {
        match first_job_index(jobs.drop_last(), id) {
            Some(i) => Some(i),
            None => if jobs.last().id@ == id {
                Some(jobs.len() - 1)
            } else {
                None
            },
        }
    }
}

proof fn lemma_first_job_prefix(jobs: Seq<JobRecord>, id: Seq<char>, k: int)
    requires
        0 <= k <= jobs.len(),
        first_job_index(jobs.subrange(0, k), id) is Some,
    ensures
        first_job_index(jobs, id) == first_job_index(jobs.subrange(0, k), id),
    decreases jobs.len() - k,
{
    if k < jobs.len() {
        assert(jobs.subrange(0, k + 1).drop_last() =~= jobs.subrange(0, k));
        lemma_first_job_prefix(jobs, id, k + 1);
    } else {
        assert(jobs.subrange(0, k) =~= jobs);
    }
}

proof fn lemma_first_job_bounds(jobs: Seq<JobRecord>, id: Seq<char>)
    ensures
        first_job_index(jobs, id) matches Some(i) ==> 0 <= i < jobs.len() && jobs[i].id@ == id,
        first_job_index(jobs, id) is None ==> forall|j: int| 0 <= j < jobs.len() ==> jobs[j].id@ != id,
    decreases jobs.len(),
{
    if jobs.len() > 0 {
        lemma_first_job_bounds(jobs.drop_last(), id);
        assert forall|j: int| 0 <= j < jobs.len() - 1 implies jobs.drop_last()[j] == jobs[j] by {}
    }
}

/// Index of the first job with id `id`.
fn find_job(file: &JobFile, id: &str) -> (r: Option<usize>)
    ensures
        r matches Some(k) ==> first_job_index(file.jobs@, id@) == Some(k as int),
        r is None ==> first_job_index(file.jobs@, id@) is None,
{
    let mut i: usize = 0;
    while i < file.jobs.len()
        invariant
            i <= file.jobs@.len(),
            first_job_index(file.jobs@.subrange(0, i as int), id@) is None,
        decreases file.jobs@.len() - i,
    {
        assert(file.jobs@.subrange(0, i + 1).drop_last() =~= file.jobs@.subrange(0, i as int));
        if str_eq(file.jobs[i].id.as_str(), id) {
            proof {
                lemma_first_job_prefix(file.jobs@, id@, i + 1);
            }
            return Some(i);
        }
        i = i + 1;
    }
    assert(file.jobs@.subrange(0, file.jobs@.len() as int) =~= file.jobs@);
    None
}

/// `after` is `before` with status, completion time and output replaced.
pub open spec fn job_finished(
    before: JobRecord,
    after: JobRecord,
    status: JobStatus,
    output: Option<Option<String>>,
) -> bool {
    &&& after.id == before.id
    &&& after.scheduled_at == before.scheduled_at
    &&& after.mode == before.mode
    &&& after.prompt == before.prompt
    &&& after.status == status
    &&& after.completed_at is Some
    &&& match output {
        Some(o) => after.output_path == o,
        None => after.output_path == before.output_path,
    }
}

/// The effect of finishing job `id`: if some job has that id, the first such
/// job is finished as `job_finished` says and every other job is kept; if
/// none has it, nothing changes.
pub open spec fn finish_effect(
    before: Seq<JobRecord>,
    after: Seq<JobRecord>,
    id: Seq<char>,
    status: JobStatus,
    output: Option<Option<String>>,
    found: bool,
) -> bool {
    &&& found == (first_job_index(before, id) is Some)
    &&& after.len() == before.len()
    &&& match first_job_index(before, id) {
        Some(k) => job_finished(before[k], after[k], status, output) && forall|j: int|
            0 <= j < before.len() && j != k ==> after[j] == before[j],
        None => after == before,
    }
}

fn finish_job(file: &mut JobFile, id: &str, status: JobStatus, output: Option<Option<String>>) -> (r: bool)
    ensures
        finish_effect(old(file).jobs@, final(file).jobs@, id@, status, output, r),
{
    match find_job(file, id) {
        None => false,
        Some(k) => {
            proof {
                lemma_first_job_bounds(file.jobs@, id@);
            }
            let ghost before = file.jobs@;
            let job = file.jobs.remove(k);
            let completed_at = Some(now_rfc3339());
            let output_path = match output {
                Some(o) => o,
                None => job.output_path,
            };
            let updated = JobRecord {
                id: job.id,
                scheduled_at: job.scheduled_at,
                status,
                mode: job.mode,
                prompt: job.prompt,
                completed_at,
                output_path,
            };
            file.jobs.insert(k, updated);
            assert forall|j: int| 0 <= j < before.len() && j != k implies file.jobs@[j] == before[j] by {
                if j < k {
                } else {
                }
            }
            true
        },
    }
}

/// Marks the first job with id `id` completed, stamping the current time and
/// recording `output` as its image path.  Returns whether such a job exists.
pub fn mark_completed(file: &mut JobFile, id: &str, output: Option<String>) -> (r: bool)
    ensures
        finish_effect(old(file).jobs@, final(file).jobs@, id@, JobStatus::Completed, Some(output), r),
{
    finish_job(file, id, JobStatus::Completed, Some(output))
}

/// Marks the first job with id `id` failed, stamping the current time; its
/// image path is kept.  Returns whether such a job exists.
pub fn mark_failed(file: &mut JobFile, id: &str) -> (r: bool)
    ensures
        finish_effect(old(file).jobs@, final(file).jobs@, id@, JobStatus::Failed, None, r),
{
    finish_job(file, id, JobStatus::Failed, None)
}

} // verus!
