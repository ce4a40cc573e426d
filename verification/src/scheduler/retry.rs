//! What a failed job does next: retry at once, after 30 seconds, after two
//! minutes, then give up and stay failed.

use vstd::prelude::*;

verus! {

/// The step after a failed attempt.
#[derive(Debug, Clone, Copy, PartialEq, Eq, Structural)]
pub enum RetryDecision {
    /// Try again after this many seconds.
    RetryAfter(u64),
    /// Stop; the job is recorded as failed.
    GiveUp,
}

/// The retry policy: after the first failure retry at once, after the
/// second wait 30 seconds, after the third two minutes, after the fourth
/// give up.  A count of 0 (nothing failed yet) is read as the first failure.
pub open spec fn retry_spec(failures: nat) -> RetryDecision {
    if failures <= 1 {
        RetryDecision::RetryAfter(0)
    } else if failures == 2 {
        RetryDecision::RetryAfter(30)
    } else if failures == 3 {
        RetryDecision::RetryAfter(120)
    } else {
        RetryDecision::GiveUp
    }
}

/// What to do after `failures` failed attempts of one job (see
/// `retry_spec`).
pub fn retry_decision(failures: u32) -> (r: RetryDecision)
    ensures
        r == retry_spec(failures as nat),
{
    if failures <= 1 {
        RetryDecision::RetryAfter(0)
    } else if failures == 2 {
        RetryDecision::RetryAfter(30)
    } else if failures == 3 {
        RetryDecision::RetryAfter(120)
    } else {
        RetryDecision::GiveUp
    }
}

/// A job is tried at most four times: every count of failures from the
/// fourth on gives up, and every earlier one retries with a wait that never
/// shrinks.
pub proof fn retry_bounded_law(a: nat, b: nat)
    ensures
        a >= 4 ==> retry_spec(a) == RetryDecision::GiveUp,
        a < 4 ==> retry_spec(a) is RetryAfter,
        a <= b < 4 ==> retry_spec(a)->0 <= retry_spec(b)->0,
{
}

} // verus!
