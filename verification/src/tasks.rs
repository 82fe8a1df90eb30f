//! Supervision policy for a single runtime operation: how many attempts a
//! restart policy allows, and what the supervisor does after each attempt.
//! The asynchronous plumbing around these decisions lives with the caller.

use vstd::prelude::*;

verus! {

/// Interval between retries of a failed runtime operation.
pub const CRI_RETRY_INTERVAL_MS: u64 = 200;

/// How often a task's operation is restarted after a failure.
#[derive(PartialEq, Eq, Hash, Clone, Copy, Structural, Debug)]
pub enum RestartPolicy {
    Always,
    MaxAttempts(u64),
    Never,
}

pub open spec fn spec_attempt_max(p: RestartPolicy) -> u64 {
    match p {
        RestartPolicy::Always => u64::MAX,
        RestartPolicy::MaxAttempts(n) => n,
        RestartPolicy::Never => 1,
    }
}

/// The attempt budget a policy grants; retrying forever is represented by
/// the largest budget.
pub fn attempt_max(p: RestartPolicy) -> (r: u64)
    ensures
        r == spec_attempt_max(p),
{
    match p {
        RestartPolicy::Always => u64::MAX,
        RestartPolicy::MaxAttempts(n) => n,
        RestartPolicy::Never => 1,
    }
}

/// How one attempt of the supervised operation ended. An operation that
/// panicked counts as a failure, exactly like one that returned an error.
#[derive(PartialEq, Eq, Clone, Copy, Structural, Debug)]
pub enum AttemptOutcome {
    Success,
    Failure,
}

/// The supervisor's next move.
#[derive(PartialEq, Eq, Clone, Copy, Structural, Debug)]
pub enum SupervisorStep {
    Stop,
    Retry,
}

/// Decides the supervisor's next move after one attempt, and counts the
/// attempt: success stops the supervisor; a failure is retried until the
/// attempt budget is spent.
pub fn supervise_decide(outcome: AttemptOutcome, attempts: u64, attempt_max: u64) -> (r: (
    SupervisorStep,
    u64,
))
    requires
        attempts < attempt_max,
    ensures
        outcome is Success ==> r.0 is Stop && r.1 == attempts,
        outcome is Failure ==> r.1 == attempts + 1 && (r.0 is Stop <==> attempts + 1
            >= attempt_max),
{
    match outcome {
        AttemptOutcome::Success => (SupervisorStep::Stop, attempts),
        AttemptOutcome::Failure => {
            let counted = attempts + 1;
            if counted >= attempt_max {
                (SupervisorStep::Stop, counted)
            } else {
                (SupervisorStep::Retry, counted)
            }
        },
    }
}

} // verus!
