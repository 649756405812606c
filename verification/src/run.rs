//! The bounded per-file run and the hard verdict over a whole invocation.
//!
//! Each resolved file gets one bounded engine call: the caller's deadline
//! (microseconds, zero meaning unbounded) and the shared cancellation flag
//! travel to the engine with the call, and the engine checks both
//! cooperatively. What comes back is classified here: a completed result
//! with error nodes is a soft, syntax-level failure; a halted call is a
//! timeout, or a cancellation when the shared flag was raised. Soft faults
//! never stop the loop over the remaining files; they only harden the
//! aggregate verdict of the invocation.

use vstd::prelude::*;
use crate::RunStatus;
use crate::is_fault;
use crate::stats::RunOutcome;
use crate::stats::RunSummary;

verus! {

/// What the external engine reports for one bounded call over one file.
#[derive(Clone, Copy, Debug)]
pub enum EngineResponse {
    /// The engine returned a structured result before its deadline;
    /// `has_errors` says whether the result holds error nodes.
    Completed { has_errors: bool, bytes: u64, duration_micros: Option<u64> },
    /// The engine stopped early: its deadline elapsed, or it saw the shared
    /// cancellation flag raised.
    Halted,
}

/// One per-file event as the driving loop sees it: the engine's report, and
/// the shared cancellation flag as it stood after the call.
#[derive(Clone, Copy, Debug)]
pub struct EngineEvent {
    pub response: EngineResponse,
    pub cancelled: bool,
}

/// The status one engine report comes to under the flag's state.
pub open spec fn status_of(response: EngineResponse, cancelled: bool) -> RunStatus {
    match response {
        EngineResponse::Completed { has_errors, .. } => if has_errors {
            RunStatus::Failed
        } else {
            RunStatus::Succeeded
        },
        EngineResponse::Halted => if cancelled {
            RunStatus::Cancelled
        } else {
            RunStatus::TimedOut
        },
    }
}

/// The bytes an engine report accounts for: a halted call processed none.
pub open spec fn bytes_of(response: EngineResponse) -> u64 {
    match response {
        EngineResponse::Completed { bytes, .. } => bytes,
        EngineResponse::Halted => 0,
    }
}

/// The measured duration of an engine report, when the engine gave one.
pub open spec fn duration_of(response: EngineResponse) -> Option<u64> {
    match response {
        EngineResponse::Completed { duration_micros, .. } => duration_micros,
        EngineResponse::Halted => None,
    }
}

/// Conclude one bounded run: classify the engine's report into the per-file
/// outcome recorded for this path.
pub fn conclude_run(path: String, response: EngineResponse, cancelled: bool) -> (outcome:
    RunOutcome)
    ensures
        outcome.path@ == path@,
        outcome.status == status_of(response, cancelled),
        outcome.bytes_processed == bytes_of(response),
        outcome.duration_micros == duration_of(response),
{
    match response {
        EngineResponse::Completed { has_errors, bytes, duration_micros } => RunOutcome {
            path,
            status: if has_errors {
                RunStatus::Failed
            } else {
                RunStatus::Succeeded
            },
            bytes_processed: bytes,
            duration_micros,
        },
        EngineResponse::Halted => RunOutcome {
            path,
            status: if cancelled {
                RunStatus::Cancelled
            } else {
                RunStatus::TimedOut
            },
            bytes_processed: 0,
            duration_micros: None,
        },
    }
}

/// Conclude a whole run, file by file in resolved order. No outcome, however
/// faulty, keeps a later file from its own run: every path gets exactly one
/// outcome.
pub fn run_outcomes(paths: &Vec<String>, events: &Vec<EngineEvent>) -> (outcomes: Vec<RunOutcome>)
    requires
        paths@.len() == events@.len(),
    ensures
        outcomes@.len() == paths@.len(),
        forall|i: int|
            0 <= i < outcomes@.len() ==> {
                &&& (#[trigger] outcomes@[i]).path@ == paths@[i]@
                &&& outcomes@[i].status == status_of(events@[i].response, events@[i].cancelled)
                &&& outcomes@[i].bytes_processed == bytes_of(events@[i].response)
                &&& outcomes@[i].duration_micros == duration_of(events@[i].response)
            },
{
    let n = paths.len();
    let mut outcomes: Vec<RunOutcome> = Vec::new();
    let mut k: usize = 0;
    while k < n
        invariant
            k <= n,
            n == paths@.len() == events@.len(),
            outcomes@.len() == k,
            forall|i: int|
                0 <= i < k ==> {
                    &&& (#[trigger] outcomes@[i]).path@ == paths@[i]@
                    &&& outcomes@[i].status == status_of(events@[i].response, events@[i].cancelled)
                    &&& outcomes@[i].bytes_processed == bytes_of(events@[i].response)
                    &&& outcomes@[i].duration_micros == duration_of(events@[i].response)
                },
        decreases n - k,
    {
        let event = events[k];
        let outcome = conclude_run(paths[k].clone(), event.response, event.cancelled);
        outcomes.push(outcome);
        k = k + 1;
    }
    outcomes
}

/// How many of the outcomes succeeded.
pub open spec fn count_successful(outcomes: Seq<RunOutcome>) -> nat
    decreases outcomes.len(),
{
    if outcomes.len() == 0 {
        0
    } else {
        count_successful(outcomes.drop_last()) + (
        if outcomes.last().status == RunStatus::Succeeded {
            1nat
        } else {
            0nat
        })
    }
}

/// The bytes of all outcomes that carry a measured duration.
pub open spec fn sum_bytes(outcomes: Seq<RunOutcome>) -> nat
    decreases outcomes.len(),
{
    if outcomes.len() == 0 {
        0
    } else {
        sum_bytes(outcomes.drop_last()) + (
        if outcomes.last().duration_micros is Some {
            outcomes.last().bytes_processed as nat
        } else {
            0nat
        })
    }
}

/// The measured durations of all outcomes that carry one, summed.
pub open spec fn sum_duration(outcomes: Seq<RunOutcome>) -> nat
    decreases outcomes.len(),
{
    if outcomes.len() == 0 {
        0
    } else {
        sum_duration(outcomes.drop_last()) + (match outcomes.last().duration_micros {
            Some(d) => d as nat,
            None => 0nat,
        })
    }
}

/// Whether any outcome ended in a fault.
pub open spec fn any_fault(outcomes: Seq<RunOutcome>) -> bool {
    exists|i: int| 0 <= i < outcomes.len() && is_fault((#[trigger] outcomes[i]).status)
}

proof fn lemma_count_le_len(outcomes: Seq<RunOutcome>)
    ensures
        count_successful(outcomes) <= outcomes.len(),
    decreases outcomes.len(),
{
    if outcomes.len() > 0 {
        lemma_count_le_len(outcomes.drop_last());
    }
}

proof fn lemma_prefix_sums_le(outcomes: Seq<RunOutcome>, k: int)
    requires
        0 <= k <= outcomes.len(),
    ensures
        count_successful(outcomes.take(k)) <= count_successful(outcomes),
        sum_bytes(outcomes.take(k)) <= sum_bytes(outcomes),
        sum_duration(outcomes.take(k)) <= sum_duration(outcomes),
    decreases outcomes.len() - k,
{
    if k == outcomes.len() {
        assert(outcomes.take(k) =~= outcomes);
    } else {
        assert(outcomes.take(k + 1).drop_last() =~= outcomes.take(k));
        assert(outcomes.take(k + 1).last() == outcomes[k]);
        lemma_prefix_sums_le(outcomes, k + 1);
    }
}

/// Fold a whole run's outcomes into one summary record and the hard
/// verdict. The invocation fails exactly when some outcome is a fault,
/// even though each fault was soft when it was recorded.
pub fn summarize(outcomes: &Vec<RunOutcome>) -> (r: (RunSummary, bool))
    requires
        outcomes@.len() <= u64::MAX,
        sum_bytes(outcomes@) <= u64::MAX,
        sum_duration(outcomes@) <= u64::MAX,
    ensures
        r.0.total_runs == outcomes@.len(),
        r.0.successful_runs == count_successful(outcomes@),
        r.0.total_bytes == sum_bytes(outcomes@),
        r.0.total_duration_micros == sum_duration(outcomes@),
        r.1 == any_fault(outcomes@),
{
    let n = outcomes.len();
    let mut summary = RunSummary::new();
    let mut failure = false;
    let mut k: usize = 0;
    proof {
        assert(outcomes@.take(0) =~= Seq::<RunOutcome>::empty());
        assert(!any_fault(outcomes@.take(0)));
    }
    while k < n
        invariant
            k <= n,
            n == outcomes@.len() <= u64::MAX,
            sum_bytes(outcomes@) <= u64::MAX,
            sum_duration(outcomes@) <= u64::MAX,
            summary.total_runs == k,
            summary.successful_runs == count_successful(outcomes@.take(k as int)),
            summary.total_bytes == sum_bytes(outcomes@.take(k as int)),
            summary.total_duration_micros == sum_duration(outcomes@.take(k as int)),
            failure == any_fault(outcomes@.take(k as int)),
        decreases n - k,
    {
        let ghost t0 = outcomes@.take(k as int);
        let ghost t1 = outcomes@.take(k + 1);
        proof {
            assert(t1.drop_last() =~= t0);
            assert(t1.last() == outcomes@[k as int]);
            lemma_prefix_sums_le(outcomes@, k + 1);
            assert(count_successful(t0) <= count_successful(t1));
            lemma_count_le_len(t0);
        }
        let outcome = &outcomes[k];
        summary.record(outcome);
        failure = crate::fold_verdict(failure, outcome.status);
        proof {
            if is_fault(outcomes@[k as int].status) {
                assert(t1[k as int] == outcomes@[k as int]);
                assert(any_fault(t1));
            }
            if any_fault(t0) {
                let i = choose|i: int| 0 <= i < t0.len() && is_fault((#[trigger] t0[i]).status);
                assert(t1[i] == t0[i]);
                assert(any_fault(t1));
            }
            if any_fault(t1) && !is_fault(outcomes@[k as int].status) {
                let i = choose|i: int| 0 <= i < t1.len() && is_fault((#[trigger] t1[i]).status);
                if i < k {
                    assert(t0[i] == t1[i]);
                    assert(any_fault(t0));
                }
            }
        }
        k = k + 1;
    }
    assert(outcomes@.take(n as int) =~= outcomes@);
    (summary, failure)
}

} // verus!
