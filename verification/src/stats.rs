//! Streaming accumulation of per-file run outcomes into one summary record.

use vstd::prelude::*;
use crate::RunStatus;

verus! {

/// What one bounded engine run over one file came to.
#[derive(Debug)]
pub struct RunOutcome {
    /// The file the run was over.
    pub path: String,
    /// How the run ended.
    pub status: RunStatus,
    /// Bytes the engine reports having processed.
    pub bytes_processed: u64,
    /// The measured duration in microseconds, when timing was requested and
    /// the engine reported one.
    pub duration_micros: Option<u64>,
}

/// The single summary record of one invocation, folded up one outcome at a
/// time and rendered only at the end.
#[derive(Debug)]
pub struct RunSummary {
    pub total_runs: u64,
    pub successful_runs: u64,
    pub total_bytes: u64,
    pub total_duration_micros: u64,
}

impl RunSummary {
    pub fn new() -> (s: RunSummary)
        ensures
            s.total_runs == 0,
            s.successful_runs == 0,
            s.total_bytes == 0,
            s.total_duration_micros == 0,
    {
        RunSummary { total_runs: 0, successful_runs: 0, total_bytes: 0, total_duration_micros: 0 }
    }

    /// Fold one outcome in: the run count grows unconditionally, the success
    /// count only on success, and bytes and duration only when the run
    /// carries a measured duration.
    pub fn record(&mut self, outcome: &RunOutcome)
        requires
            old(self).total_runs < u64::MAX,
            old(self).successful_runs < u64::MAX,
            outcome.duration_micros is Some ==> {
                &&& old(self).total_bytes + outcome.bytes_processed <= u64::MAX
                &&& old(self).total_duration_micros + outcome.duration_micros->0 <= u64::MAX
            },
        ensures
            final(self).total_runs == old(self).total_runs + 1,
            final(self).successful_runs == old(self).successful_runs + (
                if outcome.status == RunStatus::Succeeded {
                    1int
                } else {
                    0int
                }
            ),
            match outcome.duration_micros {
                Some(d) => {
                    &&& final(self).total_bytes == old(self).total_bytes
                        + outcome.bytes_processed
                    &&& final(self).total_duration_micros == old(self).total_duration_micros + d
                },
                None => {
                    &&& final(self).total_bytes == old(self).total_bytes
                    &&& final(self).total_duration_micros == old(self).total_duration_micros
                },
            },
    {
        self.total_runs = self.total_runs + 1;
        if matches!(outcome.status, RunStatus::Succeeded) {
            self.successful_runs = self.successful_runs + 1;
        }
        if let Some(d) = outcome.duration_micros {
            self.total_bytes = self.total_bytes + outcome.bytes_processed;
            self.total_duration_micros = self.total_duration_micros + d;
        }
    }
}

} // verus!
