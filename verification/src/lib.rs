//! Core of a parser-driving command-line tool: resolving user-supplied path
//! specifiers into a concrete file list, parsing textual edit directives,
//! choosing a language for each file, bounding each per-file engine run, and
//! accumulating run statistics.
//!
//! The filesystem walks and the parsing engines themselves are external
//! collaborators; everything that decides, orders, filters and accumulates is
//! verified here.

pub mod binding;
pub mod edits;
pub mod paths;
pub mod run;
pub mod stats;

use vstd::prelude::*;

verus! {

/// Statuses that end a per-file run. A file that fails is recorded and the
/// run moves on to the next file; only the aggregate verdict turns hard.
#[derive(Clone, Copy, PartialEq, Eq, Structural, Debug)]
pub enum RunStatus {
    Succeeded,
    Failed,
    TimedOut,
    Cancelled,
}

/// A per-file fault is soft; anything but success escalates the aggregate
/// verdict of the whole invocation.
pub open spec fn is_fault(status: RunStatus) -> bool {
    status != RunStatus::Succeeded
}

/// Fold one per-file status into the running "any failure occurred" flag.
pub fn fold_verdict(any_failure: bool, status: RunStatus) -> (r: bool)
    ensures
        r == (any_failure || is_fault(status)),
{
    any_failure || !matches!(status, RunStatus::Succeeded)
}

} // verus!
