//! Choice of a grammar for one file.
//!
//! The external grammar registry answers three kinds of question: resolve a
//! scope name, match a filename against registered patterns, sniff file
//! contents against content-detection rules. The binder decides which
//! question to ask and what each answer means: an explicit scope override
//! binds by scope alone, otherwise filename matching comes first and content
//! sniffing is the fallback. A file no grammar matches is fatal for a
//! command bound to one grammar for the whole run, and a skip-with-warning
//! for a batch command where other files may still succeed. Binding holds
//! for one file only; every file of a run is bound afresh.

use vstd::prelude::*;

verus! {

/// The question the binder asks the external grammar registry next.
#[derive(Debug)]
pub enum BindQuery {
    /// Resolve this scope name, and nothing else.
    ByScope(String),
    /// Match the file's name against registered filename patterns.
    ByFilename,
    /// Sniff the file's contents against content-detection rules.
    ByContent,
}

/// Through which kind of registry answer a binding came.
#[derive(Clone, Copy, PartialEq, Eq, Structural, Debug)]
pub enum BoundVia {
    ScopeOverride,
    FilenamePattern,
    ContentSniff,
}

/// A grammar bound to one file: the registry's handle for the language, and
/// how the association was made.
#[derive(Debug)]
pub struct LanguageBinding {
    pub language: u64,
    pub via: BoundVia,
}

/// Why binding failed.
#[derive(Debug)]
pub enum BindError {
    /// The explicit scope override names no registered grammar.
    UnknownScope(String),
    /// No registered grammar matches the file at all.
    NoLanguageFound,
}

/// What the binder does with one registry answer.
#[derive(Debug)]
pub enum BindStep {
    /// Ask the registry the given question next.
    Ask(BindQuery),
    /// The file is bound.
    Bound(LanguageBinding),
    /// Fatal: the invocation stops here.
    Fail(BindError),
    /// Skip this file with a warning and go on to the next.
    Skip,
}

/// The first question to ask for a file: the scope override when one was
/// supplied, else a filename match.
pub fn start_binding(scope_override: Option<String>) -> (q: BindQuery)
    ensures
        match scope_override {
            Some(scope) => q matches BindQuery::ByScope(s) && s@ == scope@,
            None => q == BindQuery::ByFilename,
        },
{
    match scope_override {
        Some(scope) => BindQuery::ByScope(scope),
        None => BindQuery::ByFilename,
    }
}

/// Fold one registry answer into the next step. `batch` says whether the
/// command tolerates files that no grammar matches.
pub fn binding_step(query: BindQuery, answer: Option<u64>, batch: bool) -> (step: BindStep)
    ensures
        match query {
            BindQuery::ByScope(scope) => match answer {
                Some(language) => step == BindStep::Bound(
                    LanguageBinding { language, via: BoundVia::ScopeOverride },
                ),
                None => step matches BindStep::Fail(BindError::UnknownScope(s)) && s@ == scope@,
            },
            BindQuery::ByFilename => match answer {
                Some(language) => step == BindStep::Bound(
                    LanguageBinding { language, via: BoundVia::FilenamePattern },
                ),
                None => step == BindStep::Ask(BindQuery::ByContent),
            },
            BindQuery::ByContent => match answer {
                Some(language) => step == BindStep::Bound(
                    LanguageBinding { language, via: BoundVia::ContentSniff },
                ),
                None => if batch {
                    step == BindStep::Skip
                } else {
                    step == BindStep::Fail(BindError::NoLanguageFound)
                },
            },
        },
{
    match query {
        BindQuery::ByScope(scope) => match answer {
            Some(language) => BindStep::Bound(
                LanguageBinding { language, via: BoundVia::ScopeOverride },
            ),
            None => BindStep::Fail(BindError::UnknownScope(scope)),
        },
        BindQuery::ByFilename => match answer {
            Some(language) => BindStep::Bound(
                LanguageBinding { language, via: BoundVia::FilenamePattern },
            ),
            None => BindStep::Ask(BindQuery::ByContent),
        },
        BindQuery::ByContent => match answer {
            Some(language) => BindStep::Bound(
                LanguageBinding { language, via: BoundVia::ContentSniff },
            ),
            None => {
                if batch {
                    BindStep::Skip
                } else {
                    BindStep::Fail(BindError::NoLanguageFound)
                }
            },
        },
    }
}

} // verus!
