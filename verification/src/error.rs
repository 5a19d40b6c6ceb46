use vstd::prelude::*;

verus! {

/// The kinds of failure that the search service knows.
#[derive(Clone, Copy, Debug, PartialEq, Eq)]
pub enum ErrorKind {
    /// A song file does not have the expected form.
    Format,
    /// A song file cannot be read.
    Io,
    /// A query does not follow the query syntax.
    QueryParse,
    /// The index failed on its own account.
    IndexEngine,
}

/// What follows from a failure.
#[derive(Clone, Copy, Debug, PartialEq, Eq)]
pub enum Policy {
    /// The index is not built and the service does not start: it never serves a
    /// part of the songs.
    AbortStartup,
    /// The one request fails and the caller is told; the service goes on.
    ReportToCaller,
}

/// Failures while the index is built end the start; failures of a query stay with
/// that query.
pub open spec fn policy_of(kind: ErrorKind) -> Policy {
    match kind {
        ErrorKind::Format | ErrorKind::Io => Policy::AbortStartup,
        ErrorKind::QueryParse | ErrorKind::IndexEngine => Policy::ReportToCaller,
    }
}

impl ErrorKind {
    /// What follows from a failure of this kind.
    pub fn policy(&self) -> (policy: Policy)
        ensures
            policy == policy_of(*self),
    {
        match self {
            ErrorKind::Format | ErrorKind::Io => Policy::AbortStartup,
            ErrorKind::QueryParse | ErrorKind::IndexEngine => Policy::ReportToCaller,
        }
    }
}

} // verus!
