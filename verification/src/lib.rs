//! ksnotify: turn the text of a Kubernetes manifest diff into a noise-filtered,
//! classified change report, render it as a markdown comment, and decide how to
//! reconcile that comment with the ones already posted on a merge request.

pub mod changeset;
pub mod ci;
pub mod config;
pub mod notifier;
pub mod parser;
pub mod template;
pub mod text;

use vstd::prelude::*;

verus! {

/// The failures the library itself can report.
#[derive(Clone, Copy, Debug, PartialEq, Eq, Structural)]
pub enum Error {
    /// The diff text yielded a different number of resource keys and diff bodies.
    MalformedDiff,
    /// The fallback search by commit SHA returned no merge request.
    NoMergeRequestFound,
    /// A CI platform name that the library does not know.
    UnknownCIKind,
    /// A delivery to the platform failed; the deliverer logs the detail.
    NotifyFailed,
}

impl Error {
    /// A human-readable description, for callers that print errors.
    pub fn message(&self) -> (s: String)
        ensures
            *self is MalformedDiff ==> s@ == "diff keys and diff bodies do not pair up"@,
            *self is NoMergeRequestFound ==> s@ == "no merge request found"@,
            *self is UnknownCIKind ==> s@ == "unknown CI kind"@,
            *self is NotifyFailed ==> s@ == "failed to notify"@,
    {
        match self {
            Error::MalformedDiff => "diff keys and diff bodies do not pair up".to_owned(),
            Error::NoMergeRequestFound => "no merge request found".to_owned(),
            Error::UnknownCIKind => "unknown CI kind".to_owned(),
            Error::NotifyFailed => "failed to notify".to_owned(),
        }
    }
}

} // verus!
