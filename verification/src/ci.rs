//! The CI platform the tool runs under, and the identity of the request
//! thread a run comments on.

use crate::text::eq_chars;
use crate::text::to_chars;
use crate::Error;
use vstd::prelude::*;

verus! {

/// The CI platform kinds the tool knows.
#[derive(Debug, PartialEq, Eq, Structural, Clone, Copy)]
pub enum CIKind {
    /// Running under GitLab CI.
    GitLab,
    /// Running under GitHub Actions.
    GitHub,
    /// Running on a local machine, for debugging.
    Local,
}

/// The kind a platform name denotes, if any.
pub open spec fn kind_of_name(s: Seq<char>) -> Option<CIKind> {
    if s == "gitlab"@ {
        Some(CIKind::GitLab)
    } else if s == "github"@ {
        Some(CIKind::GitHub)
    } else if s == "local"@ {
        Some(CIKind::Local)
    } else {
        None
    }
}

impl CIKind {
    /// Parse a platform name: `gitlab`, `github` or `local`.
    pub fn parse(s: &str) -> (r: Result<CIKind, Error>)
        ensures
            kind_of_name(s@) matches Some(k) ==> r == Ok::<CIKind, Error>(k),
            kind_of_name(s@) is None ==> r == Err::<CIKind, Error>(Error::UnknownCIKind),
    {
        let cs = to_chars(s);
        let gitlab = to_chars("gitlab");
        let github = to_chars("github");
        let local = to_chars("local");
        if eq_chars(&cs, &gitlab) {
            Ok(CIKind::GitLab)
        } else if eq_chars(&cs, &github) {
            Ok(CIKind::GitHub)
        } else if eq_chars(&cs, &local) {
            Ok(CIKind::Local)
        } else {
            Err(Error::UnknownCIKind)
        }
    }
}

impl core::str::FromStr for CIKind {
    type Err = Error;

    fn from_str(s: &str) -> Result<CIKind, Error> {
        CIKind::parse(s)
    }
}

/// The request thread a run comments on: the explicit request number when the
/// CI hands one over, and the commit SHA for the fallback lookup.
#[derive(Clone, Debug)]
pub struct MergeRequest {
    pub number: Option<u64>,
    pub commit_sha: String,
}

/// One run's CI identity: the platform kind and the job URL that the report
/// links back to.
pub struct CI {
    kind: CIKind,
    job_url: String,
}

impl CI {
    pub closed spec fn spec_kind(self) -> CIKind {
        self.kind
    }

    pub closed spec fn spec_job_url(self) -> Seq<char> {
        self.job_url@
    }

    /// A CI identity from the platform kind and the job URL. Local runs skip
    /// the CI path entirely and never construct one.
    pub fn new(kind: CIKind, job_url: String) -> (r: Result<CI, Error>)
        requires
            kind != CIKind::Local,
        ensures
            r matches Ok(c) && c.spec_kind() == kind && c.spec_job_url() == job_url@,
    {
        Ok(CI { kind, job_url })
    }

    /// The URL of the CI job this run belongs to.
    pub fn job_url(&self) -> (r: String)
        ensures
            r@ == self.spec_job_url(),
    {
        self.job_url.clone()
    }
}

} // verus!
