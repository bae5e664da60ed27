//! Reconciling the rendered report with the comments already on a thread:
//! find the comment of an earlier run of the same build, and decide whether
//! to update it, post a new one, or do nothing. The wire calls that fetch
//! comments and carry the decision out live with the caller; everything here
//! decides from plain values.

use crate::ci::MergeRequest;
use crate::template::Template;
use crate::Error;
use vstd::prelude::*;

verus! {

/// A comment already on the thread: its identifier and its text.
#[derive(Debug, Clone)]
pub struct Note {
    pub id: u64,
    pub body: String,
}

/// What a run does to the thread.
#[derive(Debug, PartialEq, Eq, Structural, Clone, Copy)]
pub enum NotifyAction {
    /// Post the report as a new comment.
    Create,
    /// Replace the body of the comment with this identifier.
    Update(u64),
    /// Post nothing: there is no thread to comment on.
    Skip,
}

/// Anything that can deliver a rendered report. The library ships the no-op
/// local delivery; platform deliveries perform the wire calls and live with
/// the caller.
pub trait Notifiable {
    fn notify(&self, body: &Template, patch: bool) -> Result<(), Error>;

    fn job_url(&self) -> String;
}

/// Delivery for local runs: print nothing, post nothing.
pub struct LocalNotifier {
}

impl Notifiable for LocalNotifier {
    fn notify(&self, body: &Template, patch: bool) -> Result<(), Error> {
        Ok(())
    }

    fn job_url(&self) -> String {
        String::new()
    }
}

/// The position of the first comment whose text is an earlier rendering of
/// the same build, or `-1`.
pub open spec fn first_match_index(t: Template, comments: Seq<Note>) -> int
    decreases comments.len(),
{
    if comments.len() == 0 {
        -1
    } else if t.spec_same_build(comments[0].body@) {
        0
    } else {
        let r = first_match_index(t, comments.drop_first());
        if r < 0 {
            -1
        } else {
            r + 1
        }
    }
}

pub proof fn lemma_first_match_index(t: Template, comments: Seq<Note>)
    ensures
        first_match_index(t, comments) >= -1,
        first_match_index(t, comments) == -1 ==> forall|i: int|
            0 <= i < comments.len() ==> !t.spec_same_build((#[trigger] comments[i]).body@),
        first_match_index(t, comments) >= 0 ==> {
            &&& first_match_index(t, comments) < comments.len()
            &&& t.spec_same_build(comments[first_match_index(t, comments)].body@)
            &&& forall|i: int|
                0 <= i < first_match_index(t, comments) ==> !t.spec_same_build(
                    (#[trigger] comments[i]).body@,
                )
        },
    decreases comments.len(),
{
    if comments.len() > 0 && !t.spec_same_build(comments[0].body@) {
        lemma_first_match_index(t, comments.drop_first());
        let r = first_match_index(t, comments.drop_first());
        if r == -1 {
            assert forall|i: int| 0 <= i < comments.len() implies !t.spec_same_build(
                (#[trigger] comments[i]).body@,
            ) by {
                if i > 0 {
                    assert(comments.drop_first()[i - 1] == comments[i]);
                }
            }
        } else {
            assert(comments.drop_first()[r] == comments[r + 1]);
            assert forall|i: int| 0 <= i < r + 1 implies !t.spec_same_build(
                (#[trigger] comments[i]).body@,
            ) by {
                if i > 0 {
                    assert(comments.drop_first()[i - 1] == comments[i]);
                }
            }
        }
    }
}

/// Decide what to do with the thread: nothing without a thread; a fresh
/// comment when not patching; when patching, an update of the first comment
/// of the same build if one is there, else a fresh comment.
pub fn reconcile(thread: Option<u64>, report: &Template, comments: &Vec<Note>, patch: bool) -> (a:
    NotifyAction)
    ensures
        thread is None ==> a == NotifyAction::Skip,
        thread is Some && !patch ==> a == NotifyAction::Create,
        thread is Some && patch ==> {
            let m = first_match_index(*report, comments@);
            if m < 0 {
                a == NotifyAction::Create
            } else {
                a == NotifyAction::Update(comments@[m].id)
            }
        },
{
    if thread.is_none() {
        return NotifyAction::Skip;
    }
    if !patch {
        return NotifyAction::Create;
    }
    match first_same_build(report, comments) {
        Some(i) => NotifyAction::Update(comments[i].id),
        None => NotifyAction::Create,
    }
}

/// The position of the first comment of the same build, decided by scanning.
fn first_same_build(report: &Template, comments: &Vec<Note>) -> (r: Option<usize>)
    ensures
        match r {
            Some(i) => i < comments@.len() && i == first_match_index(*report, comments@),
            None => first_match_index(*report, comments@) == -1,
        },
{
    let n: usize = comments.len();
    let mut i: usize = 0;
    while i < n
        invariant
            n == comments@.len(),
            0 <= i <= n,
            forall|k: int|
                0 <= k < i ==> !report.spec_same_build((#[trigger] comments@[k]).body@),
        decreases n - i,
    {
        let same = match report.is_same_build(comments[i].body.as_str()) {
            Ok(b) => b,
            Err(e) => {
                proof {
                    assert(false);
                }
                false
            },
        };
        if same {
            proof {
                lemma_first_match_index(*report, comments@);
                let m = first_match_index(*report, comments@);
                if m == -1 {
                    assert(!report.spec_same_build(comments@[i as int].body@));
                }
                if m >= 0 && m < i as int {
                    assert(!report.spec_same_build(comments@[m].body@));
                }
                if m > i as int {
                    assert(!report.spec_same_build(comments@[i as int].body@));
                }
            }
            return Some(i);
        }
        i += 1;
    }
    proof {
        lemma_first_match_index(*report, comments@);
        if first_match_index(*report, comments@) >= 0 {
            assert(report.spec_same_build(
                comments@[first_match_index(*report, comments@)].body@,
            ));
        }
    }
    None
}

/// The GitLab-side identity of one run: the project, the merge request at
/// hand, and the job URL. The HTTP client and its calls stay with the
/// caller; this type owns the decisions those calls feed.
#[derive(Debug)]
pub struct GitlabNotifier {
    project: u64,
    merge_request: MergeRequest,
    job_url: String,
}

impl GitlabNotifier {
    pub closed spec fn spec_project(self) -> u64 {
        self.project
    }

    pub closed spec fn spec_merge_request(self) -> MergeRequest {
        self.merge_request
    }

    pub closed spec fn spec_job_url(self) -> Seq<char> {
        self.job_url@
    }

    pub fn new(project: u64, merge_request: MergeRequest, job_url: String) -> (r: Self)
        ensures
            r.spec_project() == project,
            r.spec_merge_request() == merge_request,
            r.spec_job_url() == job_url@,
    {
        GitlabNotifier { project, merge_request, job_url }
    }

    pub fn merge_request(&self) -> (r: &MergeRequest)
        ensures
            *r == self.spec_merge_request(),
    {
        &self.merge_request
    }

    pub fn job_url(&self) -> (r: String)
        ensures
            r@ == self.spec_job_url(),
    {
        self.job_url.clone()
    }

    /// The merge request number to comment on: the explicit number when the
    /// CI handed one over; otherwise the first request that the search by
    /// commit SHA returned, whose results are handed in; no result is the
    /// fatal no-merge-request error.
    pub fn retrieve_merge_request_iid_with_fallback(&self, mr: &MergeRequest, found: &Vec<
        u64,
    >) -> (r: Result<u64, Error>)
        ensures
            mr.number matches Some(x) ==> r == Ok::<u64, Error>(x),
            mr.number is None && found@.len() > 0 ==> r == Ok::<u64, Error>(found@[0]),
            mr.number is None && found@.len() == 0 ==> r == Err::<u64, Error>(
                Error::NoMergeRequestFound,
            ),
    {
        match mr.number {
            Some(number) => Ok(number),
            None => {
                if found.len() == 0 {
                    Err(Error::NoMergeRequestFound)
                } else {
                    Ok(found[0])
                }
            },
        }
    }

    /// The first of the thread's comments that is an earlier rendering of
    /// the same build, if any; the comments are handed in as listed by the
    /// platform, in thread order.
    pub fn retrieve_same_build_comment(&self, template: &Template, comments: &Vec<Note>) -> (r:
        Option<Note>)
        ensures
            ({
                let m = first_match_index(*template, comments@);
                match r {
                    Some(note) => m >= 0 && note.id == comments@[m].id && note.body@
                        == comments@[m].body@,
                    None => m == -1,
                }
            }),
    {
        match first_same_build(template, comments) {
            Some(i) => Some(Note { id: comments[i].id, body: comments[i].body.clone() }),
            None => None,
        }
    }
}

} // verus!
