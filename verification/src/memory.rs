//! A remote endpoint that lives in memory: a tree of directories and files
//! that answers each request as a remote host would, and keeps a record of
//! the requests. It stands in for the remote host wherever the engine is to
//! be exercised without one.

use vstd::prelude::*;
use crate::remote::current_request;
use crate::remote::parent;
use crate::remote::parent_of;
use crate::remote::reported;
use crate::remote::started;
use crate::remote::succeeded;
use crate::remote::ActionView;
use crate::remote::Job;
use crate::remote::JobView;
use crate::remote::Outcome;
use crate::remote::Request;
use crate::remote::RequestView;
use crate::types::PathMap;

verus! {

/// A remote tree: the directories that exist, and for each file that exists
/// the local file whose content it holds.
#[verifier::ext_equal]
pub struct RemoteTree {
    pub dirs: Set<Seq<char>>,
    pub files: Map<Seq<char>, Seq<char>>,
}

/// Whether a path exists in the tree, as a directory or as a file.
pub open spec fn holds(tree: RemoteTree, path: Seq<char>) -> bool {
    tree.dirs.contains(path) || tree.files.contains_key(path)
}

/// Whether the directory that is to hold a path exists. A path without
/// segments needs none.
pub open spec fn parent_present(tree: RemoteTree, path: Seq<char>) -> bool {
    parent_of(path) matches Some(directory) ==> tree.dirs.contains(directory)
}

/// A tree after a request, and what came of the request.
pub struct Performed {
    pub tree: RemoteTree,
    pub outcome: Outcome,
}

/// How the tree answers a request.
///
/// To ask for a path changes nothing. A directory is created where nothing
/// bears its name and the directory above it exists. A file is written where
/// no directory bears its name and the directory above it exists. To unlink
/// takes a file out of the tree and fails on a directory; to remove a
/// directory takes a directory out and fails on a file. To rename moves a
/// file, or else a directory, where the directories above both names exist
/// and no directory bears the new name.
pub open spec fn performed(tree: RemoteTree, request: RequestView) -> Performed {
    match request {
        RequestView::Stat(path) => Performed {
            tree,
            outcome: if holds(tree, path) {
                Outcome::Done
            } else {
                Outcome::Missing
            },
        },
        RequestView::Mkdir(path) => if holds(tree, path) {
            Performed { tree, outcome: Outcome::Exists }
        } else if !parent_present(tree, path) {
            Performed { tree, outcome: Outcome::Missing }
        } else {
            Performed {
                tree: RemoteTree { dirs: tree.dirs.insert(path), files: tree.files },
                outcome: Outcome::Done,
            }
        },
        RequestView::Write { local, remote } => if tree.dirs.contains(remote) {
            Performed { tree, outcome: Outcome::Failed }
        } else if !parent_present(tree, remote) {
            Performed { tree, outcome: Outcome::Missing }
        } else {
            Performed {
                tree: RemoteTree { dirs: tree.dirs, files: tree.files.insert(remote, local) },
                outcome: Outcome::Done,
            }
        },
        RequestView::Unlink(path) => if tree.files.contains_key(path) {
            Performed {
                tree: RemoteTree { dirs: tree.dirs, files: tree.files.remove(path) },
                outcome: Outcome::Done,
            }
        } else if tree.dirs.contains(path) {
            Performed { tree, outcome: Outcome::Failed }
        } else {
            Performed { tree, outcome: Outcome::Missing }
        },
        RequestView::Rmdir(path) => if tree.dirs.contains(path) {
            Performed {
                tree: RemoteTree { dirs: tree.dirs.remove(path), files: tree.files },
                outcome: Outcome::Done,
            }
        } else if tree.files.contains_key(path) {
            Performed { tree, outcome: Outcome::Failed }
        } else {
            Performed { tree, outcome: Outcome::Missing }
        },
        RequestView::Rename { from, to } => if !parent_present(tree, from) || !parent_present(
            tree,
            to,
        ) {
            Performed { tree, outcome: Outcome::Missing }
        } else if tree.dirs.contains(to) {
            Performed { tree, outcome: Outcome::Failed }
        } else if tree.files.contains_key(from) {
            Performed {
                tree: RemoteTree {
                    dirs: tree.dirs,
                    files: tree.files.remove(from).insert(to, tree.files[from]),
                },
                outcome: Outcome::Done,
            }
        } else if tree.dirs.contains(from) {
            Performed {
                tree: RemoteTree { dirs: tree.dirs.remove(from).insert(to), files: tree.files },
                outcome: Outcome::Done,
            }
        } else {
            Performed { tree, outcome: Outcome::Missing }
        },
    }
}

/// What the endpoint says of an outcome.
pub open spec fn said(outcome: Outcome) -> Seq<char> {
    match outcome {
        Outcome::Done => "done"@,
        Outcome::Exists => "the path exists already"@,
        Outcome::Missing => "no such file or directory"@,
        Outcome::Failed => "the request failed"@,
    }
}

/// How many requests a job may still make, at most.
pub open spec fn requests_left(job: JobView) -> nat {
    if current_request(job) is None {
        0
    } else if job.probed {
        (2 * (job.actions.len() - job.step) - 1) as nat
    } else {
        (2 * (job.actions.len() - job.step)) as nat
    }
}

/// A tree and a job after the job was driven to its end, with the requests
/// that it made.
pub struct Ran {
    pub tree: RemoteTree,
    pub job: JobView,
    pub calls: Seq<RequestView>,
}

/// Drives a job to its end against a tree: each request of the job is
/// answered by the tree, and the answer is reported to the job.
pub open spec fn ran(tree: RemoteTree, job: JobView, calls: Seq<RequestView>) -> Ran
    decreases requests_left(job),
{
    match current_request(job) {
        Some(request) => {
            let answer = performed(tree, request);
            ran(
                answer.tree,
                reported(job, answer.outcome, said(answer.outcome)),
                calls.push(request),
            )
        },
        None => Ran { tree, job, calls },
    }
}

/// To see to a directory twice in a row: where the first attempt succeeds,
/// so does the second, and it leaves the tree as the first left it.
pub proof fn lemma_ensure_directory_twice(tree: RemoteTree, directory: Seq<char>)
    requires
        succeeded(
            ran(tree, started(seq![ActionView::EnsureDirectory(directory)]), Seq::empty()).job,
        ),
    ensures
        ({
            let job = started(seq![ActionView::EnsureDirectory(directory)]);
            let first = ran(tree, job, Seq::empty());
            let second = ran(first.tree, job, Seq::empty());
            &&& succeeded(second.job)
            &&& second.tree == first.tree
            &&& second.calls == seq![RequestView::Stat(directory)]
        }),
{
    reveal_with_fuel(ran, 4);
    let job = started(seq![ActionView::EnsureDirectory(directory)]);
    let first = ran(tree, job, Seq::empty());
    let second = ran(first.tree, job, Seq::empty());
    assert(holds(first.tree, directory));
    assert(second.calls =~= seq![RequestView::Stat(directory)]);
}

/// To remove a path never fails for want of the path: a removal that is
/// delivered twice succeeds both times, and the removal of a path that is
/// absent changes nothing. Where no directory bears the name, it takes one
/// request.
pub proof fn lemma_remove_twice(tree: RemoteTree, path: Seq<char>)
    ensures
        ({
            let job = started(seq![ActionView::Remove(path)]);
            let first = ran(tree, job, Seq::empty());
            let second = ran(first.tree, job, Seq::empty());
            &&& succeeded(first.job)
            &&& !tree.dirs.contains(path) ==> first.calls == seq![RequestView::Unlink(path)]
            &&& succeeded(second.job)
            &&& !holds(tree, path) ==> first.tree == tree
        }),
{
    reveal_with_fuel(ran, 4);
    let job = started(seq![ActionView::Remove(path)]);
    let first = ran(tree, job, Seq::empty());
    if !tree.dirs.contains(path) {
        assert(first.calls =~= seq![RequestView::Unlink(path)]);
    }
}

/// What the endpoint says of an outcome.
pub fn text_for(outcome: Outcome) -> (text: &'static str)
    ensures
        text@ == said(outcome),
{
    match outcome {
        Outcome::Done => "done",
        Outcome::Exists => "the path exists already",
        Outcome::Missing => "no such file or directory",
        Outcome::Failed => "the request failed",
    }
}

/// The requests of a sequence, in contracts.
pub open spec fn request_views(requests: Seq<Request>) -> Seq<RequestView> {
    Seq::new(requests.len(), |i: int| requests[i]@)
}

/// A remote endpoint in memory: a tree, and the record of the requests that
/// were made of it.
#[derive(Debug)]
pub struct MemoryEndpoint {
    dirs: PathMap,
    files: PathMap,
    calls: Vec<Request>,
}

impl MemoryEndpoint {
    /// The tree of the endpoint.
    pub closed spec fn tree(&self) -> RemoteTree {
        RemoteTree { dirs: self.dirs@.dom(), files: self.files@ }
    }

    /// The requests that were made of the endpoint, in order.
    pub closed spec fn log(&self) -> Seq<RequestView> {
        request_views(self.calls@)
    }

    /// What every endpoint keeps: its tables are in order.
    pub closed spec fn wf(&self) -> bool {
        self.dirs.wf() && self.files.wf()
    }

    /// An endpoint whose tree holds nothing and that has seen no request.
    pub fn new() -> (endpoint: MemoryEndpoint)
        ensures
            endpoint.wf(),
            endpoint.tree().dirs == Set::<Seq<char>>::empty(),
            endpoint.tree().files == Map::<Seq<char>, Seq<char>>::empty(),
            endpoint.log() == Seq::<RequestView>::empty(),
    {
        let endpoint = MemoryEndpoint { dirs: PathMap::new(), files: PathMap::new(), calls: Vec::new() };
        assert(endpoint.tree().dirs =~= Set::<Seq<char>>::empty());
        assert(endpoint.log() =~= Seq::<RequestView>::empty());
        endpoint
    }

    /// Puts a directory into the tree, whatever is above it. No request is
    /// recorded: this sets a scene.
    pub fn plant_directory(&mut self, path: &str)
        requires
            old(self).wf(),
        ensures
            final(self).wf(),
            final(self).tree().dirs == old(self).tree().dirs.insert(path@),
            final(self).tree().files == old(self).tree().files,
            final(self).log() == old(self).log(),
    {
        self.dirs.insert(path.to_owned(), String::new());
        assert(self.tree().dirs =~= old(self).tree().dirs.insert(path@));
    }

    /// Whether the tree holds a directory of this name.
    pub fn has_directory(&self, path: &str) -> (r: bool)
        ensures
            r == self.tree().dirs.contains(path@),
    {
        self.dirs.contains_key(path)
    }

    /// The local file whose content the remote file of this name holds.
    pub fn file_source(&self, path: &str) -> (r: Option<&String>)
        requires
            self.wf(),
        ensures
            match r {
                Some(local) => self.tree().files.contains_key(path@) && self.tree().files[path@]
                    == local@,
                None => !self.tree().files.contains_key(path@),
            },
    {
        self.files.get(path)
    }

    /// The requests that were made of the endpoint, in order.
    pub fn calls(&self) -> (calls: &Vec<Request>)
        ensures
            request_views(calls@) == self.log(),
    {
        &self.calls
    }

    /// Whether the directory that is to hold a path exists.
    fn parent_exists(&self, path: &str) -> (r: bool)
        ensures
            r == parent_present(self.tree(), path@),
    {
        match parent(path) {
            Some(directory) => self.dirs.contains_key(directory.as_str()),
            None => true,
        }
    }

    /// Answers one request as the tree does, and records it.
    pub fn perform(&mut self, request: Request) -> (outcome: Outcome)
        requires
            old(self).wf(),
        ensures
            final(self).wf(),
            final(self).tree() == performed(old(self).tree(), request@).tree,
            outcome == performed(old(self).tree(), request@).outcome,
            final(self).log() == old(self).log().push(request@),
    {
        let ghost before = self.tree();
        let ghost wanted = performed(before, request@);
        let outcome = match &request {
            Request::Stat(path) => {
                if self.dirs.contains_key(path.as_str()) || self.files.contains_key(path.as_str()) {
                    Outcome::Done
                } else {
                    Outcome::Missing
                }
            },
            Request::Mkdir(path) => {
                if self.dirs.contains_key(path.as_str()) || self.files.contains_key(path.as_str()) {
                    Outcome::Exists
                } else if !self.parent_exists(path.as_str()) {
                    Outcome::Missing
                } else {
                    self.dirs.insert(path.clone(), String::new());
                    Outcome::Done
                }
            },
            Request::Write { local, remote } => {
                if self.dirs.contains_key(remote.as_str()) {
                    Outcome::Failed
                } else if !self.parent_exists(remote.as_str()) {
                    Outcome::Missing
                } else {
                    self.files.insert(remote.clone(), local.clone());
                    Outcome::Done
                }
            },
            Request::Unlink(path) => {
                if self.files.contains_key(path.as_str()) {
                    self.files.remove(path.as_str());
                    Outcome::Done
                } else if self.dirs.contains_key(path.as_str()) {
                    Outcome::Failed
                } else {
                    Outcome::Missing
                }
            },
            Request::Rmdir(path) => {
                if self.dirs.contains_key(path.as_str()) {
                    self.dirs.remove(path.as_str());
                    Outcome::Done
                } else if self.files.contains_key(path.as_str()) {
                    Outcome::Failed
                } else {
                    Outcome::Missing
                }
            },
            Request::Rename { from, to } => {
                if !self.parent_exists(from.as_str()) || !self.parent_exists(to.as_str()) {
                    Outcome::Missing
                } else if self.dirs.contains_key(to.as_str()) {
                    Outcome::Failed
                } else {
                    match self.files.remove(from.as_str()) {
                        Some(content) => {
                            self.files.insert(to.clone(), content);
                            Outcome::Done
                        },
                        None => {
                            if self.dirs.contains_key(from.as_str()) {
                                self.dirs.remove(from.as_str());
                                self.dirs.insert(to.clone(), String::new());
                                Outcome::Done
                            } else {
                                Outcome::Missing
                            }
                        },
                    }
                }
            },
        };
        proof {
            assert(self.tree().dirs =~= wanted.tree.dirs);
            assert(self.tree().files =~= wanted.tree.files);
        }
        let ghost seen = self.log();
        self.calls.push(request);
        assert(self.log() =~= seen.push(request@));
        outcome
    }

    /// Drives a job to its end: each request of the job is answered by the
    /// tree, and the answer is reported to the job.
    pub fn run(&mut self, job: &mut Job)
        requires
            old(self).wf(),
            old(job).wf(),
        ensures
            final(self).wf(),
            final(job).wf(),
            ({
                let end = ran(old(self).tree(), old(job)@, old(self).log());
                &&& final(self).tree() == end.tree
                &&& final(job)@ == end.job
                &&& final(self).log() == end.calls
            }),
    {
        loop
            invariant
                self.wf(),
                job.wf(),
                ran(self.tree(), job@, self.log()) == ran(
                    old(self).tree(),
                    old(job)@,
                    old(self).log(),
                ),
            ensures
                current_request(job@) is None,
            decreases requests_left(job@),
        {
            match job.request() {
                Some(request) => {
                    let outcome = self.perform(request);
                    job.report(outcome, text_for(outcome));
                },
                None => {
                    break ;
                },
            }
        }
    }
}

} // verus!
