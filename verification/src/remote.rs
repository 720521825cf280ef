//! The remote side: what the engine asks of the remote endpoint, and how it
//! goes on from the endpoint's answers. The endpoint itself, with its session
//! and its transfers, is not part of this library: whoever drives a job
//! performs each request and reports what came of it.

use vstd::prelude::*;
use crate::errors::ErrorKind;
use crate::errors::ErrorView;
use crate::errors::SyncError;
use crate::paths::has_root;
use crate::paths::is_absolute;
use crate::paths::render;
use crate::paths::rendered;
use crate::paths::segments;
use crate::paths::split_segments;
use crate::text::texts;
use crate::types::PathMap;

verus! {

/// One operation on the remote tree, as the engine decides it.
#[derive(Clone, Debug, PartialEq, Eq)]
pub enum RemoteAction {
    /// See to it that the directory exists; that it already does is no error.
    EnsureDirectory(String),
    /// Create the remote file, or overwrite it, with the whole of the local
    /// file.
    WriteFile { local: String, remote: String },
    /// Remove the path; that it is absent is no error.
    Remove(String),
    /// Move the remote path to another.
    Rename { from: String, to: String },
}

/// A remote operation, in contracts.
pub enum ActionView {
    EnsureDirectory(Seq<char>),
    WriteFile { local: Seq<char>, remote: Seq<char> },
    Remove(Seq<char>),
    Rename { from: Seq<char>, to: Seq<char> },
}

impl View for RemoteAction {
    type V = ActionView;

    open spec fn view(&self) -> ActionView {
        match self {
            RemoteAction::EnsureDirectory(path) => ActionView::EnsureDirectory(path@),
            RemoteAction::WriteFile { local, remote } => ActionView::WriteFile {
                local: local@,
                remote: remote@,
            },
            RemoteAction::Remove(path) => ActionView::Remove(path@),
            RemoteAction::Rename { from, to } => ActionView::Rename { from: from@, to: to@ },
        }
    }
}

/// The operations of a sequence, in contracts.
pub open spec fn action_views(actions: Seq<RemoteAction>) -> Seq<ActionView> {
    Seq::new(actions.len(), |i: int| actions[i]@)
}

/// One call that the endpoint performs on the remote host.
#[derive(Clone, Debug, PartialEq, Eq)]
pub enum Request {
    /// Ask whether the path exists.
    Stat(String),
    /// Create the directory.
    Mkdir(String),
    /// Send the whole of the local file to the remote path.
    Write { local: String, remote: String },
    /// Remove the file at the path.
    Unlink(String),
    /// Remove the directory at the path.
    Rmdir(String),
    /// Move the remote path to another.
    Rename { from: String, to: String },
}

/// A call on the remote host, in contracts.
pub enum RequestView {
    Stat(Seq<char>),
    Mkdir(Seq<char>),
    Write { local: Seq<char>, remote: Seq<char> },
    Unlink(Seq<char>),
    Rmdir(Seq<char>),
    Rename { from: Seq<char>, to: Seq<char> },
}

impl View for Request {
    type V = RequestView;

    open spec fn view(&self) -> RequestView {
        match self {
            Request::Stat(path) => RequestView::Stat(path@),
            Request::Mkdir(path) => RequestView::Mkdir(path@),
            Request::Write { local, remote } => RequestView::Write {
                local: local@,
                remote: remote@,
            },
            Request::Unlink(path) => RequestView::Unlink(path@),
            Request::Rmdir(path) => RequestView::Rmdir(path@),
            Request::Rename { from, to } => RequestView::Rename { from: from@, to: to@ },
        }
    }
}

/// What came of a call on the remote host.
#[derive(Clone, Copy, Debug, PartialEq, Eq, Structural)]
pub enum Outcome {
    /// The call did what it was made for.
    Done,
    /// The call found its target in place already.
    Exists,
    /// The call found no such path.
    Missing,
    /// The call failed for another reason: the transport, a permission.
    Failed,
}

/// The status that a file transfer over the secure shell reports for a
/// request that did what it was made for.
pub const STATUS_OK: i32 = 0;

/// The status for a file that does not exist.
pub const STATUS_NO_SUCH_FILE: i32 = 2;

/// The status for a path that does not exist.
pub const STATUS_NO_SUCH_PATH: i32 = 10;

/// The status for a file that exists already.
pub const STATUS_FILE_ALREADY_EXISTS: i32 = 11;

/// What a status of the file transfer protocol means for the engine.
pub open spec fn status_outcome(status: int) -> Outcome {
    if status == STATUS_OK {
        Outcome::Done
    } else if status == STATUS_NO_SUCH_FILE || status == STATUS_NO_SUCH_PATH {
        Outcome::Missing
    } else if status == STATUS_FILE_ALREADY_EXISTS {
        Outcome::Exists
    } else {
        Outcome::Failed
    }
}

/// What a status of the file transfer protocol means for the engine: a path
/// that is absent and a path that is in place already are told apart from
/// every other failure.
pub fn outcome_of_status(status: i32) -> (outcome: Outcome)
    ensures
        outcome == status_outcome(status as int),
{
    if status == STATUS_OK {
        Outcome::Done
    } else if status == STATUS_NO_SUCH_FILE || status == STATUS_NO_SUCH_PATH {
        Outcome::Missing
    } else if status == STATUS_FILE_ALREADY_EXISTS {
        Outcome::Exists
    } else {
        Outcome::Failed
    }
}

/// A step of the way to an authenticated session.
#[derive(Clone, Copy, Debug, PartialEq, Eq, Structural)]
pub enum SetupStage {
    /// To read the name of the user from the environment.
    Environment,
    /// To reach the host.
    Connect,
    /// To agree on a session with the host.
    Handshake,
    /// To have the host accept the user.
    Authenticate,
}

/// The error for a step of the setup that failed: its kind, and as causes
/// what was reported, then the host, then the user, as far as the step knows
/// of them.
pub open spec fn setup_error(
    stage: SetupStage,
    host: Seq<char>,
    user: Seq<char>,
    cause: Seq<char>,
) -> ErrorView {
    match stage {
        SetupStage::Environment => ErrorView {
            kind: ErrorKind::EnvironmentRead,
            causes: seq![cause],
        },
        SetupStage::Connect => ErrorView {
            kind: ErrorKind::HostConnection,
            causes: seq![cause, host],
        },
        SetupStage::Handshake => ErrorView {
            kind: ErrorKind::HostConnection,
            causes: seq![cause, host],
        },
        SetupStage::Authenticate => ErrorView {
            kind: ErrorKind::UserAuthentication,
            causes: seq![cause, host, user],
        },
    }
}

/// The error for a step of the setup that failed. Every such error ends the
/// start of the program.
pub fn setup_failure(stage: SetupStage, host: &str, user: &str, cause: String) -> (e: SyncError)
    ensures
        e@ == setup_error(stage, host@, user@, cause@),
{
    match stage {
        SetupStage::Environment => {
            let e = SyncError::new(ErrorKind::EnvironmentRead, cause);
            assert(e@.causes =~= seq![cause@]);
            e
        },
        SetupStage::Connect => {
            let e = SyncError::new(ErrorKind::HostConnection, cause).wrap(host.to_owned());
            assert(e@.causes =~= seq![cause@, host@]);
            e
        },
        SetupStage::Handshake => {
            let e = SyncError::new(ErrorKind::HostConnection, cause).wrap(host.to_owned());
            assert(e@.causes =~= seq![cause@, host@]);
            e
        },
        SetupStage::Authenticate => {
            let e = SyncError::new(ErrorKind::UserAuthentication, cause).wrap(
                host.to_owned(),
            ).wrap(user.to_owned());
            assert(e@.causes =~= seq![cause@, host@, user@]);
            e
        },
    }
}

/// How a job goes on after an outcome.
#[derive(Clone, Copy, Debug, PartialEq, Eq, Structural)]
pub enum Judgement {
    /// The operation is done; the next one follows.
    Advance,
    /// The first call of the operation did not settle it; its second call
    /// follows.
    Second,
    /// The operation failed, with an error of this kind.
    Fail(ErrorKind),
}

/// The call that an operation asks for, the first or the second. To see to a
/// directory takes two calls: the first asks whether it is there, the second,
/// made only where it was not found, creates it. To remove a path takes two
/// as well: the first removes a file, the second, made only where the first
/// failed on something that is there, removes a directory.
pub open spec fn request_of(action: ActionView, probed: bool) -> RequestView {
    match action {
        ActionView::EnsureDirectory(path) => if probed {
            RequestView::Mkdir(path)
        } else {
            RequestView::Stat(path)
        },
        ActionView::WriteFile { local, remote } => RequestView::Write { local, remote },
        ActionView::Remove(path) => if probed {
            RequestView::Rmdir(path)
        } else {
            RequestView::Unlink(path)
        },
        ActionView::Rename { from, to } => RequestView::Rename { from, to },
    }
}

/// How a job goes on after the outcome of the call that an operation asked
/// for. A directory that is in place already is no failure, whichever call
/// finds it so, and neither is the absence of what was to be removed.
pub open spec fn judge(action: ActionView, probed: bool, outcome: Outcome) -> Judgement {
    match action {
        ActionView::EnsureDirectory(_) => if outcome == Outcome::Done || outcome
            == Outcome::Exists {
            Judgement::Advance
        } else if probed {
            Judgement::Fail(ErrorKind::DirectoryError)
        } else {
            Judgement::Second
        },
        ActionView::WriteFile { .. } => if outcome == Outcome::Done {
            Judgement::Advance
        } else {
            Judgement::Fail(ErrorKind::TransferError)
        },
        ActionView::Remove(_) => if outcome == Outcome::Done || outcome == Outcome::Missing {
            Judgement::Advance
        } else if probed {
            Judgement::Fail(ErrorKind::TransferError)
        } else {
            Judgement::Second
        },
        ActionView::Rename { .. } => if outcome == Outcome::Done {
            Judgement::Advance
        } else {
            Judgement::Fail(ErrorKind::RenameError)
        },
    }
}

/// The remote path that an operation is about: for a rename, the path that
/// is moved.
pub open spec fn subject(action: ActionView) -> Seq<char> {
    match action {
        ActionView::EnsureDirectory(path) => path,
        ActionView::WriteFile { local, remote } => remote,
        ActionView::Remove(path) => path,
        ActionView::Rename { from, to } => from,
    }
}

/// The state of a job, in contracts.
pub struct JobView {
    /// The operations of the job, in the order in which they are attempted.
    pub actions: Seq<ActionView>,
    /// How many of them are done.
    pub step: nat,
    /// Whether the first call of the current operation was made and did not
    /// settle it.
    pub probed: bool,
    /// The failure that ended the job.
    pub failure: Option<ErrorView>,
}

/// The call that a job asks for next: none once it has failed or all of its
/// operations are done.
pub open spec fn current_request(job: JobView) -> Option<RequestView> {
    if job.failure is Some || job.step >= job.actions.len() {
        None
    } else {
        Some(request_of(job.actions[job.step as int], job.probed))
    }
}

/// Whether a job has done all of its operations.
pub open spec fn succeeded(job: JobView) -> bool {
    job.failure is None && job.step >= job.actions.len()
}

/// The job after the outcome of the call that it asked for. A failure ends
/// the job: what follows the failed operation is not attempted. Its error
/// carries what the endpoint said and the remote path concerned.
pub open spec fn reported(job: JobView, outcome: Outcome, detail: Seq<char>) -> JobView {
    if current_request(job) is None {
        job
    } else {
        let action = job.actions[job.step as int];
        match judge(action, job.probed, outcome) {
            Judgement::Advance => JobView {
                actions: job.actions,
                step: job.step + 1,
                probed: false,
                failure: None,
            },
            Judgement::Second => JobView {
                actions: job.actions,
                step: job.step,
                probed: true,
                failure: None,
            },
            Judgement::Fail(kind) => JobView {
                actions: job.actions,
                step: job.step,
                probed: job.probed,
                failure: Some(ErrorView { kind, causes: seq![detail, subject(action)] }),
            },
        }
    }
}

/// A job that has the given operations before it and has done none.
pub open spec fn started(actions: Seq<ActionView>) -> JobView {
    JobView { actions, step: 0, probed: false, failure: None }
}

/// The remote work that one change event, or one pair of the initial
/// synchronisation, asks for: operations that are attempted in order, one
/// call at a time.
#[derive(Debug)]
pub struct Job {
    actions: Vec<RemoteAction>,
    step: usize,
    probed: bool,
    failure: Option<SyncError>,
}

impl View for Job {
    type V = JobView;

    closed spec fn view(&self) -> JobView {
        JobView {
            actions: action_views(self.actions@),
            step: self.step as nat,
            probed: self.probed,
            failure: match self.failure {
                Some(e) => Some(e@),
                None => None,
            },
        }
    }
}

/// The call that an operation asks for.
pub fn request_for(action: &RemoteAction, probed: bool) -> (request: Request)
    ensures
        request@ == request_of(action@, probed),
{
    match action {
        RemoteAction::EnsureDirectory(path) => if probed {
            Request::Mkdir(path.clone())
        } else {
            Request::Stat(path.clone())
        },
        RemoteAction::WriteFile { local, remote } => Request::Write {
            local: local.clone(),
            remote: remote.clone(),
        },
        RemoteAction::Remove(path) => if probed {
            Request::Rmdir(path.clone())
        } else {
            Request::Unlink(path.clone())
        },
        RemoteAction::Rename { from, to } => Request::Rename { from: from.clone(), to: to.clone() },
    }
}

/// How a job goes on after the outcome of the call that an operation asked
/// for.
pub fn judgement(action: &RemoteAction, probed: bool, outcome: Outcome) -> (j: Judgement)
    ensures
        j == judge(action@, probed, outcome),
{
    match action {
        RemoteAction::EnsureDirectory(_) => if outcome == Outcome::Done || outcome
            == Outcome::Exists {
            Judgement::Advance
        } else if probed {
            Judgement::Fail(ErrorKind::DirectoryError)
        } else {
            Judgement::Second
        },
        RemoteAction::WriteFile { .. } => if outcome == Outcome::Done {
            Judgement::Advance
        } else {
            Judgement::Fail(ErrorKind::TransferError)
        },
        RemoteAction::Remove(_) => if outcome == Outcome::Done || outcome == Outcome::Missing {
            Judgement::Advance
        } else if probed {
            Judgement::Fail(ErrorKind::TransferError)
        } else {
            Judgement::Second
        },
        RemoteAction::Rename { .. } => if outcome == Outcome::Done {
            Judgement::Advance
        } else {
            Judgement::Fail(ErrorKind::RenameError)
        },
    }
}

/// The remote path that an operation is about.
fn subject_of(action: &RemoteAction) -> (path: String)
    ensures
        path@ == subject(action@),
{
    match action {
        RemoteAction::EnsureDirectory(path) => path.clone(),
        RemoteAction::WriteFile { local, remote } => remote.clone(),
        RemoteAction::Remove(path) => path.clone(),
        RemoteAction::Rename { from, to } => from.clone(),
    }
}

impl Job {
    /// What every job keeps: it has done no more operations than it has.
    pub closed spec fn wf(&self) -> bool {
        self.step <= self.actions@.len()
    }

    /// A job that has the given operations before it.
    pub fn new(actions: Vec<RemoteAction>) -> (job: Job)
        ensures
            job.wf(),
            job@ == started(action_views(actions@)),
    {
        Job { actions, step: 0, probed: false, failure: None }
    }

    /// A job that failed before it could ask for anything.
    pub fn rejected(error: SyncError) -> (job: Job)
        ensures
            job.wf(),
            job@ == (JobView {
                actions: Seq::<ActionView>::empty(),
                step: 0,
                probed: false,
                failure: Some(error@),
            }),
    {
        let job = Job { actions: Vec::new(), step: 0, probed: false, failure: Some(error) };
        assert(job@.actions =~= Seq::<ActionView>::empty());
        job
    }

    /// The call to perform next: none once the job has failed or is done.
    pub fn request(&self) -> (r: Option<Request>)
        requires
            self.wf(),
        ensures
            match r {
                Some(request) => current_request(self@) == Some(request@),
                None => current_request(self@) is None,
            },
    {
        if self.failure.is_some() || self.step >= self.actions.len() {
            None
        } else {
            Some(request_for(&self.actions[self.step], self.probed))
        }
    }

    /// Takes in what came of the call that the job asked for, with what the
    /// endpoint said of it. A job that asked for none stays as it is.
    pub fn report(&mut self, outcome: Outcome, detail: &str)
        requires
            old(self).wf(),
        ensures
            final(self).wf(),
            final(self)@ == reported(old(self)@, outcome, detail@),
    {
        if self.failure.is_some() || self.step >= self.actions.len() {
            return ;
        }
        match judgement(&self.actions[self.step], self.probed, outcome) {
            Judgement::Advance => {
                self.step = self.step + 1;
                self.probed = false;
            },
            Judgement::Second => {
                self.probed = true;
            },
            Judgement::Fail(kind) => {
                let path = subject_of(&self.actions[self.step]);
                let error = SyncError::new(kind, detail.to_owned()).wrap(path);
                assert(error@.causes =~= seq![detail@, subject(self.actions@[self.step as int]@)]);
                self.failure = Some(error);
            },
        }
    }

    /// Whether the job asks for no further call.
    pub fn is_finished(&self) -> (r: bool)
        requires
            self.wf(),
        ensures
            r == (current_request(self@) is None),
    {
        self.failure.is_some() || self.step >= self.actions.len()
    }

    /// The remote path of the operation that is next, for a job that has not
    /// failed.
    fn pending_subject(&self) -> (r: Option<String>)
        requires
            self.wf(),
        ensures
            match r {
                Some(path) => self.step < self.actions@.len() && path@ == subject(
                    self@.actions[self@.step as int],
                ),
                None => self.step >= self.actions@.len(),
            },
    {
        if self.step < self.actions.len() {
            Some(subject_of(&self.actions[self.step]))
        } else {
            None
        }
    }

    /// The failure that ended the job, if one did.
    pub fn failure(&self) -> (r: Option<&SyncError>)
        ensures
            match r {
                Some(e) => self@.failure == Some(e@),
                None => self@.failure is None,
            },
    {
        self.failure.as_ref()
    }
}

/// The directory that holds a path: none for a path without segments.
pub open spec fn parent_of(path: Seq<char>) -> Option<Seq<char>> {
    if segments(path).len() == 0 {
        None
    } else {
        Some(rendered(is_absolute(path), segments(path).drop_last()))
    }
}

/// The directory that holds a path.
pub fn parent(path: &str) -> (r: Option<String>)
    ensures
        match r {
            Some(directory) => parent_of(path@) == Some(directory@),
            None => parent_of(path@) is None,
        },
{
    let mut segs = split_segments(path);
    if segs.len() == 0 {
        return None;
    }
    let ghost all = texts(segs@);
    segs.pop();
    assert(texts(segs@) =~= all.drop_last());
    Some(render(has_root(path), &segs))
}

/// The operations that bring a local file to its remote path: first the
/// directory that will hold it, then the file. None where the remote path has
/// no directory above it.
pub open spec fn upload_actions(local: Seq<char>, remote: Seq<char>) -> Option<Seq<ActionView>> {
    match parent_of(remote) {
        Some(directory) => Some(
            seq![ActionView::EnsureDirectory(directory), ActionView::WriteFile { local, remote }],
        ),
        None => None,
    }
}

/// The error for a remote path that has no directory above it.
pub open spec fn no_parent(remote: Seq<char>) -> ErrorView {
    ErrorView { kind: ErrorKind::DirectoryError, causes: seq![remote] }
}

/// The operations that bring a local file to its remote path; the error
/// `DirectoryError` where the remote path has no directory above it.
pub fn upload(local: &str, remote: &str) -> (r: Result<Vec<RemoteAction>, SyncError>)
    ensures
        match r {
            Ok(actions) => upload_actions(local@, remote@) == Some(action_views(actions@)),
            Err(e) => upload_actions(local@, remote@) is None && e@ == no_parent(remote@),
        },
{
    match parent(remote) {
        Some(directory) => {
            let mut actions: Vec<RemoteAction> = Vec::new();
            actions.push(RemoteAction::EnsureDirectory(directory));
            actions.push(RemoteAction::WriteFile { local: local.to_owned(), remote: remote.to_owned() });
            assert(action_views(actions@) =~= upload_actions(local@, remote@).unwrap());
            Ok(actions)
        },
        None => Err(SyncError::new(ErrorKind::DirectoryError, remote.to_owned())),
    }
}

/// The job that brings one local file to its remote path.
pub open spec fn pair_job(local: Seq<char>, remote: Seq<char>) -> JobView {
    match upload_actions(local, remote) {
        Some(actions) => started(actions),
        None => JobView {
            actions: Seq::empty(),
            step: 0,
            probed: false,
            failure: Some(no_parent(remote)),
        },
    }
}

/// The initial synchronisation: one job for each pair of the table, in the
/// table's order. Within a job the directory is seen to before the file is
/// written; the jobs do not depend on one another.
pub fn initial_sync(file_map: &PathMap) -> (jobs: Vec<Job>)
    requires
        file_map.wf(),
    ensures
        jobs.len() == file_map.pairs().len(),
        forall|i: int|
            0 <= i < jobs.len() ==> (#[trigger] jobs[i]).wf() && jobs[i]@ == pair_job(
                file_map.pairs()[i].0,
                file_map.pairs()[i].1,
            ),
        forall|local: Seq<char>| #[trigger]
            file_map@.contains_key(local) ==> exists|i: int|
                0 <= i < jobs.len() && (#[trigger] jobs[i])@ == pair_job(local, file_map@[local]),
{
    proof {
        file_map.lemma_pairs();
    }
    let entries = file_map.entries();
    let mut jobs: Vec<Job> = Vec::new();
    let mut i: usize = 0;
    while i < entries.len()
        invariant
            i <= entries.len(),
            jobs.len() == i,
            forall|j: int|
                0 <= j < i ==> (#[trigger] jobs[j]).wf() && jobs[j]@ == pair_job(
                    entries[j].0@,
                    entries[j].1@,
                ),
        decreases entries.len() - i,
    {
        let job = match upload(entries[i].0.as_str(), entries[i].1.as_str()) {
            Ok(actions) => Job::new(actions),
            Err(e) => Job::rejected(e),
        };
        jobs.push(job);
        i = i + 1;
    }
    proof {
        assert forall|local: Seq<char>| #[trigger] file_map@.contains_key(local) implies exists|
            i: int,
        |
            0 <= i < jobs.len() && (#[trigger] jobs[i])@ == pair_job(local, file_map@[local]) by {
            let k = choose|k: int|
                0 <= k < file_map.pairs().len() && (#[trigger] file_map.pairs()[k]).0 == local;
            assert(jobs[k]@ == pair_job(local, file_map@[local]));
        }
    }
    jobs
}

/// What a job still owes: the failure that ended it, or, for a job that was
/// left before its end, its next operation as one that was not transferred.
pub open spec fn shortfall(job: JobView) -> Option<ErrorView> {
    if job.failure is Some {
        job.failure
    } else if job.step < job.actions.len() {
        Some(
            ErrorView {
                kind: ErrorKind::TransferError,
                causes: seq![subject(job.actions[job.step as int])],
            },
        )
    } else {
        None
    }
}

/// What the jobs of a sequence still owe, in order.
pub open spec fn shortfalls(jobs: Seq<JobView>) -> Seq<ErrorView> {
    jobs.filter_map(|job: JobView| shortfall(job))
}

/// The states of a sequence of jobs.
pub open spec fn job_views(jobs: Seq<Job>) -> Seq<JobView> {
    Seq::new(jobs.len(), |i: int| jobs[i]@)
}

/// What the errors of a sequence say.
pub open spec fn error_views(errors: Seq<SyncError>) -> Seq<ErrorView> {
    Seq::new(errors.len(), |i: int| errors[i]@)
}

/// The result of a pass over all jobs: success only if every job has done
/// all of its operations; otherwise every failure, in the order of the jobs.
pub fn sync_report(jobs: &Vec<Job>) -> (r: Result<(), Vec<SyncError>>)
    requires
        forall|i: int| 0 <= i < jobs.len() ==> (#[trigger] jobs[i]).wf(),
    ensures
        match r {
            Ok(_) => forall|i: int| 0 <= i < jobs.len() ==> succeeded(#[trigger] jobs[i]@),
            Err(failures) => failures.len() > 0 && error_views(failures@) == shortfalls(
                job_views(jobs@),
            ),
        },
{
    let mut failures: Vec<SyncError> = Vec::new();
    let mut i: usize = 0;
    let ghost states = job_views(jobs@);
    assert(states.take(0) =~= Seq::<JobView>::empty());
    assert(error_views(failures@) =~= shortfalls(states.take(0)));
    while i < jobs.len()
        invariant
            i <= jobs.len(),
            states == job_views(jobs@),
            forall|j: int| 0 <= j < jobs.len() ==> (#[trigger] jobs[j]).wf(),
            error_views(failures@) == shortfalls(states.take(i as int)),
            failures.len() == 0 ==> forall|j: int| 0 <= j < i ==> succeeded(#[trigger] jobs[j]@),
        decreases jobs.len() - i,
    {
        let ghost before = error_views(failures@);
        proof {
            assert(states.take(i + 1).drop_last() =~= states.take(i as int));
            assert(states.take(i + 1).last() == jobs[i as int]@);
        }
        match jobs[i].failure() {
            Some(e) => {
                let copy = e.duplicate();
                failures.push(copy);
                assert(error_views(failures@) =~= before + seq![copy@]);
            },
            None => {
                match jobs[i].pending_subject() {
                    Some(path) => {
                        let e = SyncError::new(ErrorKind::TransferError, path);
                        failures.push(e);
                        assert(error_views(failures@) =~= before + seq![e@]);
                    },
                    None => {},
                }
            },
        }
        i = i + 1;
    }
    assert(states.take(i as int) =~= states);
    if failures.len() == 0 {
        Ok(())
    } else {
        Err(failures)
    }
}

} // verus!
