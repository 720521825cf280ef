//! The interpreter of change events: it turns each notice of a change under
//! the watched root into the remote operations that the change asks for.

use vstd::prelude::*;
use crate::blocklist::FileBlockList;
use crate::blocklist::all_accepted;
use crate::blocklist::blocks;
use crate::blocklist::first_refused;
use crate::blocklist::patterns_of;
use crate::blocklist::remarks_skipped;
use crate::blocklist::source_lines;
use crate::blocklist::source_text;
use crate::errors::ErrorKind;
use crate::errors::ErrorView;
use crate::errors::SyncError;
use crate::matcher::globs_compile;
use crate::paths::canonical;
use crate::paths::first_outside;
use crate::paths::inside;
use crate::paths::lemma_canonical;
use crate::paths::lemma_remote_paths_differ;
use crate::paths::make_remote_path;
use crate::paths::normalize;
use crate::paths::one_to_one;
use crate::paths::plain_texts;
use crate::paths::remote_of;
use crate::paths::zip_local_and_remote;
use crate::paths::zipped;
use crate::remote::ActionView;
use crate::remote::Job;
use crate::remote::RemoteAction;
use crate::remote::action_views;
use crate::remote::error_views;
use crate::remote::initial_sync;
use crate::remote::no_parent;
use crate::remote::pair_job;
use crate::remote::started;
use crate::remote::upload;
use crate::remote::upload_actions;
use crate::text::lemma_texts_push;
use crate::text::texts;
use crate::types::PathMap;

verus! {

/// A notice of a change under the watched root.
#[derive(Clone, Debug, PartialEq, Eq)]
pub enum ChangeEvent {
    /// A file was created at the path.
    Created(String),
    /// The file at the path was written to.
    Modified(String),
    /// The path was removed.
    Removed(String),
    /// The first path was moved to the second.
    Renamed(String, String),
    /// The notifier failed, for the given cause.
    Error(String),
    /// The notifier may have missed changes.
    Resync,
    /// A notice that changes no content: of a permission, of an attribute,
    /// of a change that is still under way.
    Notice,
}

impl ChangeEvent {
    /// The event for something that was created at a path. Only a regular
    /// file is mirrored when it appears; anything else is a mere notice.
    pub fn created(path: String, is_file: bool) -> (event: ChangeEvent)
        ensures
            event == if is_file {
                ChangeEvent::Created(path)
            } else {
                ChangeEvent::Notice
            },
    {
        if is_file {
            ChangeEvent::Created(path)
        } else {
            ChangeEvent::Notice
        }
    }

    /// The event for something that was written to at a path. Only a regular
    /// file is sent again; anything else is a mere notice.
    pub fn modified(path: String, is_file: bool) -> (event: ChangeEvent)
        ensures
            event == if is_file {
                ChangeEvent::Modified(path)
            } else {
                ChangeEvent::Notice
            },
    {
        if is_file {
            ChangeEvent::Modified(path)
        } else {
            ChangeEvent::Notice
        }
    }
}

/// What the interpreter makes of one event: the table of pairs afterwards,
/// and either the remote operations that the event asks for, in order, or
/// the error that it gives.
pub struct Dispatched {
    pub mapping: Map<Seq<char>, Seq<char>>,
    pub result: Result<Seq<ActionView>, ErrorView>,
}

/// The error for a path that does not lie inside the watched root.
pub open spec fn outside(path: Seq<char>) -> ErrorView {
    ErrorView { kind: ErrorKind::PathNotContained, causes: seq![path] }
}

/// What is told of a notifier that may have missed changes.
pub open spec fn resync_cause() -> Seq<char> {
    "the change notifier may have missed changes under the watched root"@
}

/// An event that is passed over: no operation, the table as it was.
pub open spec fn passed_over(mapping: Map<Seq<char>, Seq<char>>) -> Dispatched {
    Dispatched { mapping, result: Ok(Seq::empty()) }
}

/// A file that was created (`fresh`) or written to. An excluded path is
/// passed over. A created file has the directory that will hold it seen to
/// first, and joins the table; a file that was written to is sent again.
pub open spec fn written(
    local: Seq<char>,
    remote: Seq<char>,
    patterns: Seq<Seq<char>>,
    mapping: Map<Seq<char>, Seq<char>>,
    path: Seq<char>,
    fresh: bool,
) -> Dispatched {
    let there = remote_of(path, local, remote);
    if blocks(local, patterns, path) {
        passed_over(mapping)
    } else if !inside(path, local) {
        Dispatched { mapping, result: Err(outside(path)) }
    } else if !fresh {
        Dispatched {
            mapping,
            result: Ok(seq![ActionView::WriteFile { local: path, remote: there }]),
        }
    } else {
        match upload_actions(path, there) {
            Some(actions) => Dispatched { mapping: mapping.insert(path, there), result: Ok(actions) },
            None => Dispatched { mapping, result: Err(no_parent(there)) },
        }
    }
}

/// A path that leaves the mirror: its remote counterpart is removed, and its
/// pair leaves the table.
pub open spec fn dropped(
    local: Seq<char>,
    remote: Seq<char>,
    mapping: Map<Seq<char>, Seq<char>>,
    path: Seq<char>,
) -> Dispatched {
    if !inside(path, local) {
        Dispatched { mapping, result: Err(outside(path)) }
    } else {
        Dispatched {
            mapping: mapping.remove(path),
            result: Ok(seq![ActionView::Remove(remote_of(path, local, remote))]),
        }
    }
}

/// A path that was removed. An excluded path is passed over.
pub open spec fn removed(
    local: Seq<char>,
    remote: Seq<char>,
    patterns: Seq<Seq<char>>,
    mapping: Map<Seq<char>, Seq<char>>,
    path: Seq<char>,
) -> Dispatched {
    if blocks(local, patterns, path) {
        passed_over(mapping)
    } else {
        dropped(local, remote, mapping, path)
    }
}

/// A path that was moved. Where the new path is excluded, the old one leaves
/// the mirror if the table holds it, and the event is passed over if not.
/// Otherwise the remote counterpart is moved, and the pair of the new path
/// takes the place of the pair of the old.
pub open spec fn renamed(
    local: Seq<char>,
    remote: Seq<char>,
    patterns: Seq<Seq<char>>,
    mapping: Map<Seq<char>, Seq<char>>,
    old_path: Seq<char>,
    new_path: Seq<char>,
) -> Dispatched {
    if blocks(local, patterns, new_path) {
        if mapping.contains_key(old_path) {
            dropped(local, remote, mapping, old_path)
        } else {
            passed_over(mapping)
        }
    } else if !inside(old_path, local) {
        Dispatched { mapping, result: Err(outside(old_path)) }
    } else if !inside(new_path, local) {
        Dispatched { mapping, result: Err(outside(new_path)) }
    } else {
        Dispatched {
            mapping: mapping.remove(old_path).insert(new_path, remote_of(new_path, local, remote)),
            result: Ok(
                seq![
                    ActionView::Rename {
                        from: remote_of(old_path, local, remote),
                        to: remote_of(new_path, local, remote),
                    },
                ],
            ),
        }
    }
}

/// What the interpreter makes of one event, for a watched root `local`
/// mirrored at `remote`, ignore rules that hold `patterns`, and the table
/// `mapping`. Every path of an event is taken in its plain text.
pub open spec fn dispatch(
    local: Seq<char>,
    remote: Seq<char>,
    patterns: Seq<Seq<char>>,
    mapping: Map<Seq<char>, Seq<char>>,
    event: ChangeEvent,
) -> Dispatched {
    match event {
        ChangeEvent::Created(path) => written(local, remote, patterns, mapping, canonical(path@), true),
        ChangeEvent::Modified(path) => written(
            local,
            remote,
            patterns,
            mapping,
            canonical(path@),
            false,
        ),
        ChangeEvent::Removed(path) => removed(local, remote, patterns, mapping, canonical(path@)),
        ChangeEvent::Renamed(old_path, new_path) => renamed(
            local,
            remote,
            patterns,
            mapping,
            canonical(old_path@),
            canonical(new_path@),
        ),
        ChangeEvent::Error(cause) => Dispatched {
            mapping,
            result: Err(ErrorView { kind: ErrorKind::WatchFatal, causes: seq![cause@] }),
        },
        ChangeEvent::Resync => Dispatched {
            mapping,
            result: Err(ErrorView { kind: ErrorKind::WatchFatal, causes: seq![resync_cause()] }),
        },
        ChangeEvent::Notice => passed_over(mapping),
    }
}

/// What a run of the watch over some events gives, in contracts.
pub struct Watched {
    /// The table of pairs afterwards.
    pub mapping: Map<Seq<char>, Seq<char>>,
    /// The operations of each event that gave no error, in the order of the
    /// events.
    pub jobs: Seq<Seq<ActionView>>,
    /// The errors that did not end the watch.
    pub rejected: Seq<ErrorView>,
    /// The error that ended the watch.
    pub fatal: Option<ErrorView>,
}

/// What a run of the watch gives: each event is interpreted in turn, with the
/// table that the events before it left, until an error of the kind
/// `WatchFatal` ends the run. An event after that changes nothing.
pub open spec fn watched(
    local: Seq<char>,
    remote: Seq<char>,
    patterns: Seq<Seq<char>>,
    mapping: Map<Seq<char>, Seq<char>>,
    events: Seq<ChangeEvent>,
) -> Watched
    decreases events.len(),
{
    if events.len() == 0 {
        Watched { mapping, jobs: Seq::empty(), rejected: Seq::empty(), fatal: None }
    } else {
        let before = watched(local, remote, patterns, mapping, events.drop_last());
        if before.fatal is Some {
            before
        } else {
            let d = dispatch(local, remote, patterns, before.mapping, events.last());
            match d.result {
                Ok(actions) => Watched {
                    mapping: d.mapping,
                    jobs: before.jobs.push(actions),
                    rejected: before.rejected,
                    fatal: None,
                },
                Err(e) => if e.kind == ErrorKind::WatchFatal {
                    Watched {
                        mapping: d.mapping,
                        jobs: before.jobs,
                        rejected: before.rejected,
                        fatal: Some(e),
                    }
                } else {
                    Watched {
                        mapping: d.mapping,
                        jobs: before.jobs,
                        rejected: before.rejected.push(e),
                        fatal: None,
                    }
                },
            }
        }
    }
}

/// Once an event has ended the watch, the events after it change nothing.
pub proof fn lemma_watched_stops(
    local: Seq<char>,
    remote: Seq<char>,
    patterns: Seq<Seq<char>>,
    mapping: Map<Seq<char>, Seq<char>>,
    events: Seq<ChangeEvent>,
    n: int,
)
    requires
        0 <= n <= events.len(),
        watched(local, remote, patterns, mapping, events.take(n)).fatal is Some,
    ensures
        watched(local, remote, patterns, mapping, events) == watched(
            local,
            remote,
            patterns,
            mapping,
            events.take(n),
        ),
    decreases events.len() - n,
{
    if n == events.len() {
        assert(events.take(n) =~= events);
    } else {
        assert(events.take(n + 1).drop_last() =~= events.take(n));
        lemma_watched_stops(local, remote, patterns, mapping, events, n + 1);
    }
}

/// The outcome of a run of the watch over some events.
#[derive(Debug)]
pub struct WatchRun {
    /// A job for each event that gave no error, in the order of the events.
    pub jobs: Vec<Job>,
    /// The errors that did not end the watch, in the order of the events.
    pub rejected: Vec<SyncError>,
    /// The error that ended the watch, if one did.
    pub fatal: Option<SyncError>,
}

/// Whether every pair of a table obeys the rule of translation: the local
/// path lies inside the watched root, and the remote path is the remote root
/// followed by what follows the watched root in the local path.
pub open spec fn paired(local: Seq<char>, remote: Seq<char>, mapping: Map<Seq<char>, Seq<char>>) -> bool {
    forall|path: Seq<char>| #[trigger]
        mapping.contains_key(path) ==> inside(path, local) && mapping[path] == remote_of(
            path,
            local,
            remote,
        )
}

/// Whether every local path of a table stands in its plain text.
pub open spec fn plain_keys(mapping: Map<Seq<char>, Seq<char>>) -> bool {
    forall|path: Seq<char>| #[trigger] mapping.contains_key(path) ==> canonical(path) == path
}

/// In a table whose pairs obey the rule of translation and whose local paths
/// stand in their plain text, no two pairs share their remote path.
pub proof fn lemma_paired_one_to_one(
    local: Seq<char>,
    remote: Seq<char>,
    mapping: Map<Seq<char>, Seq<char>>,
)
    requires
        paired(local, remote, mapping),
        plain_keys(mapping),
    ensures
        one_to_one(mapping),
{
    assert forall|a: Seq<char>, b: Seq<char>|
        #![trigger mapping[a], mapping[b]]
        mapping.contains_key(a) && mapping.contains_key(b) && a != b implies mapping[a]
        != mapping[b] by {
        lemma_remote_paths_differ(a, b, local, remote);
    }
}

/// The interpreter of change events for one watched root: it holds the two
/// roots, the ignore rules and the table of pairs, and turns each event into
/// the remote operations that the event asks for.
#[derive(Debug)]
pub struct FileWatcher {
    local_directory: String,
    remote_directory: String,
    blocklist: FileBlockList,
    mapping: PathMap,
}

impl FileWatcher {
    /// The watched root, in its plain text.
    pub closed spec fn local(&self) -> Seq<char> {
        self.local_directory@
    }

    /// The remote root, in its plain text.
    pub closed spec fn remote(&self) -> Seq<char> {
        self.remote_directory@
    }

    /// The texts of the patterns of the ignore rules.
    pub closed spec fn patterns(&self) -> Seq<Seq<char>> {
        self.blocklist.patterns()
    }

    /// The table of pairs.
    pub closed spec fn mapping(&self) -> Map<Seq<char>, Seq<char>> {
        self.mapping@
    }

    /// The pairs of the table, in the order in which their local paths first
    /// came.
    pub closed spec fn pairs(&self) -> Seq<(Seq<char>, Seq<char>)> {
        self.mapping.pairs()
    }

    /// What every interpreter keeps: its ignore rules are bound to its
    /// watched root, every pair of its table obeys the rule of translation,
    /// and every local path of the table stands in its plain text.
    pub closed spec fn wf(&self) -> bool {
        &&& self.blocklist.wf()
        &&& self.blocklist.root() == self.local_directory@
        &&& self.mapping.wf()
        &&& paired(self.local_directory@, self.remote_directory@, self.mapping@)
        &&& plain_keys(self.mapping@)
    }

    /// What the table of an interpreter always obeys: the rule of
    /// translation, and that no two pairs share their remote path.
    pub proof fn lemma_table(&self)
        requires
            self.wf(),
        ensures
            paired(self.local(), self.remote(), self.mapping()),
            plain_keys(self.mapping()),
            one_to_one(self.mapping()),
    {
        lemma_paired_one_to_one(self.local(), self.remote(), self.mapping());
    }

    /// An interpreter for the given roots, with the ignore rules of the given
    /// pattern source and an empty table. It fails as the ignore rules do.
    pub fn new(local_directory: &str, remote_directory: &str, source: Option<&str>) -> (r: Result<
        FileWatcher,
        SyncError,
    >)
        ensures
            match r {
                Ok(watcher) => {
                    &&& watcher.wf()
                    &&& watcher.local() == canonical(local_directory@)
                    &&& watcher.remote() == canonical(remote_directory@)
                    &&& watcher.patterns() == patterns_of(source_lines(source_text(source)))
                    &&& watcher.mapping() == Map::<Seq<char>, Seq<char>>::empty()
                    &&& all_accepted(source_lines(source_text(source)))
                    &&& remarks_skipped(source_lines(source_text(source)))
                    &&& source is Some ==> globs_compile(watcher.patterns())
                },
                Err(e) => {
                    &&& e.spec_kind() == ErrorKind::BlockListLoadError
                    &&& source is Some
                    &&& {
                        ||| exists|at: int| #[trigger]
                            first_refused(source_lines(source_text(source)), at)
                                && e.causes().len() == 2 && e.causes()[1] == source_lines(
                                source_text(source),
                            )[at]
                        ||| all_accepted(source_lines(source_text(source))) && !globs_compile(
                            patterns_of(source_lines(source_text(source))),
                        ) && e.causes().len() == 1
                    }
                },
            },
    {
        let blocklist = match FileBlockList::new(local_directory, source) {
            Ok(blocklist) => blocklist,
            Err(e) => {
                return Err(e);
            },
        };
        Ok(
            FileWatcher {
                local_directory: normalize(local_directory),
                remote_directory: normalize(remote_directory),
                blocklist,
                mapping: PathMap::new(),
            },
        )
    }

    /// The watched root, in its plain text.
    pub fn local_directory(&self) -> (root: &String)
        ensures
            root@ == self.local(),
    {
        &self.local_directory
    }

    /// The remote root, in its plain text.
    pub fn remote_directory(&self) -> (root: &String)
        ensures
            root@ == self.remote(),
    {
        &self.remote_directory
    }

    /// The ignore rules of the watched root.
    pub fn blocklist(&self) -> (list: &FileBlockList)
        requires
            self.wf(),
        ensures
            list.wf(),
            list.root() == self.local(),
            list.patterns() == self.patterns(),
    {
        &self.blocklist
    }

    /// The table of pairs.
    pub fn path_map(&self) -> (map: &PathMap)
        requires
            self.wf(),
        ensures
            map.wf(),
            map@ == self.mapping(),
            map.pairs() == self.pairs(),
    {
        &self.mapping
    }

    /// A file that was created (`fresh`) or written to.
    fn write(&mut self, path: String, fresh: bool) -> (r: Result<Vec<RemoteAction>, SyncError>)
        requires
            old(self).wf(),
            canonical(path@) == path@,
        ensures
            final(self).wf(),
            final(self).local() == old(self).local(),
            final(self).remote() == old(self).remote(),
            final(self).patterns() == old(self).patterns(),
            ({
                let d = written(
                    old(self).local(),
                    old(self).remote(),
                    old(self).patterns(),
                    old(self).mapping(),
                    path@,
                    fresh,
                );
                &&& final(self).mapping() == d.mapping
                &&& match r {
                    Ok(actions) => d.result == Ok::<Seq<ActionView>, ErrorView>(
                        action_views(actions@),
                    ),
                    Err(e) => d.result == Err::<Seq<ActionView>, ErrorView>(e@),
                }
            }),
    {
        if self.blocklist.is_blocked(path.as_str()) {
            let none: Vec<RemoteAction> = Vec::new();
            assert(action_views(none@) =~= Seq::<ActionView>::empty());
            return Ok(none);
        }
        let remote_path = match make_remote_path(
            &path,
            &self.local_directory,
            &self.remote_directory,
        ) {
            Ok(remote_path) => remote_path,
            Err(e) => {
                return Err(e);
            },
        };
        if !fresh {
            let mut actions: Vec<RemoteAction> = Vec::new();
            actions.push(RemoteAction::WriteFile { local: path, remote: remote_path });
            assert(action_views(actions@) =~= seq![
                ActionView::WriteFile { local: path@, remote: remote_path@ },
            ]);
            return Ok(actions);
        }
        match upload(path.as_str(), remote_path.as_str()) {
            Ok(actions) => {
                self.mapping.insert(path, remote_path);
                Ok(actions)
            },
            Err(e) => Err(e),
        }
    }

    /// A path that leaves the mirror.
    fn drop_path(&mut self, path: String) -> (r: Result<Vec<RemoteAction>, SyncError>)
        requires
            old(self).wf(),
        ensures
            final(self).wf(),
            final(self).local() == old(self).local(),
            final(self).remote() == old(self).remote(),
            final(self).patterns() == old(self).patterns(),
            ({
                let d = dropped(
                    old(self).local(),
                    old(self).remote(),
                    old(self).mapping(),
                    path@,
                );
                &&& final(self).mapping() == d.mapping
                &&& match r {
                    Ok(actions) => d.result == Ok::<Seq<ActionView>, ErrorView>(
                        action_views(actions@),
                    ),
                    Err(e) => d.result == Err::<Seq<ActionView>, ErrorView>(e@),
                }
            }),
    {
        let remote_path = match make_remote_path(
            &path,
            &self.local_directory,
            &self.remote_directory,
        ) {
            Ok(remote_path) => remote_path,
            Err(e) => {
                return Err(e);
            },
        };
        self.mapping.remove(path.as_str());
        let mut actions: Vec<RemoteAction> = Vec::new();
        actions.push(RemoteAction::Remove(remote_path));
        assert(action_views(actions@) =~= seq![ActionView::Remove(remote_path@)]);
        Ok(actions)
    }

    /// A path that was removed.
    fn remove(&mut self, path: String) -> (r: Result<Vec<RemoteAction>, SyncError>)
        requires
            old(self).wf(),
        ensures
            final(self).wf(),
            final(self).local() == old(self).local(),
            final(self).remote() == old(self).remote(),
            final(self).patterns() == old(self).patterns(),
            ({
                let d = removed(
                    old(self).local(),
                    old(self).remote(),
                    old(self).patterns(),
                    old(self).mapping(),
                    path@,
                );
                &&& final(self).mapping() == d.mapping
                &&& match r {
                    Ok(actions) => d.result == Ok::<Seq<ActionView>, ErrorView>(
                        action_views(actions@),
                    ),
                    Err(e) => d.result == Err::<Seq<ActionView>, ErrorView>(e@),
                }
            }),
    {
        if self.blocklist.is_blocked(path.as_str()) {
            let none: Vec<RemoteAction> = Vec::new();
            assert(action_views(none@) =~= Seq::<ActionView>::empty());
            return Ok(none);
        }
        self.drop_path(path)
    }

    /// A path that was moved.
    fn rename(&mut self, old_path: String, new_path: String) -> (r: Result<
        Vec<RemoteAction>,
        SyncError,
    >)
        requires
            old(self).wf(),
            canonical(new_path@) == new_path@,
        ensures
            final(self).wf(),
            final(self).local() == old(self).local(),
            final(self).remote() == old(self).remote(),
            final(self).patterns() == old(self).patterns(),
            ({
                let d = renamed(
                    old(self).local(),
                    old(self).remote(),
                    old(self).patterns(),
                    old(self).mapping(),
                    old_path@,
                    new_path@,
                );
                &&& final(self).mapping() == d.mapping
                &&& match r {
                    Ok(actions) => d.result == Ok::<Seq<ActionView>, ErrorView>(
                        action_views(actions@),
                    ),
                    Err(e) => d.result == Err::<Seq<ActionView>, ErrorView>(e@),
                }
            }),
    {
        if self.blocklist.is_blocked(new_path.as_str()) {
            if self.mapping.contains_key(old_path.as_str()) {
                return self.drop_path(old_path);
            }
            let none: Vec<RemoteAction> = Vec::new();
            assert(action_views(none@) =~= Seq::<ActionView>::empty());
            return Ok(none);
        }
        let old_remote = match make_remote_path(
            &old_path,
            &self.local_directory,
            &self.remote_directory,
        ) {
            Ok(remote_path) => remote_path,
            Err(e) => {
                return Err(e);
            },
        };
        let new_remote = match make_remote_path(
            &new_path,
            &self.local_directory,
            &self.remote_directory,
        ) {
            Ok(remote_path) => remote_path,
            Err(e) => {
                return Err(e);
            },
        };
        self.mapping.remove(old_path.as_str());
        self.mapping.insert(new_path, new_remote.clone());
        let mut actions: Vec<RemoteAction> = Vec::new();
        actions.push(RemoteAction::Rename { from: old_remote, to: new_remote });
        assert(action_views(actions@) =~= seq![
            ActionView::Rename { from: old_remote@, to: new_remote@ },
        ]);
        Ok(actions)
    }

    /// Interprets one event that is borrowed.
    fn interpret(&mut self, event: &ChangeEvent) -> (r: Result<Vec<RemoteAction>, SyncError>)
        requires
            old(self).wf(),
        ensures
            final(self).wf(),
            final(self).local() == old(self).local(),
            final(self).remote() == old(self).remote(),
            final(self).patterns() == old(self).patterns(),
            ({
                let d = dispatch(
                    old(self).local(),
                    old(self).remote(),
                    old(self).patterns(),
                    old(self).mapping(),
                    *event,
                );
                &&& final(self).mapping() == d.mapping
                &&& match r {
                    Ok(actions) => d.result == Ok::<Seq<ActionView>, ErrorView>(
                        action_views(actions@),
                    ),
                    Err(e) => d.result == Err::<Seq<ActionView>, ErrorView>(e@),
                }
            }),
    {
        match event {
            ChangeEvent::Created(path) => {
                proof {
                    lemma_canonical(path@);
                }
                self.write(normalize(path.as_str()), true)
            },
            ChangeEvent::Modified(path) => {
                proof {
                    lemma_canonical(path@);
                }
                self.write(normalize(path.as_str()), false)
            },
            ChangeEvent::Removed(path) => self.remove(normalize(path.as_str())),
            ChangeEvent::Renamed(old_path, new_path) => {
                proof {
                    lemma_canonical(new_path@);
                }
                self.rename(normalize(old_path.as_str()), normalize(new_path.as_str()))
            },
            ChangeEvent::Error(cause) => Err(SyncError::new(ErrorKind::WatchFatal, cause.clone())),
            ChangeEvent::Resync => Err(
                SyncError::new(
                    ErrorKind::WatchFatal,
                    "the change notifier may have missed changes under the watched root".to_owned(),
                ),
            ),
            ChangeEvent::Notice => {
                let none: Vec<RemoteAction> = Vec::new();
                assert(action_views(none@) =~= Seq::<ActionView>::empty());
                Ok(none)
            },
        }
    }

    /// Interprets one event: the remote operations that it asks for, in the
    /// order in which they are to be attempted, with the table of pairs
    /// brought up to date; or an error. Only an error of the kind
    /// `WatchFatal` ends the watch.
    pub fn handle_event(&mut self, event: ChangeEvent) -> (r: Result<Vec<RemoteAction>, SyncError>)
        requires
            old(self).wf(),
        ensures
            final(self).wf(),
            final(self).local() == old(self).local(),
            final(self).remote() == old(self).remote(),
            final(self).patterns() == old(self).patterns(),
            ({
                let d = dispatch(
                    old(self).local(),
                    old(self).remote(),
                    old(self).patterns(),
                    old(self).mapping(),
                    event,
                );
                &&& final(self).mapping() == d.mapping
                &&& match r {
                    Ok(actions) => d.result == Ok::<Seq<ActionView>, ErrorView>(
                        action_views(actions@),
                    ),
                    Err(e) => d.result == Err::<Seq<ActionView>, ErrorView>(e@),
                }
            }),
    {
        self.interpret(&event)
    }

    /// Takes the given files as the content of the watched tree: the table of
    /// pairs is made anew from them, each path in its plain text, and the
    /// jobs of the initial synchronisation are handed out, one for each pair.
    /// The first file that does not lie inside the watched root ends the work
    /// with the error `PathNotContained`, that file as its cause, and the
    /// table stays as it was.
    pub fn full_sync(&mut self, files: &Vec<String>) -> (r: Result<Vec<Job>, SyncError>)
        requires
            old(self).wf(),
        ensures
            final(self).wf(),
            final(self).local() == old(self).local(),
            final(self).remote() == old(self).remote(),
            final(self).patterns() == old(self).patterns(),
            match r {
                Ok(jobs) => {
                    &&& final(self).mapping() == zipped(
                        texts(files@),
                        old(self).local(),
                        old(self).remote(),
                    )
                    &&& one_to_one(final(self).mapping())
                    &&& jobs.len() == final(self).pairs().len()
                    &&& forall|i: int|
                        0 <= i < jobs.len() ==> (#[trigger] jobs[i]).wf() && jobs[i]@ == pair_job(
                            final(self).pairs()[i].0,
                            final(self).pairs()[i].1,
                        )
                },
                Err(e) => {
                    &&& final(self).mapping() == old(self).mapping()
                    &&& e.spec_kind() == ErrorKind::PathNotContained
                    &&& exists|at: int| #[trigger]
                        first_outside(texts(files@), old(self).local(), at) && e.causes()
                            == seq![files[at]@]
                },
            },
    {
        let mut names: Vec<String> = Vec::new();
        let mut i: usize = 0;
        let ghost wanted = texts(files@);
        assert(texts(names@) =~= wanted.take(0));
        while i < files.len()
            invariant
                i <= files.len(),
                wanted == texts(files@),
                texts(names@) == wanted.take(i as int),
            decreases files.len() - i,
        {
            let name = files[i].clone();
            proof {
                lemma_texts_push(names@, name);
                assert(wanted.take(i as int).push(name@) =~= wanted.take(i + 1));
            }
            names.push(name);
            i = i + 1;
        }
        assert(wanted.take(i as int) =~= wanted);
        let ghost given = names@;
        let map = match zip_local_and_remote(
            names,
            self.local_directory.as_str(),
            self.remote_directory.as_str(),
        ) {
            Ok(map) => map,
            Err(e) => {
                proof {
                    let at = choose|at: int| #[trigger]
                        first_outside(texts(given), self.local_directory@, at) && e.causes()
                            == seq![given[at]@];
                    assert(wanted[at] == given[at]@);
                    assert(wanted[at] == files@[at]@);
                    assert(first_outside(wanted, self.local_directory@, at));
                    assert(e.causes() == seq![files[at]@]);
                }
                return Err(e);
            },
        };
        proof {
            assert forall|path: Seq<char>| #[trigger] map@.contains_key(path) implies inside(
                path,
                self.local_directory@,
            ) by {
                let plain = plain_texts(wanted);
                let k = choose|k: int| 0 <= k < plain.len() && plain[k] == path;
                assert(wanted[k] == given[k]@);
                lemma_canonical(wanted[k]);
            }
            assert(paired(self.local_directory@, self.remote_directory@, map@));
            assert forall|path: Seq<char>| #[trigger] map@.contains_key(path) implies canonical(
                path,
            ) == path by {
                let plain = plain_texts(wanted);
                let k = choose|k: int| 0 <= k < plain.len() && plain[k] == path;
                lemma_canonical(wanted[k]);
            }
        }
        self.mapping = map;
        let jobs = initial_sync(&self.mapping);
        Ok(jobs)
    }

    /// Interprets the events in the order in which they came, up to the first
    /// one that ends the watch: a job for each event that gave no error, the
    /// errors that do not end the watch, and the error that did, if one did.
    /// Nothing that follows that event is looked at.
    pub fn watch(&mut self, events: &Vec<ChangeEvent>) -> (run: WatchRun)
        requires
            old(self).wf(),
        ensures
            final(self).wf(),
            final(self).local() == old(self).local(),
            final(self).remote() == old(self).remote(),
            final(self).patterns() == old(self).patterns(),
            ({
                let w = watched(
                    old(self).local(),
                    old(self).remote(),
                    old(self).patterns(),
                    old(self).mapping(),
                    events@,
                );
                &&& final(self).mapping() == w.mapping
                &&& run.jobs.len() == w.jobs.len()
                &&& forall|i: int|
                    0 <= i < run.jobs.len() ==> (#[trigger] run.jobs[i]).wf() && run.jobs[i]@
                        == started(w.jobs[i])
                &&& error_views(run.rejected@) == w.rejected
                &&& match run.fatal {
                    Some(e) => w.fatal == Some(e@),
                    None => w.fatal is None,
                }
            }),
    {
        let mut jobs: Vec<Job> = Vec::new();
        let mut rejected: Vec<SyncError> = Vec::new();
        let ghost local = self.local();
        let ghost remote = self.remote();
        let ghost patterns = self.patterns();
        let ghost mapping = self.mapping();
        let mut i: usize = 0;
        assert(events@.take(0) =~= Seq::<ChangeEvent>::empty());
        assert(error_views(rejected@) =~= Seq::<ErrorView>::empty());
        while i < events.len()
            invariant
                i <= events.len(),
                self.wf(),
                local == old(self).local(),
                remote == old(self).remote(),
                patterns == old(self).patterns(),
                mapping == old(self).mapping(),
                self.local() == local,
                self.remote() == remote,
                self.patterns() == patterns,
                ({
                    let w = watched(local, remote, patterns, mapping, events@.take(i as int));
                    &&& w.fatal is None
                    &&& self.mapping() == w.mapping
                    &&& jobs.len() == w.jobs.len()
                    &&& forall|j: int|
                        0 <= j < jobs.len() ==> (#[trigger] jobs[j]).wf() && jobs[j]@ == started(
                            w.jobs[j],
                        )
                    &&& error_views(rejected@) == w.rejected
                }),
            decreases events.len() - i,
        {
            let ghost before = error_views(rejected@);
            proof {
                assert(events@.take(i + 1).drop_last() =~= events@.take(i as int));
                assert(events@.take(i + 1).last() == events@[i as int]);
            }
            match self.interpret(&events[i]) {
                Ok(actions) => {
                    jobs.push(Job::new(actions));
                },
                Err(e) => {
                    if e.is_fatal() {
                        proof {
                            lemma_watched_stops(
                                local,
                                remote,
                                patterns,
                                mapping,
                                events@,
                                i + 1,
                            );
                        }
                        return WatchRun { jobs, rejected, fatal: Some(e) };
                    }
                    rejected.push(e);
                    assert(error_views(rejected@) =~= before.push(e@));
                },
            }
            i = i + 1;
        }
        assert(events@.take(i as int) =~= events@);
        WatchRun { jobs, rejected, fatal: None }
    }
}

} // verus!
