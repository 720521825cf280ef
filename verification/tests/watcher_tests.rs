use fs_sync::errors::ErrorKind;
use fs_sync::blocklist::FileBlockList;
use fs_sync::local::{visit_dirs, WalkEntry};
use fs_sync::watcher::{ChangeEvent, FileWatcher};
use fs_sync::memory::MemoryEndpoint;
use fs_sync::remote::{Job, RemoteAction, Request};

fn s(text: &str) -> String {
    text.to_string()
}

fn watcher(patterns: Option<&str>) -> FileWatcher {
    FileWatcher::new("/w", "/r", patterns).unwrap()
}

fn endpoint_with(dirs: &[&str]) -> MemoryEndpoint {
    let mut endpoint = MemoryEndpoint::new();
    for d in dirs {
        endpoint.plant_directory(d);
    }
    endpoint
}

#[test]
fn created_file_ensures_the_directory_and_writes() {
    let mut w = watcher(Some("*.tmp\n"));
    let actions = w.handle_event(ChangeEvent::Created(s("/w/a.txt"))).unwrap();
    assert_eq!(
        actions,
        vec![
            RemoteAction::EnsureDirectory(s("/r")),
            RemoteAction::WriteFile { local: s("/w/a.txt"), remote: s("/r/a.txt") },
        ]
    );
    assert_eq!(w.path_map().get("/w/a.txt"), Some(&s("/r/a.txt")));
    assert_eq!(w.path_map().len(), 1);
    assert_eq!(w.local_directory(), "/w");
    assert_eq!(w.remote_directory(), "/r");

    // against a remote tree: one look for the directory, one write
    let mut endpoint = endpoint_with(&["/", "/r"]);
    let mut job = Job::new(actions);
    endpoint.run(&mut job);
    assert!(job.is_finished());
    assert!(job.failure().is_none());
    assert_eq!(
        endpoint.calls(),
        &vec![
            Request::Stat(s("/r")),
            Request::Write { local: s("/w/a.txt"), remote: s("/r/a.txt") },
        ]
    );
    assert_eq!(endpoint.file_source("/r/a.txt"), Some(&s("/w/a.txt")));
}

#[test]
fn created_file_in_a_new_directory_makes_the_directory_first() {
    let mut w = watcher(None);
    let actions = w.handle_event(ChangeEvent::Created(s("/w/b/c.txt"))).unwrap();
    assert_eq!(
        actions,
        vec![
            RemoteAction::EnsureDirectory(s("/r/b")),
            RemoteAction::WriteFile { local: s("/w/b/c.txt"), remote: s("/r/b/c.txt") },
        ]
    );
    let mut endpoint = endpoint_with(&["/", "/r"]);
    let mut job = Job::new(actions);
    endpoint.run(&mut job);
    assert!(job.failure().is_none());
    assert_eq!(
        endpoint.calls(),
        &vec![
            Request::Stat(s("/r/b")),
            Request::Mkdir(s("/r/b")),
            Request::Write { local: s("/w/b/c.txt"), remote: s("/r/b/c.txt") },
        ]
    );
    assert!(endpoint.has_directory("/r/b"));
}

#[test]
fn modified_file_is_written_again() {
    let mut w = watcher(None);
    let actions = w.handle_event(ChangeEvent::Modified(s("/w/a.txt"))).unwrap();
    assert_eq!(
        actions,
        vec![RemoteAction::WriteFile { local: s("/w/a.txt"), remote: s("/r/a.txt") }]
    );
    assert!(w.path_map().is_empty());
}

#[test]
fn blocked_paths_are_skipped_silently() {
    let mut w = watcher(Some("*.tmp\nbuild/\n"));
    assert_eq!(w.handle_event(ChangeEvent::Created(s("/w/x.tmp"))).unwrap(), vec![]);
    assert_eq!(w.handle_event(ChangeEvent::Modified(s("/w/build/out.o"))).unwrap(), vec![]);
    assert_eq!(w.handle_event(ChangeEvent::Removed(s("/w/build/out.o"))).unwrap(), vec![]);
    assert!(w.path_map().is_empty());
}

#[test]
fn renamed_file_is_moved_and_the_pair_replaced() {
    let mut w = watcher(None);
    w.handle_event(ChangeEvent::Created(s("/w/old.txt"))).unwrap();
    assert!(w.path_map().contains_key("/w/old.txt"));

    let actions = w
        .handle_event(ChangeEvent::Renamed(s("/w/old.txt"), s("/w/new.txt")))
        .unwrap();
    assert_eq!(
        actions,
        vec![RemoteAction::Rename { from: s("/r/old.txt"), to: s("/r/new.txt") }]
    );
    assert!(!w.path_map().contains_key("/w/old.txt"));
    assert_eq!(w.path_map().get("/w/new.txt"), Some(&s("/r/new.txt")));
    assert_eq!(w.path_map().len(), 1);

    let mut endpoint = endpoint_with(&["/", "/r"]);
    endpoint.perform(Request::Write { local: s("/w/old.txt"), remote: s("/r/old.txt") });
    let mut job = Job::new(actions);
    endpoint.run(&mut job);
    assert!(job.failure().is_none());
    assert_eq!(endpoint.calls().len(), 2);
    assert_eq!(
        endpoint.calls()[1],
        Request::Rename { from: s("/r/old.txt"), to: s("/r/new.txt") }
    );
    assert_eq!(endpoint.file_source("/r/new.txt"), Some(&s("/w/old.txt")));
    assert_eq!(endpoint.file_source("/r/old.txt"), None);
}

#[test]
fn rename_into_a_blocked_name_removes_a_tracked_file() {
    let mut w = watcher(Some("*.bak\n"));
    w.handle_event(ChangeEvent::Created(s("/w/a.txt"))).unwrap();
    let actions = w
        .handle_event(ChangeEvent::Renamed(s("/w/a.txt"), s("/w/a.bak")))
        .unwrap();
    assert_eq!(actions, vec![RemoteAction::Remove(s("/r/a.txt"))]);
    assert!(w.path_map().is_empty());

    // an old path that the table does not hold: nothing to do
    let actions = w
        .handle_event(ChangeEvent::Renamed(s("/w/b.txt"), s("/w/b.bak")))
        .unwrap();
    assert_eq!(actions, vec![]);
}

#[test]
fn removed_file_is_removed_once_and_twice() {
    let mut w = watcher(None);
    w.handle_event(ChangeEvent::Created(s("/w/gone.txt"))).unwrap();

    let mut endpoint = endpoint_with(&["/", "/r"]);
    endpoint.perform(Request::Write { local: s("/w/gone.txt"), remote: s("/r/gone.txt") });

    let actions = w.handle_event(ChangeEvent::Removed(s("/w/gone.txt"))).unwrap();
    assert_eq!(actions, vec![RemoteAction::Remove(s("/r/gone.txt"))]);
    assert!(w.path_map().is_empty());
    let mut job = Job::new(actions);
    endpoint.run(&mut job);
    assert!(job.failure().is_none());
    assert_eq!(endpoint.calls().len(), 2);
    assert_eq!(endpoint.calls()[1], Request::Unlink(s("/r/gone.txt")));
    assert_eq!(endpoint.file_source("/r/gone.txt"), None);

    // the same event, delivered again
    let actions = w.handle_event(ChangeEvent::Removed(s("/w/gone.txt"))).unwrap();
    assert_eq!(actions, vec![RemoteAction::Remove(s("/r/gone.txt"))]);
    let mut job = Job::new(actions);
    endpoint.run(&mut job);
    assert!(job.is_finished());
    assert!(job.failure().is_none());
    assert_eq!(endpoint.calls().len(), 3);
}

#[test]
fn resync_is_fatal_and_asks_for_nothing() {
    let mut w = watcher(None);
    let err = w.handle_event(ChangeEvent::Resync).unwrap_err();
    assert_eq!(err.kind(), ErrorKind::WatchFatal);
    assert!(err.is_fatal());
    assert!(w.path_map().is_empty());

    let err = w.handle_event(ChangeEvent::Error(s("queue overflow"))).unwrap_err();
    assert_eq!(err.kind(), ErrorKind::WatchFatal);
    assert_eq!(err.chain(), &vec![s("queue overflow")]);
}

#[test]
fn resync_ends_the_watch() {
    let mut w = watcher(Some("*.tmp\n"));
    let events = vec![
        ChangeEvent::Created(s("/w/a.txt")),
        ChangeEvent::Created(s("/elsewhere/b.txt")),
        ChangeEvent::Notice,
        ChangeEvent::Resync,
        ChangeEvent::Created(s("/w/never.txt")),
    ];
    let run = w.watch(&events);
    let fatal = run.fatal.expect("the watch ends");
    assert_eq!(fatal.kind(), ErrorKind::WatchFatal);
    // a job for the first event and an empty one for the notice
    assert_eq!(run.jobs.len(), 2);
    assert!(!run.jobs[0].is_finished());
    assert!(run.jobs[1].is_finished());
    assert_eq!(run.rejected.len(), 1);
    assert_eq!(run.rejected[0].kind(), ErrorKind::PathNotContained);
    assert!(!run.rejected[0].is_fatal());
    // nothing after the resync was looked at
    assert!(!w.path_map().contains_key("/w/never.txt"));
    assert!(w.path_map().contains_key("/w/a.txt"));

    // a resync alone: no remote operation at all
    let mut w = watcher(None);
    let run = w.watch(&vec![ChangeEvent::Resync]);
    assert!(run.jobs.is_empty());
    assert!(run.rejected.is_empty());
    assert!(run.fatal.is_some());
}

#[test]
fn watch_without_fatal_event_goes_through_all_events() {
    let mut w = watcher(None);
    let events = vec![
        ChangeEvent::Created(s("/w/a.txt")),
        ChangeEvent::Modified(s("/w/a.txt")),
        ChangeEvent::Removed(s("/w/a.txt")),
    ];
    let run = w.watch(&events);
    assert!(run.fatal.is_none());
    assert!(run.rejected.is_empty());
    assert_eq!(run.jobs.len(), 3);
    assert_eq!(
        run.jobs[2].request(),
        Some(Request::Unlink(s("/r/a.txt")))
    );
    assert!(w.path_map().is_empty());
}

#[test]
fn metadata_notice_is_a_no_op() {
    let mut w = watcher(None);
    assert_eq!(w.handle_event(ChangeEvent::Notice).unwrap(), vec![]);
    assert!(w.path_map().is_empty());
}

#[test]
fn event_outside_the_watched_root_is_rejected() {
    let mut w = watcher(None);
    let err = w.handle_event(ChangeEvent::Created(s("/other/a.txt"))).unwrap_err();
    assert_eq!(err.kind(), ErrorKind::PathNotContained);
    assert!(!err.is_fatal());
    assert_eq!(err.chain(), &vec![s("/other/a.txt")]);
    let err = w
        .handle_event(ChangeEvent::Renamed(s("/w/a"), s("/other/b")))
        .unwrap_err();
    assert_eq!(err.chain(), &vec![s("/other/b")]);
}

#[test]
fn event_paths_are_taken_in_plain_text() {
    let mut w = FileWatcher::new("/w/", "/r/", None).unwrap();
    let actions = w.handle_event(ChangeEvent::Created(s("/w//sub/./a.txt"))).unwrap();
    assert_eq!(
        actions,
        vec![
            RemoteAction::EnsureDirectory(s("/r/sub")),
            RemoteAction::WriteFile { local: s("/w/sub/a.txt"), remote: s("/r/sub/a.txt") },
        ]
    );
    assert!(w.path_map().contains_key("/w/sub/a.txt"));
}

#[test]
fn created_root_has_no_directory_above_its_counterpart() {
    let mut w = FileWatcher::new("/w", "/", None).unwrap();
    let err = w.handle_event(ChangeEvent::Created(s("/w"))).unwrap_err();
    assert_eq!(err.kind(), ErrorKind::DirectoryError);
    assert_eq!(err.chain(), &vec![s("/")]);
}

#[test]
fn watcher_fails_as_its_blocklist_does() {
    let err = FileWatcher::new("/w", "/r", Some("{a,b\n")).unwrap_err();
    assert_eq!(err.kind(), ErrorKind::BlockListLoadError);
}

#[test]
fn full_sync_builds_the_table_and_the_jobs() {
    let mut w = watcher(None);
    let files = vec![s("/w/a.txt"), s("/w/b/c.txt")];
    let mut jobs = w.full_sync(&files).unwrap();
    assert_eq!(w.path_map().len(), 2);
    assert_eq!(w.path_map().get("/w/a.txt"), Some(&s("/r/a.txt")));
    assert_eq!(w.path_map().get("/w/b/c.txt"), Some(&s("/r/b/c.txt")));
    assert_eq!(jobs.len(), 2);

    let mut endpoint = endpoint_with(&["/"]);
    endpoint.plant_directory("/r");
    for job in jobs.iter_mut() {
        endpoint.run(job);
    }
    assert!(fs_sync::remote::sync_report(&jobs).is_ok());
    assert_eq!(endpoint.file_source("/r/a.txt"), Some(&s("/w/a.txt")));
    assert_eq!(endpoint.file_source("/r/b/c.txt"), Some(&s("/w/b/c.txt")));
    assert!(endpoint.has_directory("/r/b"));
}

#[test]
fn full_sync_refuses_a_file_outside_the_root() {
    let mut w = watcher(None);
    w.handle_event(ChangeEvent::Created(s("/w/kept.txt"))).unwrap();
    let err = w.full_sync(&vec![s("/w/a.txt"), s("/x//b.txt")]).unwrap_err();
    assert_eq!(err.kind(), ErrorKind::PathNotContained);
    assert_eq!(err.chain(), &vec![s("/x//b.txt")]);
    // the table is as it was
    assert_eq!(w.path_map().len(), 1);
    assert!(w.path_map().contains_key("/w/kept.txt"));
}

#[test]
fn walk_keeps_regular_files_that_are_not_blocked() {
    let list = FileBlockList::new("/w", Some("target/\n*.log\n")).unwrap();
    let entries = vec![
        WalkEntry::Found { path: s("/w"), is_file: false },
        WalkEntry::Found { path: s("/w/a.txt"), is_file: true },
        WalkEntry::Found { path: s("/w/b"), is_file: false },
        WalkEntry::Unreadable(s("/w/locked: permission denied")),
        WalkEntry::Found { path: s("/w/b/c.txt"), is_file: true },
        WalkEntry::Found { path: s("/w/target/debug/app"), is_file: true },
        WalkEntry::Found { path: s("/w/b/trace.log"), is_file: true },
    ];
    assert_eq!(visit_dirs(&entries, &list), vec![s("/w/a.txt"), s("/w/b/c.txt")]);
    assert_eq!(visit_dirs(&Vec::new(), &list), Vec::<String>::new());
}

#[test]
fn only_regular_files_are_created_or_modified() {
    assert_eq!(
        ChangeEvent::created(s("/w/a.txt"), true),
        ChangeEvent::Created(s("/w/a.txt"))
    );
    assert_eq!(ChangeEvent::created(s("/w/dir"), false), ChangeEvent::Notice);
    assert_eq!(
        ChangeEvent::modified(s("/w/a.txt"), true),
        ChangeEvent::Modified(s("/w/a.txt"))
    );
    assert_eq!(ChangeEvent::modified(s("/w/dir"), false), ChangeEvent::Notice);
}

#[test]
fn event_that_climbs_out_of_the_root_is_rejected() {
    let mut w = watcher(None);
    let err = w
        .handle_event(ChangeEvent::Created(s("/w/../etc/passwd")))
        .unwrap_err();
    assert_eq!(err.kind(), ErrorKind::PathNotContained);
    assert_eq!(err.chain(), &vec![s("/w/../etc/passwd")]);
    assert!(w.path_map().is_empty());
    let err = w
        .handle_event(ChangeEvent::Renamed(s("/w/a"), s("/w/../a")))
        .unwrap_err();
    assert_eq!(err.kind(), ErrorKind::PathNotContained);
    let err = w.handle_event(ChangeEvent::Removed(s("/w/x/../../y"))).unwrap_err();
    assert_eq!(err.kind(), ErrorKind::PathNotContained);
}

#[test]
fn full_sync_keys_the_table_by_plain_text() {
    let mut w = watcher(None);
    let files = vec![s("/w/a.txt"), s("/w//a.txt"), s("/w/b/./c.txt")];
    let jobs = w.full_sync(&files).unwrap();
    assert_eq!(jobs.len(), 2);
    assert_eq!(w.path_map().len(), 2);
    assert_eq!(w.path_map().get("/w/a.txt"), Some(&s("/r/a.txt")));
    assert_eq!(w.path_map().get("/w/b/c.txt"), Some(&s("/r/b/c.txt")));
}
