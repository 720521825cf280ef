use fs_sync::cli::{Opts, DEFAULT_PORT};
use fs_sync::errors::{label_for, ErrorKind, SyncError};
use fs_sync::text::{split, text_chars, text_of};
use fs_sync::types::PathMap;

fn s(text: &str) -> String {
    text.to_string()
}

#[test]
fn error_keeps_its_causes_when_wrapped() {
    let e = SyncError::new(ErrorKind::HostConnection, s("connection refused"));
    assert_eq!(e.kind(), ErrorKind::HostConnection);
    assert_eq!(e.chain(), &vec![s("connection refused")]);
    let e = e.wrap(s("h:22"));
    assert_eq!(e.kind(), ErrorKind::HostConnection);
    assert_eq!(e.chain(), &vec![s("connection refused"), s("h:22")]);
    assert_eq!(e.message(), "Failed to connect to host: h:22: connection refused");
    assert_eq!(e.duplicate(), e);
    assert!(!e.is_fatal());
    assert!(SyncError::new(ErrorKind::WatchFatal, s("x")).is_fatal());
}

#[test]
fn every_kind_has_a_label() {
    assert_eq!(label_for(ErrorKind::EnvironmentRead), "Failed to read environment variable");
    assert_eq!(label_for(ErrorKind::HostConnection), "Failed to connect to host");
    assert_eq!(
        label_for(ErrorKind::UserAuthentication),
        "Failed to authenticate user with host"
    );
    assert_eq!(
        label_for(ErrorKind::PathNotContained),
        "Path is not inside the watched directory"
    );
    assert_eq!(label_for(ErrorKind::BlockListLoadError), "Failed to load the ignore patterns");
    assert_eq!(label_for(ErrorKind::DirectoryError), "Failed to create directory");
    assert_eq!(label_for(ErrorKind::TransferError), "Failed to transfer file");
    assert_eq!(label_for(ErrorKind::RenameError), "Failed to rename");
    assert_eq!(label_for(ErrorKind::WatchFatal), "The watch cannot go on");
    assert_eq!(
        SyncError::new(ErrorKind::EnvironmentRead, s("USER")).message(),
        "Failed to read environment variable: USER"
    );
}

#[test]
fn default_port_is_the_port_of_the_remote_shell() {
    assert_eq!(DEFAULT_PORT, 22);
    let opts = Opts::new(s("/w"), s("h"), s("/r"), None);
    assert_eq!(opts.port, 22);
    assert_eq!(opts.target(), "h:22");
    let opts = Opts::new(s("/w"), s("h"), s("/r"), Some(42));
    assert_eq!(opts.port, 42);
    assert_eq!(opts.target(), "h:42");
    assert_eq!(opts.local_path, "/w");
    assert_eq!(opts.host, "h");
    assert_eq!(opts.host_path, "/r");
}

#[test]
fn text_is_split_at_every_separator() {
    assert_eq!(split("a\nb\n", '\n'), vec!["a", "b", ""]);
    assert_eq!(split("", '\n'), vec![""]);
    assert_eq!(split("\n\n", '\n'), vec!["", "", ""]);
    assert_eq!(split("no separator", '\n'), vec!["no separator"]);
    assert_eq!(text_chars("héllo"), vec!['h', 'é', 'l', 'l', 'o']);
    assert_eq!(text_of(&vec!['o', 'k']), "ok");
}

#[test]
fn path_map_replaces_and_removes() {
    let mut map = PathMap::new();
    assert!(map.is_empty());
    map.insert(s("/w/a"), s("/r/a"));
    map.insert(s("/w/b"), s("/r/b"));
    map.insert(s("/w/a"), s("/r/a2"));
    assert_eq!(map.len(), 2);
    assert_eq!(map.get("/w/a"), Some(&s("/r/a2")));
    assert_eq!(
        map.entries(),
        &vec![(s("/w/a"), s("/r/a2")), (s("/w/b"), s("/r/b"))]
    );
    assert_eq!(map.remove("/w/a"), Some(s("/r/a2")));
    assert_eq!(map.remove("/w/a"), None);
    assert!(!map.contains_key("/w/a"));
    assert!(map.contains_key("/w/b"));
    assert_eq!(map.get("/w/zzz"), None);

    let mut other = PathMap::new();
    other.insert(s("/w/b"), s("/r/b"));
    assert!(map.same_as(&other));
    other.insert(s("/w/c"), s("/r/c"));
    assert!(!map.same_as(&other));
    assert!(!other.same_as(&map));
    map.insert(s("/w/c"), s("/r/other"));
    assert!(!map.same_as(&other));
    // the order of the entries does not matter
    let mut x = PathMap::new();
    x.insert(s("1"), s("a"));
    x.insert(s("2"), s("b"));
    let mut y = PathMap::new();
    y.insert(s("2"), s("b"));
    y.insert(s("1"), s("a"));
    assert!(x.same_as(&y));
}
