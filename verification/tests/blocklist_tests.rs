use fs_sync::errors::ErrorKind;
use fs_sync::blocklist::{strongest_of, FileBlockList};
use fs_sync::matcher::PatternMatch;

const TEST_DATA_PATTERNS: &str =
    "# what the editor leaves behind\n*.iml\n.idea/\n\ntarget/\n**/*.rs.bk\nCargo.lock\n";

#[test]
fn blocklist_accepts_files() {
    let blocklist =
        FileBlockList::new("/Users/dbarsky/Developer/Rust/fs-sync/", Some(TEST_DATA_PATTERNS))
            .expect("Failed to open .gitignore file");

    let arb_path = "/Users/dbarsky/Developer/Rust/fs-sync/Cargo.toml";
    let res = blocklist.any_match(arb_path);
    assert!(res == PatternMatch::NoMatch)
}

#[test]
fn blocklist_ignores_files() {
    let path = "./test-data/";
    let blocklist = FileBlockList::new(path, Some(TEST_DATA_PATTERNS))
        .expect("Failed to open .gitignore file");

    let arb_path = "a/b/c/fs-sync.iml";
    let res = blocklist.any_match(arb_path);
    assert!(res == PatternMatch::Ignore);
}

#[test]
fn assert_blocklist_has_contents() {
    let path = "./test-data";
    let blocklist = FileBlockList::new(path, Some(TEST_DATA_PATTERNS))
        .expect("Failed to open .gitignore file");
    assert_eq!(blocklist.len(), 5);
}

#[test]
fn missing_source_permits_all() {
    let list = FileBlockList::new("/w", None).unwrap();
    assert_eq!(list.len(), 0);
    assert!(list.is_empty());
    assert!(!list.is_blocked("/w/a.txt"));
    assert!(!list.is_blocked("/w/target/debug/x"));
    assert!(!list.is_blocked("anything"));
}

#[test]
fn file_under_blocked_directory_is_blocked() {
    let list = FileBlockList::new("/w", Some("target/\n")).unwrap();
    assert!(!list.is_empty());
    assert!(list.is_blocked("/w/target"));
    // the file itself matches no pattern
    assert!(list.is_blocked("/w/target/debug/build.log"));
    assert!(list.is_blocked("/w/sub/target/x"));
    assert!(!list.is_blocked("/w/src/main.rs"));
    assert_eq!(list.any_match("/w/src/main.rs"), PatternMatch::NoMatch);
}

#[test]
fn inclusion_does_not_reach_into_a_blocked_directory() {
    let list = FileBlockList::new("/w", Some("build/\n!keep.txt\n")).unwrap();
    assert_eq!(list.len(), 2);
    assert!(list.is_blocked("/w/build"));
    assert!(list.is_blocked("/w/build/keep.txt"));
    assert_eq!(list.any_match("/w/keep.txt"), PatternMatch::Whitelist);
    assert!(!list.is_blocked("/w/keep.txt"));
}

#[test]
fn patterns_are_anchored_at_the_root() {
    let list = FileBlockList::new("/w/", Some("/only-here.txt\ndocs/*.tmp")).unwrap();
    assert!(list.is_blocked("/w/only-here.txt"));
    assert!(!list.is_blocked("/w/sub/only-here.txt"));
    assert!(list.is_blocked("/w/docs/a.tmp"));
    assert!(!list.is_blocked("/w/other/docs/a.tmp"));
    assert!(list.is_blocked("/w//docs/./a.tmp"));
}

#[test]
fn paths_outside_the_root_are_not_blocked() {
    let list = FileBlockList::new("/w", Some("*.iml\n")).unwrap();
    assert!(list.is_blocked("/w/x.iml"));
    assert!(!list.is_blocked("/elsewhere/x.iml"));
    assert_eq!(list.any_match("/elsewhere/x.iml"), PatternMatch::NoMatch);
    // a relative path is read from the root
    assert!(list.is_blocked("x.iml"));
}

#[test]
fn malformed_pattern_is_a_load_error() {
    let err = FileBlockList::new("/w", Some("ok.txt\na[\\\nnever.txt\n")).unwrap_err();
    assert_eq!(err.kind(), ErrorKind::BlockListLoadError);
    assert_eq!(err.chain().len(), 2);
    assert_eq!(err.chain()[1], "a[\\");
    let err = FileBlockList::new("/w", Some("{a,b\n")).unwrap_err();
    assert_eq!(err.kind(), ErrorKind::BlockListLoadError);
}

#[test]
fn comments_and_blank_lines_are_no_patterns() {
    let list = FileBlockList::new("/w", Some("# only a comment\n\n")).unwrap();
    assert_eq!(list.len(), 0);
    assert!(list.is_empty());
    assert!(!list.is_blocked("/w/a"));
    let list = FileBlockList::new("/w", Some("")).unwrap();
    assert!(list.is_empty());
}

#[test]
fn strongest_answer_prefers_exclusion() {
    let none = PatternMatch::NoMatch;
    let white = PatternMatch::Whitelist;
    let ignore = PatternMatch::Ignore;
    assert_eq!(strongest_of(&vec![]), none);
    assert_eq!(strongest_of(&vec![none, none]), none);
    assert_eq!(strongest_of(&vec![none, white, none]), white);
    assert_eq!(strongest_of(&vec![white, ignore]), ignore);
    assert_eq!(strongest_of(&vec![ignore, white, none]), ignore);
}

#[test]
fn byte_order_mark_at_the_head_is_dropped() {
    let list = FileBlockList::new("/w", Some("\u{feff}*.iml\ntarget/\n")).unwrap();
    assert_eq!(list.len(), 2);
    assert!(list.is_blocked("/w/x.iml"));
    assert!(list.is_blocked("/w/target/x"));
    let list = FileBlockList::new("/w", Some("\u{feff}\u{feff}# only a comment")).unwrap();
    assert!(list.is_empty());
    // a mark further on is part of its line
    let list = FileBlockList::new("/w", Some("a.txt\n\u{feff}b.txt")).unwrap();
    assert!(list.is_blocked("/w/a.txt"));
    assert!(!list.is_blocked("/w/b.txt"));
}

#[test]
fn a_path_that_climbs_out_of_the_root_is_not_blocked() {
    let list = FileBlockList::new("/w", Some("*.iml\n")).unwrap();
    assert!(list.is_blocked("/w/a/../x.iml"));
    assert!(!list.is_blocked("/w/../x.iml"));
    assert!(list.is_blocked("a/x.iml"));
    assert!(!list.is_blocked("../x.iml"));
}

#[test]
fn root_with_a_leading_dot_is_read_plainly() {
    let list = FileBlockList::new("./w", Some("/only-here.txt\n")).unwrap();
    assert!(list.is_blocked("./w/only-here.txt"));
    assert!(list.is_blocked("w/only-here.txt"));
    assert!(!list.is_blocked("w/sub/only-here.txt"));
}
