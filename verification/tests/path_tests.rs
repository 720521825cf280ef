use fs_sync::errors::ErrorKind;
use fs_sync::paths::{
    climbs, generate_remote_path, has_root, make_remote_path, render, split_segments,
    strip_prefix, tail_segments, zip_local_and_remote,
};
use fs_sync::types::PathMap;

#[test]
fn generate_remote_path_works() {
    let file = "src/main.rs".to_string();
    let directory = "/x/y/z".to_string();

    assert_eq!(
        generate_remote_path(file, &directory),
        "/x/y/z/src/main.rs".to_string()
    )
}

#[test]
fn path_is_made_relative() {
    let file = "/a/b/c/fs-sync/src/main.rs";
    let directory = "/a/b/c/fs-sync/";
    assert_eq!(
        strip_prefix(file, directory).unwrap(),
        "src/main.rs".to_string()
    )
}

#[test]
fn make_remote_path_works() {
    let file = "/a/b/c/fs-sync/src/main.rs".to_string();
    let directory = "/a/b/c/fs-sync".to_string();
    let remote = "/x/y/z".to_string();

    let remote_path = make_remote_path(&file, &directory, &remote).unwrap();
    assert_eq!(remote_path, "/x/y/z/src/main.rs")
}

#[test]
fn zip_local_and_remote_works() {
    let a = "/a/b/c/fs-sync/cargo.toml".to_string();
    let b = "/a/b/c/fs-sync/src/main.rs".to_string();
    let list = vec![a, b];

    let watched_path = "/a/b/c/fs-sync/".to_string();
    let map_actual = zip_local_and_remote(list, &watched_path, "/x/y/z/").unwrap();

    let mut map_comp = PathMap::new();

    map_comp.insert(
        "/a/b/c/fs-sync/cargo.toml".to_string(),
        "/x/y/z/cargo.toml".to_string(),
    );
    map_comp.insert(
        "/a/b/c/fs-sync/src/main.rs".to_string(),
        "/x/y/z/src/main.rs".to_string(),
    );

    assert!(map_actual.same_as(&map_comp));
    assert_eq!(map_actual.len(), 2);
    assert_eq!(
        map_actual.get("/a/b/c/fs-sync/cargo.toml"),
        Some(&"/x/y/z/cargo.toml".to_string())
    );
    assert_eq!(
        map_actual.get("/a/b/c/fs-sync/src/main.rs"),
        Some(&"/x/y/z/src/main.rs".to_string())
    );
}

#[test]
fn segments_skip_empty_pieces_and_dots() {
    assert_eq!(split_segments("/a//b/./c/"), vec!["a", "b", "c"]);
    assert_eq!(split_segments("a/../b"), vec!["a", "..", "b"]);
    assert_eq!(split_segments("./a"), vec!["a"]);
    assert_eq!(split_segments(""), Vec::<String>::new());
    assert_eq!(split_segments("/"), Vec::<String>::new());
    assert_eq!(split_segments("..."), vec!["..."]);
}

#[test]
fn root_is_told_by_the_first_character() {
    assert!(has_root("/a"));
    assert!(has_root("/"));
    assert!(!has_root("a/b"));
    assert!(!has_root(""));
}

#[test]
fn render_writes_separators_between_segments() {
    let segs = vec!["a".to_string(), "b".to_string()];
    assert_eq!(render(true, &segs), "/a/b");
    assert_eq!(render(false, &segs), "a/b");
    assert_eq!(render(true, &Vec::new()), "/");
    assert_eq!(render(false, &Vec::new()), "");
}

#[test]
fn path_outside_the_root_is_not_contained() {
    let err = strip_prefix("/other/a.txt", "/w").unwrap_err();
    assert_eq!(err.kind(), ErrorKind::PathNotContained);
    assert_eq!(err.chain(), &vec!["/other/a.txt".to_string()]);

    let file = "/wx/a.txt".to_string();
    let err = make_remote_path(&file, &"/w".to_string(), &"/r".to_string()).unwrap_err();
    assert_eq!(err.kind(), ErrorKind::PathNotContained);

    // a relative path does not lie inside a root that is absolute
    assert!(strip_prefix("w/a.txt", "/w").is_err());
    // a root that is longer than the path
    assert!(strip_prefix("/w", "/w/a").is_err());
}

#[test]
fn the_root_itself_maps_to_the_remote_root() {
    assert_eq!(strip_prefix("/w", "/w/").unwrap(), "");
    let r = make_remote_path(&"/w".to_string(), &"/w".to_string(), &"/r".to_string()).unwrap();
    assert_eq!(r, "/r");
}

#[test]
fn traversal_segments_are_kept_as_they_stand() {
    let r = make_remote_path(
        &"/w/a/../b.txt".to_string(),
        &"/w".to_string(),
        &"/r".to_string(),
    )
    .unwrap();
    assert_eq!(r, "/r/a/../b.txt");
}

#[test]
fn remote_path_round_trip() {
    let watched = "/w".to_string();
    let remote = "/r/mirror".to_string();
    let file = "/w/b/c.txt".to_string();
    let there = make_remote_path(&file, &watched, &remote).unwrap();
    assert_eq!(there, "/r/mirror/b/c.txt");
    let tail = strip_prefix(&there, &remote).unwrap();
    assert_eq!(tail, "b/c.txt");
    assert_eq!(tail, strip_prefix(&file, &watched).unwrap());
    assert_eq!(generate_remote_path(tail, &watched), file);
}

#[test]
fn an_absolute_file_stands_for_itself_when_joined() {
    assert_eq!(generate_remote_path("/abs/file".to_string(), "/x"), "/abs/file");
    assert_eq!(generate_remote_path("rel".to_string(), "x/y"), "x/y/rel");
}

#[test]
fn zip_stops_at_the_first_file_outside() {
    let list = vec![
        "/w/a.txt".to_string(),
        "/elsewhere/b.txt".to_string(),
        "/nowhere/c.txt".to_string(),
    ];
    let err = zip_local_and_remote(list, "/w", "/r").unwrap_err();
    assert_eq!(err.kind(), ErrorKind::PathNotContained);
    assert_eq!(err.chain(), &vec!["/elsewhere/b.txt".to_string()]);
}

#[test]
fn initial_mapping_of_a_small_tree() {
    let list = vec!["/w/a.txt".to_string(), "/w/b/c.txt".to_string()];
    let map = zip_local_and_remote(list, "/w", "/r").unwrap();
    assert_eq!(map.len(), 2);
    assert_eq!(map.get("/w/a.txt"), Some(&"/r/a.txt".to_string()));
    assert_eq!(map.get("/w/b/c.txt"), Some(&"/r/b/c.txt".to_string()));
}

#[test]
fn traversal_out_of_the_root_is_rejected() {
    let err = make_remote_path(
        &"/w/../etc/passwd".to_string(),
        &"/w".to_string(),
        &"/r".to_string(),
    )
    .unwrap_err();
    assert_eq!(err.kind(), ErrorKind::PathNotContained);
    assert_eq!(err.chain(), &vec!["/w/../etc/passwd".to_string()]);

    // out and back in again is out all the same: nothing is resolved
    assert!(strip_prefix("/w/../w/a.txt", "/w").is_err());
    assert!(strip_prefix("/w/a/../../b", "/w").is_err());
    assert!(strip_prefix("/w/..", "/w").is_err());
    assert_eq!(tail_segments("/w/../x", "/w"), None);
    // up and down inside the root stays inside
    assert_eq!(strip_prefix("/w/a/b/../../c", "/w").unwrap(), "a/b/../../c");
    assert_eq!(
        tail_segments("/w/a/..", "/w"),
        Some(vec!["a".to_string(), "..".to_string()])
    );
    // three dots are a name like any other
    assert_eq!(strip_prefix("/w/.../x", "/w").unwrap(), ".../x");
}

#[test]
fn climbing_is_told_from_the_segments() {
    let segs = |names: &[&str]| names.iter().map(|n| n.to_string()).collect::<Vec<String>>();
    assert!(!climbs(&segs(&[])));
    assert!(!climbs(&segs(&["a", "b"])));
    assert!(!climbs(&segs(&["a", ".."])));
    assert!(climbs(&segs(&[".."])));
    assert!(climbs(&segs(&["a", "..", ".."])));
    assert!(climbs(&segs(&["..", "a", "b"])));
    assert!(!climbs(&segs(&["a", "b", "..", "..", "c"])));
}

#[test]
fn zip_stops_at_a_file_that_climbs_out() {
    let list = vec!["/w/a.txt".to_string(), "/w/../b.txt".to_string()];
    let err = zip_local_and_remote(list, "/w", "/r").unwrap_err();
    assert_eq!(err.kind(), ErrorKind::PathNotContained);
    assert_eq!(err.chain(), &vec!["/w/../b.txt".to_string()]);
}

#[test]
fn two_spellings_of_one_path_make_one_pair() {
    let list = vec![
        "/w/a.txt".to_string(),
        "/w/a.txt/".to_string(),
        "/w//./a.txt".to_string(),
        "/w/b.txt".to_string(),
    ];
    let map = zip_local_and_remote(list, "/w", "/r").unwrap();
    assert_eq!(map.len(), 2);
    assert_eq!(map.get("/w/a.txt"), Some(&"/r/a.txt".to_string()));
    assert_eq!(map.get("/w/b.txt"), Some(&"/r/b.txt".to_string()));
    assert!(!map.contains_key("/w/a.txt/"));
    // no two pairs share their remote path
    let entries = map.entries();
    assert_ne!(entries[0].1, entries[1].1);
}
