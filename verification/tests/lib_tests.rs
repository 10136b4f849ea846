use xio::walk::first_failure;
use xio::{is_git_dir, is_hidden, is_target_dir, walk_filtered, FsEntry};

fn file(name: &str) -> FsEntry {
    FsEntry::File { name: name.to_string() }
}

fn dir(name: &str, entries: Vec<FsEntry>) -> FsEntry {
    FsEntry::Dir { name: name.to_string(), entries }
}

#[test]
fn test_is_hidden() {
    // Test hidden file
    assert!(is_hidden(".hidden"));

    // Test visible file
    assert!(!is_hidden("visible"));

    // Test current directory
    assert!(!is_hidden("."));
}

#[test]
fn test_is_hidden_edge_names() {
    assert!(!is_hidden(".."));
    assert!(!is_hidden(".tmp")); // temporary-marker names stay visible
    assert!(!is_hidden(".tmp123"));
    assert!(is_hidden(".tm")); // shorter than the marker
    assert!(is_hidden(".git")); // hidden as a name, too
    assert!(!is_hidden(""));
}

#[test]
fn test_is_target_dir() {
    // Test target directory
    assert!(is_target_dir("target"));

    // Test non-target directory
    assert!(!is_target_dir("src"));
}

#[test]
fn test_is_git_dir() {
    // Test git directory
    assert!(is_git_dir(".git"));

    // Test non-git directory
    assert!(!is_git_dir("src"));
}

#[test]
fn test_walk_directory() {
    // Two matching files and a hidden one: the hidden file is pruned.
    let entries = vec![file("test1.txt"), file("test2.txt"), file(".hidden.txt")];
    let found = walk_filtered("root", &entries, "txt");
    assert_eq!(found, vec!["root/test1.txt".to_string(), "root/test2.txt".to_string()]);
}

#[test]
fn test_walk_rust_files() {
    // Only files with the rs extension are yielded, in depth-first pre-order.
    let entries = vec![
        file("test1.rs"),
        dir("sub", vec![file("test2.rs"), file("test.txt")]),
    ];
    let found = walk_filtered(".", &entries, "rs");
    assert_eq!(found, vec!["./test1.rs".to_string(), "./sub/test2.rs".to_string()]);
}

#[test]
fn test_walk_prunes_excluded_subtrees() {
    let entries = vec![
        dir(".git", vec![file("config.txt")]),
        dir("target", vec![file("out.txt")]),
        dir(".secrets", vec![file("inner.txt")]),
        dir("src", vec![file("ok.txt"), dir("target", vec![file("deep.txt")])]),
        file("top.txt"),
    ];
    let found = walk_filtered("base", &entries, "txt");
    assert_eq!(found, vec!["base/src/ok.txt".to_string(), "base/top.txt".to_string()]);
}

#[test]
fn test_walk_wildcard_accepts_every_file() {
    let entries = vec![file("noext"), file("a.log"), dir("d", vec![file("b.meta")])];
    let found = walk_filtered("r", &entries, "*");
    assert_eq!(
        found,
        vec!["r/noext".to_string(), "r/a.log".to_string(), "r/d/b.meta".to_string()]
    );
}

#[test]
fn test_walk_keeps_tmp_marker_entries() {
    let entries = vec![dir(".tmpstage", vec![file("part.txt")]), file(".tmpnote.txt")];
    let found = walk_filtered("w", &entries, "txt");
    assert_eq!(
        found,
        vec!["w/.tmpstage/part.txt".to_string(), "w/.tmpnote.txt".to_string()]
    );
}

#[test]
fn test_first_failure_reports_third_of_five() {
    // All five results are in hand — every unit has run — and the failure
    // reported is the third one, the first that failed.
    let results: Vec<Result<(), String>> = vec![
        Ok(()),
        Ok(()),
        Err("boom".to_string()),
        Ok(()),
        Err("later".to_string()),
    ];
    assert_eq!(results.len(), 5);
    assert_eq!(first_failure(&results), Some(2));
}

#[test]
fn test_first_failure_none_when_all_succeed() {
    let results: Vec<Result<u32, String>> = vec![Ok(1), Ok(2), Ok(3)];
    assert_eq!(first_failure(&results), None);
    let empty: Vec<Result<u32, String>> = Vec::new();
    assert_eq!(first_failure(&empty), None);
}
