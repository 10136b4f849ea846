use xio::fs::has_extension;
use xio::paths::{file_name, path_join};
use xio::strings::{str_eq, substitute_index, usize_to_string};

#[test]
fn test_has_extension() {
    assert!(has_extension("test.txt", "txt"));
    assert!(!has_extension("test.dat", "txt"));
    assert!(!has_extension("test", "txt"));
    assert!(!has_extension(".txt", "txt")); // Hidden file
    assert!(has_extension("path/to/test.txt", "txt"));

    // Additional test cases
    assert!(!has_extension("", "txt")); // Empty path
    assert!(!has_extension("test.", "txt")); // Empty extension
    assert!(!has_extension(".", "txt")); // Just dot
    assert!(!has_extension("test.txt.bak", "txt")); // Multiple extensions
}

#[test]
fn test_has_extension_more_shapes() {
    assert!(has_extension("a.b.c", "c"));
    assert!(has_extension("dir.with.dots/file.rs", "rs"));
    assert!(!has_extension("dir.with.dots/file", "dots"));
    assert!(has_extension("test.", "")); // trailing dot: empty extension
    assert!(!has_extension("..", ""));
    assert!(!has_extension("a/..", "txt"));
    assert!(has_extension("a/.hidden.txt", "txt")); // dot past the first char counts
    assert!(!has_extension("A.TXT", "txt")); // case-sensitive
}

#[test]
fn test_file_name() {
    assert_eq!(file_name("a/b/c.txt"), Some("c.txt".to_string()));
    assert_eq!(file_name("c.txt"), Some("c.txt".to_string()));
    assert_eq!(file_name("a/b/"), Some("b".to_string()));
    assert_eq!(file_name(""), None);
    assert_eq!(file_name("."), None);
    assert_eq!(file_name(".."), None);
    assert_eq!(file_name("a/.."), None);
    assert_eq!(file_name("///"), None);
}

#[test]
fn test_path_join() {
    assert_eq!(path_join("a", "b"), "a/b".to_string());
    assert_eq!(path_join("a/", "b"), "a/b".to_string());
    assert_eq!(path_join("", "b"), "b".to_string());
    assert_eq!(path_join("a/b", "c.txt"), "a/b/c.txt".to_string());
}

#[test]
fn test_str_eq() {
    assert!(str_eq("", ""));
    assert!(str_eq("abc", "abc"));
    assert!(!str_eq("abc", "abd"));
    assert!(!str_eq("abc", "ab"));
}

#[test]
fn test_usize_to_string() {
    assert_eq!(usize_to_string(0), "0".to_string());
    assert_eq!(usize_to_string(7), "7".to_string());
    assert_eq!(usize_to_string(10), "10".to_string());
    assert_eq!(usize_to_string(12345), "12345".to_string());
}

#[test]
fn test_substitute_index() {
    assert_eq!(substitute_index("part_{}", "3"), "part_3".to_string());
    assert_eq!(substitute_index("{}_{}", "12"), "12_12".to_string());
    assert_eq!(substitute_index("no placeholder", "9"), "no placeholder".to_string());
    assert_eq!(substitute_index("", "9"), "".to_string());
    assert_eq!(substitute_index("{{}}", "5"), "{5}".to_string());
}
