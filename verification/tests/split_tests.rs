use xio::groups::GroupTable;
use xio::pattern::Pattern;
use xio::split::{distribution_plan, DirectorySplitter, RegexFileMatcher, SplitConfig, SplitError};
use xio::FsEntry;

fn file(name: &str) -> FsEntry {
    FsEntry::File { name: name.to_string() }
}

fn strings(items: &[&str]) -> Vec<String> {
    items.iter().map(|s| s.to_string()).collect()
}

#[test]
fn test_pattern_compile_and_match() {
    let p = Pattern::compile(r".*\.meta$").unwrap();
    assert_eq!(p.as_str(), r".*\.meta$");
    assert_eq!(p.is_match("src/a.meta"), Ok(true));
    assert_eq!(p.is_match("src/a.log"), Ok(false));

    // The engine's dialect includes back-references.
    let twice = Pattern::compile(r"(\w+) \1").unwrap();
    assert_eq!(twice.is_match("mirror mirror on the wall"), Ok(true));
    assert_eq!(twice.is_match("mirror wall"), Ok(false));
}

#[test]
fn test_pattern_compile_rejects_invalid() {
    assert!(matches!(Pattern::compile("("), Err(SplitError::InvalidPattern)));
}

#[test]
fn test_group_table_keeps_paths_unique() {
    let mut table = GroupTable::new();
    table.insert_group("a", &strings(&["x", "y"]));
    table.insert_group("b", &strings(&["x", "z"]));
    assert_eq!(table.groups.len(), 2);
    assert_eq!(table.groups[0].representative, "a");
    assert_eq!(table.groups[0].members, strings(&["a", "x", "y"]));
    assert_eq!(table.groups[1].representative, "b");
    // "x" is already claimed by the first group and is not double-counted.
    assert_eq!(table.groups[1].members, strings(&["b", "z"]));

    // A representative that is already a member of another group opens no
    // new group.
    table.insert_group("x", &strings(&["w"]));
    assert_eq!(table.groups.len(), 2);
    assert_eq!(table.groups[0].members, strings(&["a", "x", "y"]));
    assert_eq!(table.groups[1].members, strings(&["b", "z"]));

    // A representative that already keys a group extends it.
    table.insert_group("a", &strings(&["w", "z"]));
    assert_eq!(table.groups.len(), 2);
    assert_eq!(table.groups[0].members, strings(&["a", "x", "y", "w"]));

    // A group holds a path only once, however often it is offered.
    table.insert_group("a", &strings(&["w", "w"]));
    assert_eq!(table.groups[0].members, strings(&["a", "x", "y", "w"]));
}

#[test]
fn test_distribution_plan_round_robin() {
    let mut table = GroupTable::new();
    table.insert_group("a", &strings(&["a1"]));
    table.insert_group("b", &Vec::new());
    table.insert_group("c", &strings(&["c1", "c2"]));
    table.insert_group("d", &Vec::new());
    table.insert_group("e", &Vec::new());

    let plan = distribution_plan(&table, 2);
    assert_eq!(plan.len(), 5);
    let dirs: Vec<usize> = plan.iter().map(|a| a.dir_index).collect();
    assert_eq!(dirs, vec![0, 1, 0, 1, 0]);

    // Balance: with 5 groups over 2 directories, one receives 3 = ceil(5/2)
    // groups and the other 2 = floor(5/2).
    let to_dir0 = dirs.iter().filter(|d| **d == 0).count();
    let to_dir1 = dirs.iter().filter(|d| **d == 1).count();
    assert_eq!(to_dir0, 3);
    assert_eq!(to_dir1, 2);

    // Round trip: the plan copies exactly the table's members.
    let total: usize = plan.iter().map(|a| a.files.len()).sum();
    let table_total: usize = table.groups.iter().map(|g| g.members.len()).sum();
    assert_eq!(total, table_total);
    assert_eq!(total, 8);
    assert_eq!(plan[0].files, strings(&["a", "a1"]));
    assert_eq!(plan[2].files, strings(&["c", "c1", "c2"]));
}

#[test]
fn test_target_dir_names_default_naming() {
    let config = SplitConfig::new("base", 3);
    let names = config.target_dir_names().unwrap();
    assert_eq!(
        names,
        strings(&["base/part_0", "base/part_1", "base/part_2"])
    );
}

#[test]
fn test_target_dir_names_custom_naming_and_output_dir() {
    let config = SplitConfig::new("src_dir", 2)
        .with_output_dir("out")
        .with_naming("chunk_{}", "_batch");
    let names = config.target_dir_names().unwrap();
    assert_eq!(names, strings(&["out/chunk_0_batch", "out/chunk_1_batch"]));
}

#[test]
fn test_split_plan_groups_and_distributes() {
    // Source holds a.log, a.meta, b.log; the matcher takes log files and the
    // pattern picks .meta siblings; two target directories. Expect two
    // groups — {a.log, a.meta} and {b.log} — one per target directory.
    let entries = vec![file("a.log"), file("a.meta"), file("b.log")];
    let matcher = RegexFileMatcher {
        match_extension: "log".to_string(),
        regex_patterns: Some(vec![Pattern::compile(r".*\.meta$").unwrap()]),
    };
    let config = SplitConfig::new("src_dir", 2).with_output_dir("out");
    let splitter = DirectorySplitter::new(config, matcher);

    let plan = splitter.split_plan(&entries).unwrap();
    assert_eq!(plan.created_dirs, strings(&["out/part_0", "out/part_1"]));
    assert_eq!(plan.assignments.len(), 2);
    assert_eq!(plan.assignments[0].dir_index, 0);
    assert_eq!(
        plan.assignments[0].files,
        strings(&["src_dir/a.log", "src_dir/a.meta"])
    );
    assert_eq!(plan.assignments[1].dir_index, 1);
    assert_eq!(plan.assignments[1].files, strings(&["src_dir/b.log"]));
}

#[test]
fn test_split_plan_zero_dirs_fails_fast() {
    let entries = vec![file("a.log")];
    let matcher = RegexFileMatcher {
        match_extension: "log".to_string(),
        regex_patterns: None,
    };
    let config = SplitConfig::new("src_dir", 0);
    assert_eq!(config.target_dir_names(), Err(SplitError::NoTargetDirectories));
    let splitter = DirectorySplitter::new(config, matcher);
    match splitter.split_plan(&entries) {
        Err(SplitError::NoTargetDirectories) => {}
        other => panic!("expected a fail-fast zero-directories error, got {:?}", other.is_ok()),
    }
}

#[test]
fn test_split_plan_discovers_in_subdirectories() {
    let entries = vec![
        FsEntry::Dir {
            name: "sub".to_string(),
            entries: vec![file("x.log"), file("x.meta")],
        },
        file("top.log"),
        FsEntry::Dir {
            name: ".git".to_string(),
            entries: vec![file("ignored.log")],
        },
    ];
    let matcher = RegexFileMatcher {
        match_extension: "log".to_string(),
        regex_patterns: Some(vec![Pattern::compile(r".*\.meta$").unwrap()]),
    };
    let config = SplitConfig::new("root", 2);
    let splitter = DirectorySplitter::new(config, matcher);
    let plan = splitter.split_plan(&entries).unwrap();
    // Groups in walk order: sub/x.log (with its sibling sub/x.meta), then
    // top.log; nothing under .git.
    assert_eq!(plan.assignments.len(), 2);
    assert_eq!(plan.assignments[0].files, strings(&["root/sub/x.log", "root/sub/x.meta"]));
    assert_eq!(plan.assignments[1].files, strings(&["root/top.log"]));
}

#[test]
fn test_matcher_without_patterns_yields_lone_groups() {
    let entries = vec![file("a.log"), file("b.log"), file("c.meta"), file("noext")];
    let matcher = RegexFileMatcher {
        match_extension: "log".to_string(),
        regex_patterns: None,
    };
    let config = SplitConfig::new("s", 1);
    let splitter = DirectorySplitter::new(config, matcher);
    let plan = splitter.split_plan(&entries).unwrap();
    assert_eq!(plan.assignments.len(), 2);
    assert_eq!(plan.assignments[0].files, strings(&["s/a.log"]));
    assert_eq!(plan.assignments[0].dir_index, 0);
    assert_eq!(plan.assignments[1].files, strings(&["s/b.log"]));
    assert_eq!(plan.assignments[1].dir_index, 0);
}
