use folder_cleaner::cleaning::track_files_for_deletion::track_files_for_deletion;
use folder_cleaner::cleaning::tree_shape::FsEntry;
use folder_cleaner::configs::config::DataSizeUnit;
use folder_cleaner::configs::config::PathConfig;
use folder_cleaner::logging::folder_tree_helpers::DirTreeLeaf;

fn rules(
    delete: Option<Vec<&str>>,
    keep: Option<Vec<&str>>,
    recursive: bool,
    delete_hidden: bool,
) -> PathConfig {
    PathConfig {
        directory: "root".to_string(),
        extensions_to_delete: delete.map(|l| l.into_iter().map(|s| s.to_string()).collect()),
        extensions_to_keep: keep.map(|l| l.into_iter().map(|s| s.to_string()).collect()),
        recursive,
        delete_hidden,
        display_units: DataSizeUnit::Bytes,
    }
}

fn file(path: &str, size: u64) -> FsEntry {
    FsEntry::File { path: path.to_string(), size }
}

fn dir(path: &str, entries: Vec<FsEntry>) -> FsEntry {
    FsEntry::Dir { path: path.to_string(), entries }
}

fn leaf_facts(leaf: &DirTreeLeaf) -> (String, usize, bool, bool) {
    (leaf.key.display_key().to_string(), leaf.depth, leaf.is_last, leaf.is_file())
}

#[test]
fn test_walk_marks_expected_leaves_and_counts() {
    let root = dir(
        "A",
        vec![
            file("A/keep.md", 3),
            file("A/del.txt", 5),
            dir("A/sub", vec![file("A/sub/old.tmp", 7)]),
        ],
    );
    let config = rules(Some(vec!["txt", "tmp"]), Some(vec!["md"]), true, false);
    let (leaves, meta) = track_files_for_deletion(root, &config, 42);

    let facts: Vec<(String, usize, bool, bool)> = leaves.iter().map(leaf_facts).collect();
    assert_eq!(
        facts,
        vec![
            ("A".to_string(), 0, true, false),
            ("A/del.txt".to_string(), 1, false, true),
            ("A/sub".to_string(), 1, true, false),
            ("A/sub/old.tmp".to_string(), 2, true, true),
        ]
    );
    assert_eq!(meta.file_count, 2);
    assert_eq!(meta.dir_count, 1);
    assert_eq!(meta.deletion_size, 12);
    assert_eq!(meta.folder_size, 15);
    assert_eq!(meta.last_modified_time, 42);
}

#[test]
fn test_walk_prunes_folder_of_hidden_files() {
    let root = dir("B", vec![file("B/.hidden.txt", 9)]);
    let config = rules(None, None, true, false);
    let (leaves, meta) = track_files_for_deletion(root, &config, 0);

    assert!(leaves.is_empty());
    assert_eq!(meta.file_count, 0);
    assert_eq!(meta.dir_count, 0);
    assert_eq!(meta.deletion_size, 0);
    assert_eq!(meta.folder_size, 9);
}

#[test]
fn test_walk_prunes_empty_folders_transitively() {
    let root = dir("r", vec![dir("r/a", vec![dir("r/a/b", vec![])])]);
    let config = rules(None, None, true, false);
    let (leaves, meta) = track_files_for_deletion(root, &config, 0);

    assert!(leaves.is_empty());
    assert_eq!(meta.dir_count, 0);
    assert_eq!(meta.folder_size, 0);
}

#[test]
fn test_walk_orders_siblings_lexicographically() {
    let root = dir(
        "r",
        vec![
            file("r/c.txt", 1),
            file("r/a.txt", 1),
            dir("r/b", vec![file("r/b/x.txt", 1)]),
        ],
    );
    let config = rules(Some(vec!["txt"]), None, true, false);
    let (leaves, _) = track_files_for_deletion(root, &config, 0);

    let facts: Vec<(String, usize, bool, bool)> = leaves.iter().map(leaf_facts).collect();
    assert_eq!(
        facts,
        vec![
            ("r".to_string(), 0, true, false),
            ("r/a.txt".to_string(), 1, false, true),
            ("r/b".to_string(), 1, false, false),
            ("r/b/x.txt".to_string(), 2, true, true),
            ("r/c.txt".to_string(), 1, true, true),
        ]
    );
}

#[test]
fn test_walk_depths_never_jump_by_more_than_one() {
    let root = dir(
        "r",
        vec![
            dir("r/a", vec![dir("r/a/b", vec![file("r/a/b/deep.txt", 1)])]),
            file("r/z.txt", 1),
        ],
    );
    let config = rules(Some(vec!["txt"]), None, true, false);
    let (leaves, _) = track_files_for_deletion(root, &config, 0);

    let depths: Vec<usize> = leaves.iter().map(|l| l.depth).collect();
    assert_eq!(depths, vec![0, 1, 2, 3, 1]);
    for i in 1..depths.len() {
        assert!(depths[i] <= depths[i - 1] + 1);
    }
}

#[test]
fn test_walk_without_recursion_takes_only_root_files() {
    let root = dir(
        "r",
        vec![
            file("r/a.txt", 2),
            dir("r/sub", vec![file("r/sub/b.txt", 4)]),
        ],
    );
    let config = rules(Some(vec!["txt"]), None, false, false);
    let (leaves, meta) = track_files_for_deletion(root, &config, 0);

    let facts: Vec<(String, usize, bool, bool)> = leaves.iter().map(leaf_facts).collect();
    assert_eq!(
        facts,
        vec![("r".to_string(), 0, true, false), ("r/a.txt".to_string(), 1, true, true)]
    );
    assert_eq!(meta.file_count, 1);
    assert_eq!(meta.dir_count, 0);
    assert_eq!(meta.deletion_size, 2);
    assert_eq!(meta.folder_size, 2);
}

#[test]
fn test_walk_of_plain_file_root_is_a_single_leaf() {
    let root = file("lone.txt", 8);
    let config = rules(Some(vec!["txt"]), None, true, false);
    let (leaves, meta) = track_files_for_deletion(root, &config, 0);

    let facts: Vec<(String, usize, bool, bool)> = leaves.iter().map(leaf_facts).collect();
    assert_eq!(facts, vec![("lone.txt".to_string(), 0, true, true)]);
    assert_eq!(meta.file_count, 0);
    assert_eq!(meta.dir_count, 0);
    assert_eq!(meta.deletion_size, 0);
    assert_eq!(meta.folder_size, 0);
}

#[test]
fn test_create_tree_leaves_from_paths() {
    let entries = vec![file("r/a.txt", 1), dir("r/b", vec![]), file("r/c.txt", 1)];
    let leaves =
        folder_cleaner::cleaning::track_files_for_deletion::create_tree_leaves_from_paths(
            &entries, 2,
        );
    let facts: Vec<(String, usize, bool, bool)> = leaves.iter().map(leaf_facts).collect();
    assert_eq!(
        facts,
        vec![
            ("r/a.txt".to_string(), 2, false, true),
            ("r/b".to_string(), 2, false, false),
            ("r/c.txt".to_string(), 2, true, true),
        ]
    );
}

#[test]
fn test_exactly_one_sibling_is_last_per_group() {
    let root = dir(
        "r",
        vec![
            file("r/a.txt", 1),
            file("r/b.txt", 1),
            file("r/c.txt", 1),
        ],
    );
    let config = rules(Some(vec!["txt"]), None, true, false);
    let (leaves, _) = track_files_for_deletion(root, &config, 0);

    let depth_one_last: Vec<bool> = leaves.iter().filter(|l| l.depth == 1).map(|l| l.is_last)
        .collect();
    assert_eq!(depth_one_last, vec![false, false, true]);
}
