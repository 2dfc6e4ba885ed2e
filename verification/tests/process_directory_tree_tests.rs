use std::collections::VecDeque;

use folder_cleaner::logging::folder_tree_helpers::DirTreeLeaf;
use folder_cleaner::logging::folder_tree_helpers::DirTreeOptions;
use folder_cleaner::logging::folder_tree_helpers::TreeKey;
use folder_cleaner::logging::process_directory_tree::FileSystemStack;
use folder_cleaner::logging::process_directory_tree::process_folder_tree_stack;

fn example_stack() -> FileSystemStack {
    let folder_leaves = vec![
        ("main_folder", 0, true),
        ("file01.txt", 1, false),
        ("file02.txt", 1, false),
        ("folder_sub1", 1, false),
        ("file03.txt", 2, false),
        ("file04.txt", 2, false),
        ("file05.txt", 2, false),
        ("folder_sub1-1", 2, false),
        ("file09.txt", 3, false),
        ("file10.txt", 3, false),
        ("file11.txt", 3, true),
        ("testing", 2, true),
        ("folder_sub2", 1, true),
        ("file06.txt", 2, false),
        ("file07.txt", 2, false),
        ("file08.txt", 2, false),
        ("folder_sub2-1", 2, true),
    ];

    let mut stack: FileSystemStack = VecDeque::new();
    for (key, depth, is_last) in folder_leaves {
        stack.push_back(DirTreeLeaf { key: TreeKey::StringKey(key.to_string()), depth, is_last });
    }
    stack
}

#[test]
fn process_directory_tree_test_process_folder_tree_stack() {
    let stack = example_stack();
    let options = DirTreeOptions::default();
    let directory_tree = process_folder_tree_stack(stack, &options);

    let expected_output = "\
main_folder
├── file01.txt
├── file02.txt
├── folder_sub1
│   ├── file03.txt
│   ├── file04.txt
│   ├── file05.txt
│   ├── folder_sub1-1
│   │   ├── file09.txt
│   │   ├── file10.txt
│   │   └── file11.txt
│   └── testing
└── folder_sub2
    ├── file06.txt
    ├── file07.txt
    ├── file08.txt
    └── folder_sub2-1
";

    assert_eq!(directory_tree, expected_output);
}

#[test]
fn test_render_two_level_sequence() {
    let leaves = vec![("root", 0, true), ("a.txt", 1, false), ("b.txt", 1, true)];
    let mut stack: FileSystemStack = VecDeque::new();
    for (key, depth, is_last) in leaves {
        stack.push_back(DirTreeLeaf { key: TreeKey::StringKey(key.to_string()), depth, is_last });
    }
    let options = DirTreeOptions::default();
    let rendered = process_folder_tree_stack(stack, &options);
    assert_eq!(rendered, "root\n├── a.txt\n└── b.txt\n");
}

#[test]
fn test_render_same_sequence_twice_is_identical() {
    let options = DirTreeOptions::default();
    let first = process_folder_tree_stack(example_stack(), &options);
    let second = process_folder_tree_stack(example_stack(), &options);
    assert_eq!(first, second);
}

#[test]
fn test_render_suffix_goes_only_on_folder_lines() {
    let leaves = vec![
        ("root", 0, true, false),
        ("a.txt", 1, false, true),
        ("sub", 1, true, false),
    ];
    let mut stack: FileSystemStack = VecDeque::new();
    for (key, depth, is_last, is_file) in leaves {
        stack.push_back(DirTreeLeaf {
            key: TreeKey::PathKey { path: key.to_string(), is_file },
            depth,
            is_last,
        });
    }
    let options = DirTreeOptions { display_files: true, file_size: Some(1024) };
    let rendered = process_folder_tree_stack(stack, &options);
    let suffix = format!(" - \x1b[1m{}\x1b[0m", "1.00 KB");
    assert_eq!(
        rendered,
        format!("root{}\n├── a.txt\n└── sub{}\n", suffix, suffix)
    );
}

#[test]
fn test_render_skips_file_leaves_without_consuming_prefix_slot() {
    let leaves = vec![
        ("root", 0, true, false),
        ("a.txt", 1, false, true),
        ("sub", 1, true, false),
        ("b.txt", 2, true, true),
    ];
    let mut stack: FileSystemStack = VecDeque::new();
    for (key, depth, is_last, is_file) in leaves {
        stack.push_back(DirTreeLeaf {
            key: TreeKey::PathKey { path: key.to_string(), is_file },
            depth,
            is_last,
        });
    }
    let options = DirTreeOptions { display_files: false, file_size: None };
    let rendered = process_folder_tree_stack(stack, &options);
    assert_eq!(rendered, "root\n└── sub\n");
}
