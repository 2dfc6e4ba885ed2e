use std::collections::VecDeque;

use folder_cleaner::logging::folder_tree::FileSystemLeaf;
use folder_cleaner::logging::folder_tree::FileSystemStack;

#[test]
fn test_process_folder_tree_stack() {
    let folder_leaves = vec![
        ("main_folder", 0, true),
        ("file01.txt", 1, false),
        ("file02.txt", 1, false),
        ("folder_sub1", 1, false),
        ("file03.txt", 2, false),
        ("file04.txt", 2, false),
        ("file05.txt", 2, false),
        ("folder_sub1-1", 2, false),
        ("file09.txt", 3, false),
        ("file10.txt", 3, false),
        ("file11.txt", 3, true),
        ("testing", 2, true),
        ("folder_sub2", 1, true),
        ("file06.txt", 2, false),
        ("file07.txt", 2, false),
        ("file08.txt", 2, false),
        ("folder_sub2-1", 2, true),
    ];

    let mut stack: FileSystemStack = VecDeque::new();
    for (key, depth, is_last) in folder_leaves {
        stack.push_back(FileSystemLeaf { key: key.to_owned(), depth, is_last });
    }

    let directory_tree = folder_cleaner::logging::folder_tree::process_folder_tree_stack(stack);

    let expected_output = "\
main_folder
├── file01.txt
├── file02.txt
├── folder_sub1
│   ├── file03.txt
│   ├── file04.txt
│   ├── file05.txt
│   ├── folder_sub1-1
│   │   ├── file09.txt
│   │   ├── file10.txt
│   │   └── file11.txt
│   └── testing
└── folder_sub2
    ├── file06.txt
    ├── file07.txt
    ├── file08.txt
    └── folder_sub2-1
";

    assert_eq!(directory_tree, expected_output);
}
