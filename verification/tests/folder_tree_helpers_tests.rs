use folder_cleaner::logging::folder_tree_helpers::DirTreeLeaf;
use folder_cleaner::logging::folder_tree_helpers::DirTreeOptions;
use folder_cleaner::logging::folder_tree_helpers::TreeKey;

#[test]
fn test_skip_leaf_with_directory_regardless_of_display_files() {
    let options_with_true = DirTreeOptions { display_files: true, file_size: None };
    let options_with_false = DirTreeOptions { display_files: false, file_size: None };

    let directory_key = TreeKey::StringKey("some_directory".to_string());
    assert!(!options_with_true.should_skip_file_leaf(&directory_key));
    assert!(!options_with_false.should_skip_file_leaf(&directory_key));
}

#[test]
fn test_skip_leaf_with_file_depends_on_display_files() {
    let options_with_true = DirTreeOptions { display_files: true, file_size: None };
    let options_with_false = DirTreeOptions { display_files: false, file_size: None };

    let file_key = TreeKey::PathKey { path: "some_file.txt".to_string(), is_file: true };
    assert!(!options_with_true.should_skip_file_leaf(&file_key));
    assert!(options_with_false.should_skip_file_leaf(&file_key));
}

#[test]
fn test_get_tree_suffix_str_with_no_suffix() {
    let options = DirTreeOptions { display_files: true, file_size: None };

    assert_eq!(options.get_tree_suffix_str(), String::new());
}

#[test]
fn test_get_tree_suffix_str_with_suffix() {
    let options = DirTreeOptions { display_files: true, file_size: Some(1024) };

    assert_eq!(options.get_tree_suffix_str(), format!(" - \x1b[1m{}\x1b[0m", "1.00 KB"));
}

#[test]
fn test_new_root_leaf() {
    let leaf = DirTreeLeaf::new_root("top".to_string());
    assert_eq!(leaf.key.display_key(), "top");
    assert_eq!(leaf.depth, 0);
    assert!(leaf.is_last);
    assert!(!leaf.is_file());
}
