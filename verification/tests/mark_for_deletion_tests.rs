use folder_cleaner::cleaning::mark_for_deletion::should_delete_file;
use folder_cleaner::configs::config::DataSizeUnit;
use folder_cleaner::configs::config::PathConfig;

fn rules(
    delete: Option<Vec<&str>>,
    keep: Option<Vec<&str>>,
    recursive: bool,
    delete_hidden: bool,
) -> PathConfig {
    PathConfig {
        directory: "root".to_string(),
        extensions_to_delete: delete.map(|l| l.into_iter().map(|s| s.to_string()).collect()),
        extensions_to_keep: keep.map(|l| l.into_iter().map(|s| s.to_string()).collect()),
        recursive,
        delete_hidden,
        display_units: DataSizeUnit::Bytes,
    }
}

#[test]
fn test_delete_list_matches_extension() {
    let config = rules(Some(vec!["txt", "tmp"]), None, true, false);
    assert!(should_delete_file("root/notes.txt", &config));
    assert!(should_delete_file("root/sub/old.tmp", &config));
    assert!(!should_delete_file("root/keep.md", &config));
}

#[test]
fn test_keep_list_wins_over_delete_list() {
    let config = rules(Some(vec!["txt", "md"]), Some(vec!["md"]), true, false);
    assert!(should_delete_file("root/notes.txt", &config));
    assert!(!should_delete_file("root/keep.md", &config));
}

#[test]
fn test_empty_delete_list_matches_any_extension() {
    let config = rules(Some(vec![]), Some(vec![]), true, false);
    assert!(should_delete_file("root/anything.xyz", &config));
    assert!(should_delete_file("root/notes.txt", &config));
    assert!(!should_delete_file("root/no_extension", &config));
}

#[test]
fn test_absent_delete_list_matches_any_extension() {
    let config = rules(None, None, true, false);
    assert!(should_delete_file("root/anything.xyz", &config));
    assert!(!should_delete_file("root/no_extension", &config));
}

#[test]
fn test_hidden_files_protected_unless_allowed() {
    let protective = rules(Some(vec!["txt"]), None, true, false);
    assert!(!should_delete_file("root/.hidden.txt", &protective));

    let permissive = rules(Some(vec!["txt"]), None, true, true);
    assert!(should_delete_file("root/.hidden.txt", &permissive));
}

#[test]
fn test_leading_dot_only_name_has_no_extension() {
    let config = rules(None, None, true, true);
    assert!(!should_delete_file("root/.profile", &config));
    assert!(should_delete_file("root/.profile.bak", &config));
}
