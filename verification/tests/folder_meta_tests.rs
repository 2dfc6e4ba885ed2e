use folder_cleaner::cli_tools::subprompts::PromptArg;
use folder_cleaner::configs::config::PathConfig;
use folder_cleaner::file_system_caching::folder_meta::FileSortKeys;
use folder_cleaner::file_system_caching::folder_meta::FolderMetadata;
use folder_cleaner::file_system_caching::folder_meta::SortKey;
use folder_cleaner::file_system_caching::folder_meta::process_directory_entry;
use folder_cleaner::size_checker::calculate_group_file_size;

fn sample_file(name: &str, size: u64, modified: Option<u64>, ext: Option<&str>) -> FileSortKeys {
    FileSortKeys {
        file_name: name.to_string(),
        size,
        last_modified: modified,
        extension: ext.map(|e| e.to_string()),
    }
}

fn names(meta: &FolderMetadata) -> Vec<String> {
    meta.files.iter().map(|f| f.file_name.clone()).collect()
}

fn loaded_metadata() -> FolderMetadata {
    let mut meta = FolderMetadata::new();
    meta.record_file(sample_file("beta.log", 30, Some(5), Some("log")));
    meta.record_file(sample_file("alpha.txt", 10, None, Some("txt")));
    meta.record_file(sample_file("gamma.txt", 20, Some(1), Some("txt")));
    meta
}

#[test]
fn test_sort_files_by_name() {
    let mut meta = loaded_metadata();
    meta.sort_files(SortKey::FileName);
    assert_eq!(names(&meta), vec!["alpha.txt", "beta.log", "gamma.txt"]);
}

#[test]
fn test_sort_files_by_size() {
    let mut meta = loaded_metadata();
    meta.sort_files(SortKey::Size);
    assert_eq!(names(&meta), vec!["alpha.txt", "gamma.txt", "beta.log"]);
}

#[test]
fn test_sort_files_by_last_modified_unknown_first() {
    let mut meta = loaded_metadata();
    meta.sort_files(SortKey::LastModified);
    assert_eq!(names(&meta), vec!["alpha.txt", "gamma.txt", "beta.log"]);
}

#[test]
fn test_sort_files_by_size_is_stable_on_ties() {
    let mut meta = FolderMetadata::new();
    meta.record_file(sample_file("first.txt", 10, Some(3), Some("txt")));
    meta.record_file(sample_file("second.txt", 10, Some(1), Some("txt")));
    meta.record_file(sample_file("small.txt", 5, Some(2), Some("txt")));
    meta.sort_files(SortKey::Size);
    assert_eq!(names(&meta), vec!["small.txt", "first.txt", "second.txt"]);
}

#[test]
fn test_sort_files_by_last_modified_is_stable_on_ties() {
    let mut meta = FolderMetadata::new();
    meta.record_file(sample_file("b.txt", 1, Some(7), Some("txt")));
    meta.record_file(sample_file("a.txt", 2, Some(7), Some("txt")));
    meta.record_file(sample_file("z.txt", 3, None, Some("txt")));
    meta.record_file(sample_file("y.txt", 4, None, Some("txt")));
    meta.sort_files(SortKey::LastModified);
    assert_eq!(names(&meta), vec!["z.txt", "y.txt", "b.txt", "a.txt"]);
}

#[test]
fn test_sort_files_by_name_is_stable_on_ties() {
    let mut meta = FolderMetadata::new();
    meta.record_file(sample_file("same.txt", 9, Some(1), Some("txt")));
    meta.record_file(sample_file("alpha.txt", 8, Some(2), Some("txt")));
    meta.record_file(sample_file("same.txt", 7, Some(3), Some("txt")));
    meta.sort_files(SortKey::FileName);
    let sizes: Vec<u64> = meta.files.iter().map(|f| f.size).collect();
    assert_eq!(names(&meta), vec!["alpha.txt", "same.txt", "same.txt"]);
    assert_eq!(sizes, vec![8, 9, 7]);
}

#[test]
fn test_record_file_accumulates_and_deduplicates_extensions() {
    let meta = loaded_metadata();
    assert_eq!(meta.folder_size, 60);
    assert_eq!(meta.files.len(), 3);
    assert_eq!(meta.file_extensions, vec!["log".to_string(), "txt".to_string()]);
}

#[test]
fn test_process_directory_entry_records_bare_name() {
    let mut meta = FolderMetadata::new();
    process_directory_entry("root/projects/archive", &mut meta);
    process_directory_entry("plain", &mut meta);
    assert_eq!(meta.subfolders, vec!["archive".to_string(), "plain".to_string()]);
}

#[test]
fn test_calculate_group_file_size() {
    let group = vec![PathConfig::new("/a".to_string()), PathConfig::new("/b".to_string())];
    let sizes = vec![100u64, 250u64];
    let (pairs, total) = calculate_group_file_size(&group, &sizes);
    assert_eq!(total, 350);
    assert_eq!(pairs, vec![("/a".to_string(), 100), ("/b".to_string(), 250)]);
}

#[test]
fn test_prompt_arg_labels() {
    assert_eq!(PromptArg::Delete.as_str(), "Delete \u{1f5d1}\u{fe0f}");
    assert_eq!(PromptArg::Exit.as_str(), "Exit \u{1f6aa}");
    assert_eq!(PromptArg::Tree.as_str(), "Print directory tree \u{1f332}");
}
