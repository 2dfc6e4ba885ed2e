use folder_cleaner::cleaning::track_files_for_deletion::DeletionMetaData;
use folder_cleaner::configs::config::DataSizeUnit;
use folder_cleaner::configs::config::PathConfig;
use folder_cleaner::logging::TextOverviewType;
use folder_cleaner::logging::deletion_overview::generate_deletion_overview_text;
use folder_cleaner::logging::deletion_overview::generate_size_overview_text;

fn sample_config() -> PathConfig {
    PathConfig {
        directory: "/example/downloads".to_string(),
        extensions_to_delete: Some(vec!["tmp".to_string(), "log".to_string()]),
        extensions_to_keep: Some(vec!["pdf".to_string()]),
        recursive: true,
        delete_hidden: false,
        display_units: DataSizeUnit::KB,
    }
}

fn sample_metadata() -> DeletionMetaData {
    let mut meta = DeletionMetaData::from_root_folder(0);
    meta.folder_size = 2048;
    meta.deletion_size = 1024;
    meta.file_count = 3;
    meta.dir_count = 2;
    meta
}

#[test]
fn test_deletion_overview_layout() {
    let text = generate_deletion_overview_text(&sample_config(), sample_metadata(), &DataSizeUnit::KB);
    let lines: Vec<&str> = text.split('\n').collect();
    assert_eq!(lines[0], "=========================================================");
    assert_eq!(lines[1], "\u{1f4c1} Cleaning Overview \u{1f4c1}");
    assert_eq!(lines[3], "\x1b[1mFolder path\x1b[0m: \"/example/downloads\"");
    assert_eq!(lines[4], "\x1b[1mTotal folder size\x1b[0m: 2.00 KB");
    assert_eq!(
        lines[5],
        "\x1b[1mData scheduled for deletion\x1b[0m: 3 files, 2 directories - \x1b[1m1.00 KB\x1b[0m"
    );
    assert!(lines[6].starts_with("\x1b[1mLast modified date\x1b[0m: "));
    assert_eq!(
        lines[7],
        "\x1b[1mExtensions marked for deletion\x1b[0m: \"(.tmp, .log)\""
    );
    assert_eq!(lines[8], "\x1b[1mExtensions to keep\x1b[0m: \"(.pdf)\"");
    assert_eq!(lines.last().unwrap(), &"=========================================================");
}

#[test]
fn test_size_overview_layout() {
    let text = generate_size_overview_text(&sample_config(), sample_metadata(), &DataSizeUnit::KB);
    let lines: Vec<&str> = text.split('\n').collect();
    assert_eq!(lines[1], "\u{1f4c1} Folder Size Overview \u{1f4c1}");
    assert_eq!(lines[3], "\x1b[1mFolder path\x1b[0m: \"/example/downloads\"");
    assert_eq!(
        lines[4],
        "\x1b[1mTotal Size of files and directories\x1b[0m: 3 files, 2 directories - \x1b[1m1.00 KB\x1b[0m"
    );
    assert_eq!(lines.len(), 8);
}

#[test]
fn test_generate_text_picks_the_report() {
    let deletion = TextOverviewType::Deletion.generate_text(
        &sample_config(),
        sample_metadata(),
        &DataSizeUnit::KB,
    );
    assert!(deletion.contains("Cleaning Overview"));
    let size = TextOverviewType::Size.generate_text(
        &sample_config(),
        sample_metadata(),
        &DataSizeUnit::KB,
    );
    assert!(size.contains("Folder Size Overview"));
}
