use folder_cleaner::configs::config::DataSizeUnit;
use folder_cleaner::utils::format_size;
use folder_cleaner::utils::is_hidden_file;

#[test]
fn test_format_size_various() {
    let test_cases = vec![
        (500, "500.00 B"),
        (1024, "1.00 KB"),
        (1536, "1.50 KB"),
        (1048576, "1.00 MB"),
        (1572864, "1.50 MB"),
        (1073741824, "1.00 GB"),
        (1610612736, "1.50 GB"),
        (1099511627776, "1.00 TB"),
        (1649267441664, "1.50 TB"),
        (1125899906842624, "1.00 PB"),
        (1152921504606846976, "1.00 EB"),
    ];

    for (bytes, expected) in test_cases {
        assert_eq!(format_size(bytes), expected, "Failed at {} bytes", bytes);
    }
}

#[test]
fn test_format_size_boundaries_and_rounding() {
    assert_eq!(format_size(0), "0.00 B");
    assert_eq!(format_size(1023), "1023.00 B");
    assert_eq!(format_size(1025), "1.00 KB");
    // 1023 KB plus 1020 B rounds up past the unit boundary.
    assert_eq!(format_size(1023 * 1024 + 1020), "1024.00 KB");
}

#[test]
fn test_display_total_size_fixed_units() {
    assert_eq!(DataSizeUnit::Bytes.display_total_size(500), "500.00 B");
    assert_eq!(DataSizeUnit::KB.display_total_size(1536), "1.50 KB");
    assert_eq!(DataSizeUnit::MB.display_total_size(1048576), "1.00 MB");
    assert_eq!(DataSizeUnit::GB.display_total_size(1610612736), "1.50 GB");
    assert_eq!(DataSizeUnit::TB.display_total_size(1099511627776), "1.00 TB");
}

#[test]
fn test_is_hidden_file() {
    assert!(is_hidden_file(".bashrc"));
    assert!(is_hidden_file("home/user/.hidden.txt"));
    assert!(!is_hidden_file("home/user/plain.txt"));
    assert!(!is_hidden_file("home/.config/visible.txt"));
    assert!(!is_hidden_file(""));
}
