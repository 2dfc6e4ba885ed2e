use folder_cleaner::cli_tools::cleaner_cli::DirectoryArgs;
use folder_cleaner::cli_tools::errors::CLIError;
use folder_cleaner::cli_tools::update_configs_with_cli_args;
use folder_cleaner::configs::config::Config;
use folder_cleaner::configs::config::DataSizeUnit;
use folder_cleaner::configs::config::PathConfig;
use folder_cleaner::configs::config::normalize_extensions;
use folder_cleaner::configs::config_error::ConfigError;
use folder_cleaner::configs::unwrap_config_groups::fetch_cli_configs;

fn plain_config(directory: &str) -> PathConfig {
    PathConfig::new(directory.to_string())
}

fn sample_config() -> Config {
    Config {
        size: None,
        subgroups: Some(vec![
            ("core".to_string(), vec![plain_config("/users/example/random")]),
            (
                "downloads".to_string(),
                vec![plain_config("/users/example/downloads"), plain_config("/tmp/more")],
            ),
        ]),
    }
}

#[test]
fn test_fetch_cli_configs_valid_filter() {
    let result = fetch_cli_configs(sample_config(), Some("core"), "dummy_config.toml")
        .expect("Expected valid fetch with 'core' filter");
    assert_eq!(result.1.len(), 1);
    assert_eq!(result.1[0].directory, "/users/example/random");
}

#[test]
fn test_fetch_cli_configs_no_filter() {
    let result = fetch_cli_configs(sample_config(), None, "dummy_config.toml")
        .expect("Expected valid fetch without filter");
    assert_eq!(result.1.len(), 3);
}

#[test]
fn test_fetch_cli_configs_invalid_filter() {
    let result = fetch_cli_configs(sample_config(), Some("nonexistent"), "dummy_config.toml");
    assert!(
        matches!(result, Err(ConfigError::FolderMapEmpty(_))),
        "Expected error for nonexistent filter group"
    );
}

#[test]
fn test_fetch_cli_configs_without_subgroups() {
    let config = Config { size: None, subgroups: None };
    let result = fetch_cli_configs(config, None, "dummy_config.toml");
    match result {
        Err(err @ ConfigError::ConfigNotFound(_)) => {
            assert_eq!(err.message(), "Configuration not found at path: dummy_config.toml");
        }
        other => panic!("Expected ConfigNotFound, got {}", other.is_ok()),
    }
}

#[test]
fn test_config_error_messages() {
    assert_eq!(ConfigError::UserDirNotFound.message(), "User directory not found.");
    assert_eq!(
        ConfigError::read_error("/home/u/.nuke.toml").message(),
        "Failed to read config file at '/home/u/.nuke.toml'."
    );
    assert_eq!(
        ConfigError::parse_error("/home/u/.nuke.toml", "bad table").message(),
        "Failed to parse config file at '/home/u/.nuke.toml': bad table."
    );
    assert_eq!(
        ConfigError::FolderMapEmpty("extras".to_string()).message(),
        "The subgroup 'extras' was not found in your config file."
    );
}

#[test]
fn test_cli_error_messages() {
    let path_error = CLIError::PathOrConfigError("wrong".to_string());
    assert_eq!(
        path_error.message(),
        "Your entered key: 'wrong' is neither a valid path or entry in your config."
    );
    let wrapped = CLIError::from(ConfigError::UserDirNotFound);
    assert_eq!(wrapped.message(), "User directory not found.");
}

#[test]
fn test_normalize_extensions_strips_leading_dots() {
    let cleaned = normalize_extensions(vec![
        "tmp".to_string(),
        ".log".to_string(),
        "..rs".to_string(),
    ]);
    assert_eq!(cleaned, vec!["tmp".to_string(), "log".to_string(), "rs".to_string()]);
}

#[test]
fn test_update_configs_with_cli_args() {
    let configs = vec![plain_config("/a"), plain_config("/b")];
    let args = DirectoryArgs {
        path_or_config_key: "/a".to_string(),
        tree: true,
        recursive: true,
        include_hidden: true,
        relative_path: false,
        size: Some(DataSizeUnit::MB),
    };
    let updated = update_configs_with_cli_args(configs, &args);
    assert_eq!(updated.len(), 2);
    for config in &updated {
        assert!(config.recursive);
        assert!(config.delete_hidden);
        assert!(matches!(config.display_units, DataSizeUnit::MB));
    }
    assert_eq!(updated[0].directory, "/a");
    assert_eq!(updated[1].directory, "/b");
}
