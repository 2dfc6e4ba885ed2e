use vstd::prelude::*;

verus! {

use crate::configs::config::DataSizeUnit;

/// The command-line surface: one of the subcommands below.
pub struct CLI {
    pub command: Commands,
}

/// What every directory-taking subcommand accepts: the path or configuration
/// key to clean, and the flags that override the configuration.
pub struct DirectoryArgs {
    pub path_or_config_key: String,
    pub tree: bool,
    pub recursive: bool,
    pub include_hidden: bool,
    pub relative_path: bool,
    pub size: Option<DataSizeUnit>,
}

/// Arguments of the cleaning subcommand.
pub struct CleanArgs {
    pub directory_args: DirectoryArgs,
    pub yes: bool,
}

/// Arguments of the size-reporting subcommand.
pub struct SizeArgs {
    pub directory_args: DirectoryArgs,
}

/// The program's subcommands: clean a directory, report its size, or show
/// where the configuration file lives.
pub enum Commands {
    Clean(CleanArgs),
    Size(SizeArgs),
    ConfigPath,
}

} // verus!
