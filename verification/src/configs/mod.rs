use vstd::prelude::*;

pub mod config;
pub mod config_error;
pub mod unwrap_config_groups;

verus! {

/// Name of the configuration file looked up in the user's home directory.
pub const CONFIG_FILE_NAME: &'static str = ".nuke.toml";

} // verus!
