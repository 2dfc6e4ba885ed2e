#![verifier::loop_isolation(false)]

pub mod cleaning;
pub mod cli_tools;
pub mod configs;
pub mod file_system_caching;
pub mod logging;
pub mod size_checker;
pub mod text;
pub mod utils;
