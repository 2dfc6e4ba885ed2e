use vstd::prelude::*;

verus! {

use vstd::string::StringExecFns;

/// What can go wrong while locating, reading or parsing the configuration file.
#[derive(Debug)]
pub enum ConfigError {
    UserDirNotFound,
    ReadError(String),
    ParseError(String, String),
    ConfigNotFound(String),
    FolderMapEmpty(String),
}

impl ConfigError {
    /// A read failure at the given path.
    pub fn read_error(path: &str) -> (r: Self)
        ensures
            r matches ConfigError::ReadError(p) && p@ == path@,
    {
        ConfigError::ReadError(String::from_str(path))
    }

    /// A parse failure at the given path, with the parser's message.
    pub fn parse_error(path: &str, error: &str) -> (r: Self)
        ensures
            r matches ConfigError::ParseError(p, e) && p@ == path@ && e@ == error@,
    {
        ConfigError::ParseError(String::from_str(path), String::from_str(error))
    }

    /// What `message` returns for each variant.
    pub open spec fn message_spec(&self) -> Seq<char> {
        match self {
            ConfigError::UserDirNotFound => "User directory not found."@,
            ConfigError::ReadError(p) => "Failed to read config file at '"@ + p@ + "'."@,
            ConfigError::ParseError(p, e) => "Failed to parse config file at '"@ + p@ + "': "@
                + e@ + "."@,
            ConfigError::ConfigNotFound(p) => "Configuration not found at path: "@ + p@,
            ConfigError::FolderMapEmpty(s) => "The subgroup '"@ + s@
                + "' was not found in your config file."@,
        }
    }

    /// A sentence describing the error, for user-facing reporting.
    pub fn message(&self) -> (r: String)
        ensures
            r@ == self.message_spec(),
    {
        match self {
            ConfigError::UserDirNotFound => String::from_str("User directory not found."),
            ConfigError::ReadError(p) => {
                let mut out = String::from_str("Failed to read config file at '");
                out.append(p.as_str());
                out.append("'.");
                out
            },
            ConfigError::ParseError(p, e) => {
                let mut out = String::from_str("Failed to parse config file at '");
                out.append(p.as_str());
                out.append("': ");
                out.append(e.as_str());
                out.append(".");
                out
            },
            ConfigError::ConfigNotFound(p) => {
                let mut out = String::from_str("Configuration not found at path: ");
                out.append(p.as_str());
                out
            },
            ConfigError::FolderMapEmpty(s) => {
                let mut out = String::from_str("The subgroup '");
                out.append(s.as_str());
                out.append("' was not found in your config file.");
                out
            },
        }
    }
}

} // verus!
