use vstd::prelude::*;

verus! {

use vstd::string::StringExecFns;

use crate::configs::config_error::ConfigError;

/// What can go wrong while resolving the command line: a key that is neither
/// a path nor a configuration entry, or a configuration error.
#[derive(Debug)]
pub enum CLIError {
    PathOrConfigError(String),
    ConfigError(ConfigError),
}

impl From<ConfigError> for CLIError {
    fn from(error: ConfigError) -> (r: Self)
        ensures
            r == CLIError::ConfigError(error),
    {
        CLIError::ConfigError(error)
    }
}

impl vstd::std_specs::convert::FromSpecImpl<ConfigError> for CLIError {
    open spec fn obeys_from_spec() -> bool {
        true
    }

    open spec fn from_spec(error: ConfigError) -> Self {
        CLIError::ConfigError(error)
    }
}

impl CLIError {
    /// What `message` returns for each variant.
    pub open spec fn message_spec(&self) -> Seq<char> {
        match self {
            CLIError::PathOrConfigError(path) => "Your entered key: '"@ + path@
                + "' is neither a valid path or entry in your config."@,
            CLIError::ConfigError(error) => error.message_spec(),
        }
    }

    /// A sentence describing the error, for user-facing reporting.
    pub fn message(&self) -> (r: String)
        ensures
            r@ == self.message_spec(),
    {
        match self {
            CLIError::PathOrConfigError(path) => {
                let mut out = String::from_str("Your entered key: '");
                out.append(path.as_str());
                out.append("' is neither a valid path or entry in your config.");
                out
            },
            CLIError::ConfigError(error) => error.message(),
        }
    }
}

} // verus!
