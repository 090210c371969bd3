//! The configuration of a search, resolved from the arguments of an
//! invocation and one toggle of its environment.

use vstd::prelude::*;

verus! {

/// Name of the environment variable that turns case-sensitive matching off.
/// Only its presence counts: it may be set to any value, the empty one too.
pub const CASE_INSENSITIVE: &'static str = "CASE_INSENSITIVE";

/// What to search for, where, and how to compare.
#[derive(Debug, Clone, PartialEq, Eq)]
pub struct Config {
    /// The text that a line must hold to be reported.
    pub query: String,
    /// Names the source of the text to search, such as a file's path.
    pub filename: String,
    /// Whether upper and lower case differ in the comparison.
    pub case_sensitive: bool,
}

/// A configuration as plain values.
pub struct ConfigView {
    pub query: Seq<char>,
    pub filename: Seq<char>,
    pub case_sensitive: bool,
}

impl View for Config {
    type V = ConfigView;

    open spec fn view(&self) -> ConfigView {
        ConfigView {
            query: self.query@,
            filename: self.filename@,
            case_sensitive: self.case_sensitive,
        }
    }
}

/// Why no configuration could be resolved.
#[derive(Debug, Clone, Copy, PartialEq, Eq)]
pub enum ConfigError {
    /// The arguments hold no query.
    MissingQuery,
    /// The arguments hold a query, but name no source.
    MissingSource,
}

impl ConfigError {
    /// The sentence that `message` returns.
    pub open spec fn wording(self) -> Seq<char> {
        match self {
            ConfigError::MissingQuery => "Didn't get a query string"@,
            ConfigError::MissingSource => "Didn't get a file name"@,
        }
    }

    /// A sentence that tells the user what is missing.
    pub fn message(&self) -> (text: &'static str)
        ensures
            text@ == self.wording(),
    {
        match self {
            ConfigError::MissingQuery => "Didn't get a query string",
            ConfigError::MissingSource => "Didn't get a file name",
        }
    }
}

impl Config {
    /// Resolves a configuration from the arguments of an invocation.
    ///
    /// The first argument names the program and is passed over, whatever it
    /// holds. The second is the query, the third names the source; any
    /// further ones are ignored. `toggle` is the value of the environment
    /// variable `CASE_INSENSITIVE`, or `None` where it is not set: matching
    /// is case-sensitive exactly when it is not set.
    pub fn new(args: Vec<String>, toggle: Option<String>) -> (resolved: Result<
        Config,
        ConfigError,
    >)
        ensures
            args@.len() < 2 ==> resolved == Err::<Config, ConfigError>(ConfigError::MissingQuery),
            args@.len() == 2 ==> resolved == Err::<Config, ConfigError>(
                ConfigError::MissingSource,
            ),
            args@.len() >= 3 ==> resolved is Ok && resolved->Ok_0@ == (ConfigView {
                query: args@[1]@,
                filename: args@[2]@,
                case_sensitive: toggle is None,
            }),
    {
        let mut args = args;
        if args.len() < 2 {
            return Err(ConfigError::MissingQuery);
        }
        if args.len() < 3 {
            return Err(ConfigError::MissingSource);
        }
        let filename = args.swap_remove(2);
        let query = args.swap_remove(1);
        Ok(Config { query, filename, case_sensitive: toggle.is_none() })
    }
}

} // verus!
