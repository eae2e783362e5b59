//! The configuration value: the pattern to search for, the name of the file
//! to search, and the matching mode, built from plain argument and
//! environment values that the caller looked up.

use vstd::prelude::*;

verus! {

/// One run's settings. `case_sensitive` defaults to true and turns false
/// only when the case-insensitivity environment variable is present.
pub struct Config {
    pub pattern: String,
    pub filename: String,
    pub case_sensitive: bool,
}

impl Config {
    /// Builds a configuration from the invocation arguments (the first one
    /// being the program name, which is skipped) and from the value of the
    /// case-insensitivity environment variable, `None` when it is unset.
    /// Fails exactly when fewer than two arguments follow the program name;
    /// further arguments are ignored.
    pub fn new(args: Vec<String>, case_insensitive: Option<String>) -> (r: Result<
        Config,
        &'static str,
    >)
        ensures
            match r {
                Ok(c) => args@.len() >= 3 && c.pattern@ == args.deep_view()[1] && c.filename@
                    == args.deep_view()[2] && c.case_sensitive == (case_insensitive is None),
                Err(e) => args@.len() < 3 && e@ == "Not enough arguments"@,
            },
    {
        if args.len() < 3 {
            return Err("Not enough arguments");
        }
        let pattern = args[1].clone();
        let filename = args[2].clone();
        let case_sensitive = case_insensitive.is_none();
        Ok(Config { pattern, filename, case_sensitive })
    }
}

} // verus!
