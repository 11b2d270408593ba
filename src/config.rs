use vstd::prelude::*;

use crate::search::{matching_lines, matching_lines_folded, search, search_case_insensitive};
use crate::text::views;

verus! {

/// Why a list of arguments gives no configuration.
#[derive(Debug, Clone, Copy, PartialEq, Eq, Structural)]
pub enum ConfigError {
    /// The query or the file name is missing.
    InsufficientArguments,
}

impl ConfigError {
    /// The text shown to the user for this error.
    pub fn message(&self) -> (r: &'static str)
        ensures
            r@ == "Not enough arguments"@,
    {
        "Not enough arguments"
    }
}

/// What to search for, where, and whether letter case counts.
pub struct Config {
    pub query: String,
    pub filename: String,
    pub case_sensitive: bool,
}

/// The flag that asks for a case-insensitive search.
pub open spec fn insensitive_flag() -> Seq<char> {
    seq!['-', 'S']
}

/// The flag stands among the arguments after the query and the file name.
pub open spec fn flag_given(args: Seq<String>) -> bool {
    exists|i: int| 3 <= i < args.len() && (#[trigger] args[i])@ == insensitive_flag()
}

impl Config {
    /// Reads a configuration from `args`: the program name, the query, the file name, then
    /// flags. The search ignores letter case when the flag `-S` is among the flags, and
    /// otherwise when `case_insensitive_env` says so (the variable `CASE_INSENSITIVE` is set).
    pub fn new(args: &[String], case_insensitive_env: bool) -> (r: Result<Config, ConfigError>)
        ensures
            r is Err <==> args@.len() < 3,
            r matches Err(e) ==> e == ConfigError::InsufficientArguments,
            r matches Ok(c) ==> {
                &&& c.query@ == args@[1]@
                &&& c.filename@ == args@[2]@
                &&& c.case_sensitive == !(flag_given(args@) || case_insensitive_env)
            },
    {
        if args.len() < 3 {
            return Err(ConfigError::InsufficientArguments);
        }
        let query = args[1].clone();
        let filename = args[2].clone();
        let flag = "-S".to_owned();
        proof {
            reveal_strlit("-S");
            assert(flag@ =~= insensitive_flag());
        }
        let mut flagged = false;
        for i in 3..args.len()
            invariant
                flag@ == insensitive_flag(),
                flagged <==> exists|j: int| 3 <= j < i && (#[trigger] args@[j])@ == insensitive_flag(),
        {
            if args[i] == flag {
                flagged = true;
            }
        }
        let case_sensitive = !(flagged || case_insensitive_env);
        Ok(Config { query, filename, case_sensitive })
    }
}

/// The lines of `contents` that match `config`'s query, with or without letter case as it
/// asks, in order.
pub fn run_search<'a>(config: &Config, contents: &'a str) -> (r: Vec<&'a str>)
    ensures
        config.case_sensitive ==> views(r@) == matching_lines(config.query@, contents@),
        !config.case_sensitive ==> views(r@) == matching_lines_folded(config.query@, contents@),
{
    if config.case_sensitive {
        search(config.query.as_str(), contents)
    } else {
        search_case_insensitive(config.query.as_str(), contents)
    }
}

} // verus!
