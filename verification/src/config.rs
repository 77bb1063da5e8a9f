//! Configuration resolution: turning raw positional arguments and an external
//! override signal into an immutable search configuration.

use vstd::prelude::*;

verus! {

/// Which positional argument is absent from the argument list.
#[derive(Clone, Copy, Debug, PartialEq, Eq, Structural)]
pub enum MissingArg {
    Query,
    Source,
}

/// The resolver's only failure: too few positional arguments were supplied.
/// The payload names the first argument that is missing.
#[derive(Clone, Copy, Debug, PartialEq, Eq, Structural)]
pub enum ConfigError {
    MissingArgument(MissingArg),
}

/// The immutable configuration of one search invocation.
///
/// `query` and `source` are owned copies of the positional arguments; later
/// changes to the argument list cannot reach them.
#[derive(Clone, Debug, PartialEq)]
pub struct Config {
    /// The characters to look for in each line.
    pub query: String,
    /// Names where the content is fetched from; handed to an external reader
    /// untouched, never interpreted here.
    pub source: String,
    /// When true, containment ignores letter case.
    pub case_insensitive: bool,
}

/// Validates the argument list and copies its positional values into a
/// [`Config`].
///
/// `args` is expected to hold the program name followed by two positional
/// values, the query and the source; with fewer, the result names the first
/// missing one. `case_insensitive_override` models an external signal whose
/// mere presence, whatever value it carries, forces case-insensitive matching.
pub fn resolve(args: &Vec<String>, case_insensitive_override: Option<bool>) -> (r: Result<
    Config,
    ConfigError,
>)
    ensures
        r is Ok <==> args@.len() >= 3,
        r is Ok ==> r->Ok_0.query@ == args@[1]@,
        r is Ok ==> r->Ok_0.source@ == args@[2]@,
        r is Ok ==> r->Ok_0.case_insensitive == (case_insensitive_override is Some),
        args@.len() < 2 ==> r == Err::<Config, ConfigError>(
            ConfigError::MissingArgument(MissingArg::Query),
        ),
        args@.len() == 2 ==> r == Err::<Config, ConfigError>(
            ConfigError::MissingArgument(MissingArg::Source),
        ),
{
    if args.len() < 2 {
        Err(ConfigError::MissingArgument(MissingArg::Query))
    } else if args.len() < 3 {
        Err(ConfigError::MissingArgument(MissingArg::Source))
    } else {
        Ok(
            Config {
                query: args[1].clone(),
                source: args[2].clone(),
                case_insensitive: case_insensitive_override.is_some(),
            },
        )
    }
}

} // verus!
