//! The search configuration and its builder.

use vstd::prelude::*;

verus! {

/// One run's configuration: what to search for, where, and whether to fold
/// case. Immutable once built.
pub struct Config {
    /// The substring being searched for.
    pub query: String,
    /// The path of the file whose lines are searched.
    pub file_path: String,
    /// When set, lines are matched case-insensitively.
    pub ignore_case: bool,
}

impl Config {
    /// Builds a configuration from a command line: the program name, the
    /// query and the file path, in that order. Arguments past the third are
    /// ignored. The caller resolves the case-folding flag (in the program,
    /// the presence of the `IGNORE_CASE` environment variable) and passes
    /// it in, so that building is a pure function of its arguments.
    pub fn build(args: &[String], ignore_case: bool) -> (result: Result<Config, &'static str>)
        ensures
            result is Ok <==> args@.len() >= 3,
            result matches Ok(config) ==> {
                &&& config.query@ == args@[1]@
                &&& config.file_path@ == args@[2]@
                &&& config.ignore_case == ignore_case
            },
    {
        if args.len() < 3 {
            return Err("not enough arguments\nusage: minigrep <query> <file_path>");
        }
        let query = args[1].clone();
        let file_path = args[2].clone();
        Ok(Config { query, file_path, ignore_case })
    }
}

} // verus!
