//! The run configuration: query, path and case policy, built once at
//! startup and read-only thereafter.
//!
//! The surrounding program reads the process arguments and the
//! case-sensitivity environment toggle at its boundary and hands them in as
//! plain values; nothing here touches the environment.

use vstd::prelude::*;

verus! {

/// Why an operation failed.  Every failure is fatal: no retries, and a
/// failure on any single file aborts a whole directory scan.
#[derive(Clone, Copy, Debug, PartialEq, Eq, Structural)]
pub enum SearchError {
    /// Too few positional arguments were supplied.
    ArgumentError,
    /// The path does not exist, is unreadable, or is a special file.
    IOError,
    /// A file's bytes are not valid text.
    DecodeError,
}

impl SearchError {
    /// A short human-readable description of the failure.
    pub fn message(&self) -> (m: &'static str)
        ensures
            *self is ArgumentError ==> m@ == "Not enough arguments"@,
            *self is IOError ==> m@ == "Could not read the path"@,
            *self is DecodeError ==> m@ == "File contents are not valid text"@,
    {
        match self {
            SearchError::ArgumentError => "Not enough arguments",
            SearchError::IOError => "Could not read the path",
            SearchError::DecodeError => "File contents are not valid text",
        }
    }
}

/// What one run searches for, where, and under which case policy.
#[derive(Debug)]
pub struct Config {
    /// The substring being searched for.
    pub query: String,
    /// The file or directory whose contents are searched.
    pub file_path: String,
    /// True when matching lowercases both line and query first.
    pub ignore_case: bool,
}

impl Config {
    /// Builds the configuration from the positional arguments: argument 0
    /// is the program identifier, argument 1 the query, argument 2 the
    /// path.  `ignore_case` is the case-sensitivity toggle, read by the
    /// caller from its environment.  Fails when fewer than three arguments
    /// were supplied.
    pub fn build(args: &[String], ignore_case: bool) -> (r: Result<Config, SearchError>)
        ensures
            args@.len() < 3 ==> r == Result::<Config, SearchError>::Err(SearchError::ArgumentError),
            args@.len() >= 3 ==> {
                &&& r is Ok
                &&& r->Ok_0.query@ == args@[1]@
                &&& r->Ok_0.file_path@ == args@[2]@
                &&& r->Ok_0.ignore_case == ignore_case
            },
    {
        if args.len() < 3 {
            return Err(SearchError::ArgumentError);
        }
        let query = args[1].clone();
        let file_path = args[2].clone();
        Ok(Config { query, file_path, ignore_case })
    }
}

} // verus!
