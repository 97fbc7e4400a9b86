//! What the command-line collaborator hands the library: which file to
//! decode and whether to pretty-print the decode trace.

use vstd::prelude::*;

verus! {

/// A decode request: the input path and the debug flag.
#[derive(Debug)]
pub struct Config {
    pub filename: String,
    pub debug: bool,
}

impl Config {
    /// Bundle a parsed command line.
    pub fn new(filename: String, debug: bool) -> (r: Config)
        ensures
            r.filename@ == filename@,
            r.debug == debug,
    {
        Config { filename, debug }
    }
}

} // verus!
