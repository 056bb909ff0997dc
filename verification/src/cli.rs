//! The command line, as parsed: what to do and in which output format.

use vstd::prelude::*;
use vstd::string::*;

verus! {

/// What the command line asks for.
#[derive(Debug)]
pub enum Command {
    /// Store a build artifact (a file, or standard input) tagged by repository and commit.
    Store { tag: String, file: Option<Vec<u8>>, desc: Option<String> },
    /// List stored artifacts, optionally filtered by commit prefix or tag.
    List { commit: Option<String>, tag: Option<String> },
    /// Show the contents of a stored artifact.
    Show { id: String },
    /// Remove artifacts by age or count.
    Clean { older_than: Option<u64>, keep: Option<usize>, dry_run: bool },
    /// Show warehouse statistics.
    Stats,
}

/// The parsed command line: the command, the repository root (the current
/// directory where none is given) and the output format.
#[derive(Debug)]
pub struct Cli {
    pub command: Command,
    pub repo: Option<Vec<u8>>,
    pub format: String,
}

impl Cli {
    /// Whether output is to be JSON: the format is exactly `json`.
    pub fn is_json(&self) -> (r: bool)
        ensures
            r == (self.format@ == "json"@),
    {
        let json = String::from_str("json");
        self.format == json
    }
}

} // verus!
