//! The command line: the subcommand and its arguments.
use vstd::prelude::*;

verus! {

/// The parsed command line.
#[derive(Debug)]
pub struct Cli {
    pub command: Commands,
}

/// The subcommands: `check` tells whether any Chinese comment exists, `scan` lists them,
/// `clean` removes them (or, with `dry_run`, lists what it would remove).
#[derive(Debug)]
pub enum Commands {
    Check { path: String },
    Scan { path: String, json: bool },
    Clean { path: String, line: bool, block: bool, trim_empty: bool, dry_run: bool, json: bool },
}

} // verus!
