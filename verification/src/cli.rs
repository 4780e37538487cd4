//! The command line, as plain data.

use vstd::prelude::*;
pub use crate::output::OutputFormat;

verus! {

/// The whole command line.
#[derive(Clone, Debug)]
pub struct Cli {
    pub command: Commands,
}

/// The subcommands.
#[derive(Clone, Debug)]
pub enum Commands {
    /// Scan a path and report its largest files and directories.
    Scan(ScanArgs),
}

/// The arguments of `scan`.
#[derive(Clone, Debug)]
pub struct ScanArgs {
    pub path: String,
    pub top_files: usize,
    pub top_dirs: usize,
    pub min_size: u64,
    pub format: OutputFormat,
    pub ignore: Vec<String>,
    pub ignore_file: Option<String>,
}

} // verus!
