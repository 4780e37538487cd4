//! What a scan is asked to do.

use vstd::prelude::*;
use crate::cli::ScanArgs;
use crate::ignore::IgnoreConfig;
use crate::output::OutputFormat;

verus! {

/// The parameters of one scan.
#[derive(Clone, Debug)]
pub struct ScanPlan {
    pub root: String,
    pub top_files: usize,
    pub top_dirs: usize,
    pub min_size: u64,
    pub format: OutputFormat,
    pub ignore: IgnoreConfig,
}

/// The scan that the arguments of `scan` ask for.
pub fn plan_from_args(args: ScanArgs) -> (plan: ScanPlan)
    ensures
        plan.root == args.path,
        plan.top_files == args.top_files,
        plan.top_dirs == args.top_dirs,
        plan.min_size == args.min_size,
        plan.format == args.format,
        plan.ignore.patterns == args.ignore,
        plan.ignore.ignore_file == args.ignore_file,
{
    ScanPlan {
        root: args.path,
        top_files: args.top_files,
        top_dirs: args.top_dirs,
        min_size: args.min_size,
        format: args.format,
        ignore: IgnoreConfig { patterns: args.ignore, ignore_file: args.ignore_file },
    }
}

} // verus!
