use vstd::prelude::*;
use crate::options::{merge_excludes, merged, ExcludeArgs, OutputArgs};

verus! {

/// Concatenate the files of one module directory.
pub struct ModuleArgs {
    pub path: String,
    pub exclude_args: ExcludeArgs,
    pub output_args: OutputArgs,
}

/// A resolved module request: the directory, the exclude patterns, and where
/// output goes.
pub struct ModuleRequest {
    pub path: String,
    pub excludes: Vec<String>,
    pub output: Option<String>,
}

/// Resolves the arguments: the module directory, with the command-line
/// excludes followed by those of the configuration.
pub fn run(args: ModuleArgs, config_excludes: Vec<String>) -> (r: ModuleRequest)
    ensures
        r.path@ == args.path@,
        r.output == args.output_args.output,
        merged(r.excludes@, args.exclude_args.exclude@, config_excludes@),
{
    let ModuleArgs { path, exclude_args, output_args } = args;
    let excludes = merge_excludes(&exclude_args.exclude, &config_excludes);
    ModuleRequest { path, excludes, output: output_args.output }
}

} // verus!
