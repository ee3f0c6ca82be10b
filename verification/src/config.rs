//! Startup configuration: the directory uploaded files are written to.

use vstd::prelude::*;

verus! {

/// The configuration shared, read-only, by every request handler.
pub struct Config {
    /// The directory files are created in.
    pub output_dir: String,
}

/// Resolves the output directory: the one given on the command line, or
/// the process's current working directory when none was given.
pub fn resolve_config(output: Option<String>, current_dir: String) -> (c: Config)
    ensures
        (match output {
            Some(dir) => c.output_dir@ == dir@,
            None => c.output_dir@ == current_dir@,
        }),
{
    match output {
        Some(dir) => Config { output_dir: dir },
        None => Config { output_dir: current_dir },
    }
}

} // verus!
