//! The command-line options the daemon runs with. Reading the process
//! arguments is the daemon's business; the engine only consumes the result.

use vstd::prelude::*;

verus! {

/// The daemon's command-line options.
pub struct Args {
    /// Run without touching the filesystem: the copy tool is never invoked
    /// and moves are assumed to succeed.
    pub dryrun: bool,
    /// Path of the configuration file.
    pub config: String,
    /// Size of the mover pool.
    pub threads: usize,
}

impl Args {
    pub fn new(dryrun: bool, config: String, threads: usize) -> (r: Args)
        ensures
            r.dryrun == dryrun,
            r.config@ == config@,
            r.threads == threads,
    {
        Args { dryrun, config, threads }
    }
}

} // verus!
