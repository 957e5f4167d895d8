//! What the command line asks for, as plain values.
use vstd::prelude::*;

use crate::rollup::SortType;

verus! {

/// The two record encodings: one JSON object per line, or CSV with a header row.
#[derive(Clone, Copy, Debug, PartialEq, Eq, Structural)]
pub enum Format {
    Json,
    Csv,
}

pub enum Command {
    /// Walk a directory and record one summary per directory.
    Scan {
        threads: Option<usize>,
        ignore_hidden: bool,
        actual_size: bool,
        output: Option<String>,
        path: String,
        format: Format,
    },
    /// Roll recorded summaries up by path prefix.
    Parse {
        depth: usize,
        prefix: String,
        limit: Option<usize>,
        input: String,
        format: Format,
        sort: SortType,
    },
}

pub struct Args {
    pub cmd: Command,
}

/// The number of walker threads: the one asked for, or twice the number of
/// CPUs.
pub fn thread_count(requested: Option<usize>, cpus: usize) -> (r: usize)
    requires
        requested is None ==> 2 * cpus <= usize::MAX,
    ensures
        r == match requested {
            Some(t) => t as int,
            None => 2 * cpus,
        },
{
    match requested {
        Some(t) => t,
        None => 2 * cpus,
    }
}

} // verus!
