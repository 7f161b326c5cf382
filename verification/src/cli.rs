//! The command-line options, as plain data. Argument parsing itself is I/O
//! glue and lives outside this crate; the options arrive here as booleans.

use vstd::prelude::*;

verus! {

/// The mutually exclusive consolidation choices.
#[derive(Debug, Clone, Copy, Default, PartialEq, Eq)]
pub struct Reducers {
    pub reduce_by_count: bool,
    pub reduce_simple: bool,
}

/// The full option set of one invocation.
#[derive(Debug, Clone, Copy, Default, PartialEq, Eq)]
pub struct Cli {
    pub reducers: Reducers,
    pub show_agents: bool,
    pub ez: bool,
    pub purge_empty_agents: bool,
}

} // verus!
