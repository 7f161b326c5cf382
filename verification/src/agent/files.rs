//! The safety rule the socket janitor must obey before touching the
//! filesystem.

use vstd::prelude::*;

use crate::agent::Agent;

verus! {

impl Agent {
    /// Whether the janitor may remove this agent's socket file and its parent
    /// directory. Removal is only ever allowed for an agent classified dead:
    /// deleting the socket of a live agent would sever an in-use endpoint, so
    /// a caller that finds this false must report an error instead of acting.
    pub fn may_clean_socket(&self) -> (r: bool)
        ensures
            r == !self.is_running,
    {
        !self.is_running
    }
}

} // verus!
