//! The agent entity: a process identifier, its control socket path, and its
//! liveness classification.

pub mod files;
pub mod identities;
pub mod running_agents;

use vstd::prelude::*;

use crate::agent::identities::AgentIdentityStatus;

verus! {

/// One SSH agent as seen by a single inventory pass.
///
/// `socket_path` is the unique key for an agent across scans; `pid` may be a
/// real OS process id, an id inferred from the socket file name, or the
/// sentinel `"N/A"` when no id could be parsed. `is_running` is true only when
/// a live process was matched to this socket by the resolver.
#[derive(Debug, Default, PartialEq, Eq)]
pub struct Agent {
    pub pid: String,
    pub socket_path: String,
    pub is_running: bool,
}

impl Clone for Agent {
    fn clone(&self) -> (r: Self)
        ensures
            r == *self,
    {
        Agent {
            pid: self.pid.clone(),
            socket_path: self.socket_path.clone(),
            is_running: self.is_running,
        }
    }
}

impl Agent {
    /// What the one-line report of this agent says, given the result of an
    /// identity probe taken for it.
    pub open spec fn spec_describe(self, status: AgentIdentityStatus) -> Seq<char> {
        "PID "@ + self.pid@ + ": "@ + status.spec_describe() + " at "@ + self.socket_path@
            + " ("@ + (if self.is_running {
            "Running"@
        } else {
            "Dead"@
        }) + ")"@
    }

    /// Render the one-line report of this agent. The identity status is a
    /// snapshot the caller obtained from a probe of this agent.
    pub fn describe(&self, status: &AgentIdentityStatus) -> (r: String)
        ensures
            r@ == self.spec_describe(*status),
    {
        let mut r = String::from_str("PID ");
        r.append(self.pid.as_str());
        r.append(": ");
        let status_text = status.describe();
        r.append(status_text.as_str());
        r.append(" at ");
        r.append(self.socket_path.as_str());
        r.append(" (");
        r.append(if self.is_running {
            "Running"
        } else {
            "Dead"
        });
        r.append(")");
        r
    }
}

} // verus!
