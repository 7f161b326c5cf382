//! Classification of an agent's registered-credential state, and the parsing
//! of the identity-listing tool's textual response into that classification.

use vstd::prelude::*;

use crate::text::spec_i32_string;
use crate::text::i32_to_string;
use crate::text::contains_seq;
use crate::text::trimmed;
use crate::text::nonempty_line_count;
use crate::text::trim_str;
use crate::text::str_contains;
use crate::text::str_eq;
use crate::text::count_nonempty_lines;
use crate::text::lemma_trimmed_len;

verus! {

/// The single line the identity-listing tool prints when an agent is
/// reachable but holds no identities.
pub open spec fn no_identities_line() -> Seq<char> {
    "The agent has no identities."@
}

/// The fragment of the identity-listing tool's error text that signals the
/// endpoint actively refused the connection: the agent process is absent.
pub open spec fn refused_fragment() -> Seq<char> {
    "Could not open a connection to your authentication agents."@
}

/// The result of probing an agent's identity list.
///
/// A probe is a snapshot: it can go stale the instant the backing process
/// exits, so it is recomputed for every use and never cached in the agent
/// itself. An agent that is not alive answers the probe with a refused
/// connection, represented as `ConnectionRefused`.
#[derive(Debug, Default, PartialEq, Eq)]
pub enum AgentIdentityStatus {
    #[default]
    NoIdentities,
    Identities(i32),
    ConnectionRefused,
}

impl Clone for AgentIdentityStatus {
    fn clone(&self) -> (r: Self)
        ensures
            r == *self,
    {
        match self {
            AgentIdentityStatus::NoIdentities => AgentIdentityStatus::NoIdentities,
            AgentIdentityStatus::Identities(n) => AgentIdentityStatus::Identities(*n),
            AgentIdentityStatus::ConnectionRefused => AgentIdentityStatus::ConnectionRefused,
        }
    }
}

impl AgentIdentityStatus {
    /// What the short report of this status says.
    pub open spec fn spec_describe(self) -> Seq<char> {
        match self {
            AgentIdentityStatus::NoIdentities => "No identities"@,
            AgentIdentityStatus::Identities(n) => spec_i32_string(n as int) + " "@ + (if n == 1 {
                "identity"@
            } else {
                "identities"@
            }),
            AgentIdentityStatus::ConnectionRefused => "Connection attempt refused"@,
        }
    }

    /// How a probe's raw text classifies: a refused-connection message on the
    /// error stream means no live endpoint; otherwise the trimmed output is
    /// either exactly the no-identities sentinel line, or one listing line
    /// per identity.
    pub open spec fn spec_classify(stdout: Seq<char>, stderr: Seq<char>) -> AgentIdentityStatus {
        if contains_seq(trimmed(stderr), refused_fragment()) {
            AgentIdentityStatus::ConnectionRefused
        } else if trimmed(stdout) == no_identities_line() {
            AgentIdentityStatus::NoIdentities
        } else {
            AgentIdentityStatus::Identities(nonempty_line_count(trimmed(stdout)) as i32)
        }
    }

    /// Classify the identity-listing tool's response for one agent.
    ///
    /// The error text naming a refused connection is a recognized outcome,
    /// `ConnectionRefused`, so that policy code can rank a vanished agent
    /// instead of failing; transport failures that produce no response at all
    /// are the caller's to surface and never reach this function.
    pub fn classify(stdout: &str, stderr: &str) -> (r: AgentIdentityStatus)
        requires
            stdout@.len() <= 0x7fff_ffff,
        ensures
            r == AgentIdentityStatus::spec_classify(stdout@, stderr@),
    {
        let err_trimmed = trim_str(stderr);
        if str_contains(err_trimmed, "Could not open a connection to your authentication agents.")
        {
            return AgentIdentityStatus::ConnectionRefused;
        }
        let out_trimmed = trim_str(stdout);
        if str_eq(out_trimmed, "The agent has no identities.") {
            return AgentIdentityStatus::NoIdentities;
        }
        let count = count_nonempty_lines(out_trimmed);
        proof {
            lemma_trimmed_len(stdout@);
        }
        AgentIdentityStatus::Identities(count as i32)
    }

    /// Render the short report of this status.
    pub fn describe(&self) -> (r: String)
        ensures
            r@ == self.spec_describe(),
    {
        match self {
            AgentIdentityStatus::NoIdentities => String::from_str("No identities"),
            AgentIdentityStatus::Identities(n) => {
                let mut r = i32_to_string(*n);
                r.append(" ");
                r.append(
                    if *n == 1 {
                        "identity"
                    } else {
                        "identities"
                    },
                );
                r
            },
            AgentIdentityStatus::ConnectionRefused => String::from_str(
                "Connection attempt refused",
            ),
        }
    }
}

} // verus!
