use ssh_agency::agent::identities::AgentIdentityStatus;
use ssh_agency::agent::Agent;

#[test]
fn probe_classifies_the_sentinel_line() {
    let status = AgentIdentityStatus::classify("The agent has no identities.", "");
    assert_eq!(status, AgentIdentityStatus::NoIdentities);
    // trailing newline from the tool changes nothing
    let status = AgentIdentityStatus::classify("The agent has no identities.\n", "");
    assert_eq!(status, AgentIdentityStatus::NoIdentities);
}

#[test]
fn probe_counts_identity_lines() {
    let stdout = "256 SHA256:aaaa key-one (ED25519)\n256 SHA256:bbbb key-two (ED25519)\n256 SHA256:cccc key-three (ED25519)\n";
    let status = AgentIdentityStatus::classify(stdout, "");
    assert_eq!(status, AgentIdentityStatus::Identities(3));
    let status = AgentIdentityStatus::classify("one line", "");
    assert_eq!(status, AgentIdentityStatus::Identities(1));
    let status = AgentIdentityStatus::classify("", "");
    assert_eq!(status, AgentIdentityStatus::Identities(0));
}

#[test]
fn probe_recognizes_a_refused_connection() {
    let stderr = "Could not open a connection to your authentication agents.\n";
    let status = AgentIdentityStatus::classify("", stderr);
    assert_eq!(status, AgentIdentityStatus::ConnectionRefused);
    // the refusal wins even when stdout holds text
    let status = AgentIdentityStatus::classify("whatever the tool printed", stderr);
    assert_eq!(status, AgentIdentityStatus::ConnectionRefused);
    // a different error text is not a refusal and classifies by stdout
    let status = AgentIdentityStatus::classify("a\nb", "some unrelated warning");
    assert_eq!(status, AgentIdentityStatus::Identities(2));
}

#[test]
fn status_reports_read_naturally() {
    assert_eq!(AgentIdentityStatus::NoIdentities.describe(), "No identities");
    assert_eq!(AgentIdentityStatus::Identities(1).describe(), "1 identity");
    assert_eq!(
        AgentIdentityStatus::Identities(3).describe(),
        "3 identities"
    );
    assert_eq!(
        AgentIdentityStatus::ConnectionRefused.describe(),
        "Connection attempt refused"
    );
}

#[test]
fn agent_report_names_pid_status_and_socket() {
    let agent = Agent {
        pid: "705".to_string(),
        socket_path: "/tmp/ssh-Ojfuw4Y4n9Fm/agent.704".to_string(),
        is_running: true,
    };
    let line = agent.describe(&AgentIdentityStatus::Identities(1));
    assert_eq!(
        line,
        "PID 705: 1 identity at /tmp/ssh-Ojfuw4Y4n9Fm/agent.704 (Running)"
    );
    let dead = Agent {
        pid: "N/A".to_string(),
        socket_path: "/tmp/ssh-x/agent.9".to_string(),
        is_running: false,
    };
    let line = dead.describe(&AgentIdentityStatus::ConnectionRefused);
    assert_eq!(
        line,
        "PID N/A: Connection attempt refused at /tmp/ssh-x/agent.9 (Dead)"
    );
}
