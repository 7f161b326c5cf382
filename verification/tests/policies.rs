use ssh_agency::agent::identities::AgentIdentityStatus;
use ssh_agency::agent::running_agents::reduce_by_count;
use ssh_agency::agent::Agent;

fn live_agent(pid: &str) -> Agent {
    Agent {
        pid: pid.to_string(),
        socket_path: format!("/tmp/ssh-{}/agent.{}", pid, pid),
        is_running: true,
    }
}

#[test]
fn reduce_by_count_keeps_the_highest_count() {
    let agents = vec![live_agent("1"), live_agent("2"), live_agent("3")];
    let statuses = vec![
        AgentIdentityStatus::Identities(2),
        AgentIdentityStatus::Identities(7),
        AgentIdentityStatus::Identities(4),
    ];
    let (kept, doomed) = reduce_by_count(agents, &statuses);
    assert_eq!(kept.len(), 1);
    assert_eq!(kept[0].pid, "2");
    assert_eq!(doomed.len(), 2);
    assert_eq!(doomed[0].pid, "1");
    assert_eq!(doomed[1].pid, "3");
}

#[test]
fn reduce_by_count_breaks_ties_by_original_order() {
    let agents = vec![live_agent("1"), live_agent("2"), live_agent("3")];
    let statuses = vec![
        AgentIdentityStatus::Identities(5),
        AgentIdentityStatus::Identities(5),
        AgentIdentityStatus::Identities(1),
    ];
    let (kept, _) = reduce_by_count(agents, &statuses);
    assert_eq!(kept[0].pid, "1");
}

#[test]
fn refused_agents_terminated_ahead_of_reachable_ones() {
    let agents = vec![live_agent("1"), live_agent("2"), live_agent("3")];
    let statuses = vec![
        AgentIdentityStatus::ConnectionRefused,
        AgentIdentityStatus::NoIdentities,
        AgentIdentityStatus::ConnectionRefused,
    ];
    // the empty agent still outranks every refused one
    let (kept, doomed) = reduce_by_count(agents, &statuses);
    assert_eq!(kept[0].pid, "2");
    assert_eq!(doomed.len(), 2);
    assert_eq!(doomed[0].pid, "1");
    assert_eq!(doomed[1].pid, "3");
}

#[test]
fn all_refused_keeps_the_first() {
    let agents = vec![live_agent("1"), live_agent("2")];
    let statuses = vec![
        AgentIdentityStatus::ConnectionRefused,
        AgentIdentityStatus::ConnectionRefused,
    ];
    let (kept, doomed) = reduce_by_count(agents, &statuses);
    assert_eq!(kept[0].pid, "1");
    assert_eq!(doomed.len(), 1);
}
