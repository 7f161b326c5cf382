use ssh_agency::agent::identities::AgentIdentityStatus;
use ssh_agency::agent::running_agents::purge_empty_agents;
use ssh_agency::agent::Agent;

fn make_agent(n: u32) -> Agent {
    Agent {
        pid: format!("{}", 700 + n),
        socket_path: format!("/tmp/ssh-dir{}/agent.{}", n, 700 + n),
        is_running: true,
    }
}

#[test]
fn purge_agents() {
    // one empty agent: the purge terminates it
    let agents = vec![make_agent(1)];
    let statuses = vec![AgentIdentityStatus::NoIdentities];
    let (kept, doomed) = purge_empty_agents(agents, &statuses);
    assert_ne!(doomed.len(), 0);
    assert_eq!(kept.len(), 0);
    assert_eq!(doomed[0].pid, "701");

    // no agents: the purge has nothing to do
    let (kept, doomed) = purge_empty_agents(Vec::new(), &Vec::new());
    assert_eq!(kept.len(), 0);
    assert_eq!(doomed.len(), 0);

    // one agent with an identity loaded: the purge leaves it alone
    let agents = vec![make_agent(2)];
    let statuses = vec![AgentIdentityStatus::Identities(1)];
    let (kept, doomed) = purge_empty_agents(agents, &statuses);
    assert_eq!(kept.len(), 1);
    assert_eq!(doomed.len(), 0);
}

#[test]
fn show_agents() {
    let agent = make_agent(1);
    let output = agent.describe(&AgentIdentityStatus::NoIdentities);
    assert!(output.contains("No identities"));
    assert!(output.contains(&agent.pid));
    assert!(output.contains(&agent.socket_path));

    let agent_with_ids = make_agent(2);
    let output = agent_with_ids.describe(&AgentIdentityStatus::Identities(1));
    assert!(output.contains("1 identity"));
    assert!(output.contains(&agent_with_ids.pid));
    assert!(output.contains(&agent_with_ids.socket_path));
}

#[test]
fn reduce_by_count() {
    let mut agents: Vec<Agent> = (1..=5).map(make_agent).collect();
    let mut statuses = vec![AgentIdentityStatus::NoIdentities; 5];
    let agent_with_identity = make_agent(6);
    agents.push(agent_with_identity.clone());
    statuses.push(AgentIdentityStatus::Identities(1));
    assert_eq!(agents.len(), 6);

    let (kept, doomed) = ssh_agency::agent::running_agents::reduce_by_count(agents, &statuses);
    assert_eq!(kept.len(), 1);
    assert!(kept[0].pid.contains(&agent_with_identity.pid));
    println!("{:?}", &kept);
    for a in doomed {
        println!("{}", &a.pid);
        assert!(a.pid != agent_with_identity.pid);
    }
}

#[test]
fn reduce_simple() {
    let agents: Vec<Agent> = (1..=5).map(make_agent).collect();
    assert_eq!(agents.len(), 5);

    let (kept, doomed) = ssh_agency::agent::running_agents::reduce_simple(agents);
    assert_eq!(kept.len(), 1);
    assert_eq!(kept[0].pid, "701");
    assert_eq!(doomed.len(), 4);
}
