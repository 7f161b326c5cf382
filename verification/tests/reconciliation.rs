use ssh_agency::agent::identities::AgentIdentityStatus;
use ssh_agency::agent::running_agents::{
    candidate_from_socket, check_agents, get_dead_agents, is_candidate_dir, parse_process_table,
    pid_from_socket_name, purge_empty_agents_retain_one, reconcile, resolve_agent_pids,
    RunningAgentCheckStatus,
};
use ssh_agency::agent::Agent;

fn candidate(pid: &str, dir: &str) -> Agent {
    Agent {
        pid: pid.to_string(),
        socket_path: format!("/tmp/ssh-{}/agent.{}", dir, pid),
        is_running: false,
    }
}

#[test]
fn reconcile_partitions_the_candidates() {
    let candidates = vec![
        candidate("100", "aa"),
        candidate("200", "bb"),
        candidate("300", "cc"),
    ];
    let live = vec![Agent {
        pid: "201".to_string(),
        socket_path: candidates[1].socket_path.clone(),
        is_running: true,
    }];
    let (live_out, dead) = reconcile(candidates.clone(), live.clone());
    assert_eq!(live_out, live);
    assert_eq!(dead.len(), 2);
    assert_eq!(dead[0].socket_path, candidates[0].socket_path);
    assert_eq!(dead[1].socket_path, candidates[2].socket_path);
    // no socket path is lost, duplicated between the parts, or invented
    for c in &candidates {
        let in_live = live_out.iter().any(|a| a.socket_path == c.socket_path);
        let in_dead = dead.iter().any(|a| a.socket_path == c.socket_path);
        assert!(in_live != in_dead);
    }
}

#[test]
fn reconcile_of_nothing_is_nothing() {
    let (live, dead) = reconcile(Vec::new(), Vec::new());
    assert!(live.is_empty());
    assert!(dead.is_empty());
    // and the janitor is never handed a live agent's socket
    let running = Agent {
        pid: "7".to_string(),
        socket_path: "/tmp/ssh-x/agent.7".to_string(),
        is_running: true,
    };
    assert!(!running.may_clean_socket());
    let dead_agent = Agent {
        pid: "8".to_string(),
        socket_path: "/tmp/ssh-y/agent.8".to_string(),
        is_running: false,
    };
    assert!(dead_agent.may_clean_socket());
}

#[test]
fn dead_agents_keyed_by_socket_path_not_pid() {
    let all = vec![candidate("100", "aa"), candidate("200", "bb")];
    let running = vec![Agent {
        pid: "999".to_string(),
        socket_path: all[0].socket_path.clone(),
        is_running: true,
    }];
    let dead = get_dead_agents(all, running);
    // the pid differs but the socket matches, so only the second is dead
    assert_eq!(dead.len(), 1);
    assert_eq!(dead[0].pid, "200");
}

#[test]
fn nearest_pid_pairing_picks_the_closer_candidate() {
    let candidates = vec![candidate("100", "aa"), candidate("500", "bb")];
    let live = resolve_agent_pids(&candidates, &vec![200]);
    assert_eq!(live.len(), 1);
    assert_eq!(live[0].pid, "200");
    assert_eq!(live[0].socket_path, candidates[0].socket_path);
    assert!(live[0].is_running);
}

#[test]
fn unparsable_candidate_loses_the_tie() {
    let candidates = vec![candidate("N/A", "aa"), candidate("500", "bb")];
    let live = resolve_agent_pids(&candidates, &vec![200]);
    assert_eq!(live.len(), 1);
    // distance to "N/A" is 2 * 200 = 400; distance to "500" is 300
    assert_eq!(live[0].socket_path, candidates[1].socket_path);
}

#[test]
fn scan_and_resolve_one_agent() {
    // one candidate directory holding socket `agent.704`
    assert!(is_candidate_dir("/tmp/ssh-Ojfuw4Y4n9Fm"));
    assert!(!is_candidate_dir("/tmp/systemd-private"));
    assert_eq!(pid_from_socket_name("agent.704"), "704");
    let cand = candidate_from_socket("agent.704", "/tmp/ssh-Ojfuw4Y4n9Fm/agent.704".to_string());
    assert_eq!(cand.pid, "704");
    assert!(!cand.is_running);

    // the process table reports live pid 705 for the launcher's signature
    let table = "user       705     1  0 10:02 ?        00:00:00 ssh-agent -s\n";
    let pids = parse_process_table(table);
    assert_eq!(pids, vec![705]);

    let live = resolve_agent_pids(&vec![cand.clone()], &pids);
    assert_eq!(live.len(), 1);
    assert_eq!(live[0].pid, "705");
    assert_eq!(live[0].socket_path, cand.socket_path);
    assert!(live[0].is_running);
}

#[test]
fn process_table_parsing_edges() {
    // no text, no pids
    assert_eq!(parse_process_table(""), Vec::<i32>::new());
    // a line with a single field reports nothing
    assert_eq!(parse_process_table("loneword\n"), Vec::<i32>::new());
    // an unparsable pid field becomes -1
    assert_eq!(parse_process_table("user abc rest\n"), vec![-1]);
    // several lines, mixed
    let table = "user 11 a\nuser 22 b\n\nuser notanumber c\n";
    assert_eq!(parse_process_table(table), vec![11, 22, -1]);
}

#[test]
fn resolver_renders_negative_pids() {
    // a pid the table could not parse flows through as the string "-1"
    let candidates = vec![candidate("100", "aa")];
    let live = resolve_agent_pids(&candidates, &vec![-1]);
    assert_eq!(live.len(), 1);
    assert_eq!(live[0].pid, "-1");
}

#[test]
fn resolver_never_duplicates_a_socket() {
    // two live pids nearest to the same single candidate: the candidate is
    // paired once, with its first claimant in table order
    let candidates = vec![candidate("100", "aa")];
    let live = resolve_agent_pids(&candidates, &vec![1, 2]);
    assert_eq!(live.len(), 1);
    assert_eq!(live[0].pid, "1");
    assert_eq!(live[0].socket_path, candidates[0].socket_path);

    // three pids over two candidates: each candidate keeps its first
    // claimant, the third pid claims an already-taken socket and is dropped
    let candidates = vec![candidate("100", "aa"), candidate("500", "bb")];
    let live = resolve_agent_pids(&candidates, &vec![499, 101, 502]);
    assert_eq!(live.len(), 2);
    assert_eq!(live[0].pid, "499");
    assert_eq!(live[0].socket_path, candidates[1].socket_path);
    assert_eq!(live[1].pid, "101");
    assert_eq!(live[1].socket_path, candidates[0].socket_path);
    // every socket path in the result is distinct
    assert!(live[0].socket_path != live[1].socket_path);
}

#[test]
fn empty_candidates_pair_with_nothing() {
    let live = resolve_agent_pids(&Vec::new(), &vec![100, 200]);
    assert!(live.is_empty());
}

#[test]
fn socket_name_parsing_edges() {
    assert_eq!(pid_from_socket_name("agent"), "N/A");
    assert_eq!(pid_from_socket_name("agent."), "");
    assert_eq!(pid_from_socket_name("a.b.c"), "b");
    assert_eq!(pid_from_socket_name(".704"), "704");
}

#[test]
fn check_agents_counts_the_inventory() {
    let none: Vec<Agent> = Vec::new();
    assert!(matches!(
        check_agents(&none),
        RunningAgentCheckStatus::NoAgents
    ));
    let one = vec![candidate("100", "aa")];
    match check_agents(&one) {
        RunningAgentCheckStatus::SingleAgent(a) => {
            assert_eq!(a.pid, "100");
            assert_eq!(a.socket_path, one[0].socket_path);
        }
        _ => panic!("expected a single agent"),
    }
    let two = vec![candidate("100", "aa"), candidate("200", "bb")];
    assert!(matches!(
        check_agents(&two),
        RunningAgentCheckStatus::MultipleAgents
    ));
}

#[test]
fn retain_one_never_empties_the_inventory() {
    // all agents empty: the last one found is excused
    let agents = vec![candidate("1", "aa"), candidate("2", "bb"), candidate("3", "cc")];
    let statuses = vec![AgentIdentityStatus::NoIdentities; 3];
    let (kept, doomed) = purge_empty_agents_retain_one(agents, &statuses);
    assert_eq!(kept.len(), 1);
    assert_eq!(kept[0].pid, "3");
    assert_eq!(doomed.len(), 2);

    // a non-empty agent exists: every empty one goes
    let agents = vec![candidate("1", "aa"), candidate("2", "bb")];
    let statuses = vec![
        AgentIdentityStatus::NoIdentities,
        AgentIdentityStatus::Identities(2),
    ];
    let (kept, doomed) = purge_empty_agents_retain_one(agents, &statuses);
    assert_eq!(kept.len(), 1);
    assert_eq!(kept[0].pid, "2");
    assert_eq!(doomed.len(), 1);
    assert_eq!(doomed[0].pid, "1");
}
