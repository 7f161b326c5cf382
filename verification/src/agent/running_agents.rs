//! The reconciliation engine and the consolidation policies: merging the
//! socket scan with the process-table snapshot into a classified inventory,
//! and selecting which live agents to terminate.

use vstd::prelude::*;

use crate::agent::Agent;
use crate::agent::identities::AgentIdentityStatus;
use crate::text::spec_parse_i32;
use crate::text::spec_i32_string;
use crate::text::line_break;
use crate::text::second_token;
use crate::text::skip_spaces;
use crate::text::skip_token;
use crate::text::char_is_space;
use crate::text::parse_i32;
use crate::text::i32_to_string;
use crate::text::str_eq;

verus! {

/// The possible states of agents running on the system.
pub enum RunningAgentCheckStatus {
    SingleAgent(Agent),
    MultipleAgents,
    NoAgents,
}

/// Build a `RunningAgentCheckStatus` from the list of agents.
///
/// If the list has one agent, `RunningAgentCheckStatus::SingleAgent` carries a
/// copy of that agent.
pub fn check_agents(agents: &Vec<Agent>) -> (r: RunningAgentCheckStatus)
    ensures
        agents@.len() == 0 ==> r is NoAgents,
        agents@.len() == 1 ==> r == RunningAgentCheckStatus::SingleAgent(agents@[0]),
        agents@.len() > 1 ==> r is MultipleAgents,
{
    if agents.len() == 0 {
        RunningAgentCheckStatus::NoAgents
    } else if agents.len() == 1 {
        RunningAgentCheckStatus::SingleAgent(agents[0].clone())
    } else {
        RunningAgentCheckStatus::MultipleAgents
    }
}

/// Whether some agent of `agents` uses the socket at `path`.
pub open spec fn has_socket_path(agents: Seq<Agent>, path: Seq<char>) -> bool {
    exists|j: int| 0 <= j < agents.len() && agents[j].socket_path@ == path
}

/// The candidates whose socket path no live match shares, in input order.
/// Socket-path identity, not process-id identity, is the join key: a dead
/// candidate's inferred id is unreliable while its socket path is the ground
/// truth filesystem key.
pub open spec fn dead_filter(all: Seq<Agent>, running: Seq<Agent>) -> Seq<Agent>
    decreases all.len(),
{
    if all.len() == 0 {
        Seq::empty()
    } else {
        let rest = dead_filter(all.drop_last(), running);
        if has_socket_path(running, all.last().socket_path@) {
            rest
        } else {
            rest.push(all.last())
        }
    }
}

/// Whether some agent of `agents` shares a socket path with `a`.
fn shares_socket_path(agents: &Vec<Agent>, a: &Agent) -> (r: bool)
    ensures
        r == has_socket_path(agents@, a.socket_path@),
{
    let mut j: usize = 0;
    while j < agents.len()
        invariant
            0 <= j <= agents@.len(),
            forall|k: int| 0 <= k < j ==> agents@[k].socket_path@ != a.socket_path@,
        decreases agents@.len() - j,
    {
        if agents[j].socket_path == a.socket_path {
            return true;
        }
        j = j + 1;
    }
    false
}

/// Filter the agents in `all_agents` whose socket path appears nowhere in
/// `running_agents`: the dead set, eligible for socket cleanup.
pub fn get_dead_agents(all_agents: Vec<Agent>, running_agents: Vec<Agent>) -> (r: Vec<Agent>)
    ensures
        r@ == dead_filter(all_agents@, running_agents@),
{
    let mut r: Vec<Agent> = Vec::new();
    let mut i: usize = 0;
    while i < all_agents.len()
        invariant
            0 <= i <= all_agents@.len(),
            r@ == dead_filter(all_agents@.take(i as int), running_agents@),
        decreases all_agents@.len() - i,
    {
        proof {
            assert(all_agents@.take(i + 1).drop_last() =~= all_agents@.take(i as int));
            assert(all_agents@.take(i + 1).last() == all_agents@[i as int]);
        }
        if !shares_socket_path(&running_agents, &all_agents[i]) {
            let a = all_agents[i].clone();
            r.push(a);
        }
        i = i + 1;
    }
    proof {
        assert(all_agents@.take(all_agents@.len() as int) =~= all_agents@);
    }
    r
}

/// Merge the two snapshots into the classified inventory: the live inventory
/// is the resolver's output unchanged, and the dead set is every candidate
/// whose socket path no live match shares. Pure set computation; no side
/// effects.
pub fn reconcile(candidates: Vec<Agent>, live_matches: Vec<Agent>) -> (r: (Vec<Agent>, Vec<Agent>))
    ensures
        r.0@ == live_matches@,
        r.1@ == dead_filter(candidates@, live_matches@),
{
    let mut live_copy: Vec<Agent> = Vec::new();
    let mut i: usize = 0;
    while i < live_matches.len()
        invariant
            0 <= i <= live_matches@.len(),
            live_copy@ == live_matches@.take(i as int),
        decreases live_matches@.len() - i,
    {
        let a = live_matches[i].clone();
        live_copy.push(a);
        proof {
            assert(live_matches@.take(i + 1) =~= live_matches@.take(i as int).push(
                live_matches@[i as int],
            ));
        }
        i = i + 1;
    }
    proof {
        assert(live_matches@.take(live_matches@.len() as int) =~= live_matches@);
    }
    let dead = get_dead_agents(candidates, live_copy);
    (live_matches, dead)
}

/// The agents whose paired probe result found no identities, in input order.
/// `statuses[i]` is the probe result taken for `agents[i]`.
pub open spec fn empty_partition(agents: Seq<Agent>, statuses: Seq<AgentIdentityStatus>) -> Seq<
    Agent,
>
    decreases agents.len(),
{
    if agents.len() == 0 || statuses.len() == 0 {
        Seq::empty()
    } else {
        let rest = empty_partition(agents.drop_last(), statuses.drop_last());
        if statuses.last() is NoIdentities {
            rest.push(agents.last())
        } else {
            rest
        }
    }
}

/// The agents whose paired probe result found identities or reached no live
/// endpoint, in input order: the complement of `empty_partition`.
pub open spec fn retained_partition(agents: Seq<Agent>, statuses: Seq<AgentIdentityStatus>) -> Seq<
    Agent,
>
    decreases agents.len(),
{
    if agents.len() == 0 || statuses.len() == 0 {
        Seq::empty()
    } else {
        let rest = retained_partition(agents.drop_last(), statuses.drop_last());
        if statuses.last() is NoIdentities {
            rest
        } else {
            rest.push(agents.last())
        }
    }
}

/// The two partitions cover the input: every agent lands in exactly one.
pub proof fn lemma_partition_lengths(agents: Seq<Agent>, statuses: Seq<AgentIdentityStatus>)
    requires
        agents.len() == statuses.len(),
    ensures
        empty_partition(agents, statuses).len() + retained_partition(agents, statuses).len()
            == agents.len(),
    decreases agents.len(),
{
    if agents.len() > 0 {
        lemma_partition_lengths(agents.drop_last(), statuses.drop_last());
    }
}

/// Partition the live agents by their probe results: the agents to keep
/// (those with identities or an unreachable endpoint) and the agents to
/// terminate (those whose probe found no identities), each in input order.
/// Termination itself is external work the caller performs on the second
/// list.
pub fn purge_empty_agents(agents: Vec<Agent>, statuses: &Vec<AgentIdentityStatus>) -> (r: (
    Vec<Agent>,
    Vec<Agent>,
))
    requires
        agents@.len() == statuses@.len(),
    ensures
        r.0@ == retained_partition(agents@, statuses@),
        r.1@ == empty_partition(agents@, statuses@),
{
    let mut kept: Vec<Agent> = Vec::new();
    let mut doomed: Vec<Agent> = Vec::new();
    let mut i: usize = 0;
    while i < agents.len()
        invariant
            0 <= i <= agents@.len(),
            agents@.len() == statuses@.len(),
            kept@ == retained_partition(agents@.take(i as int), statuses@.take(i as int)),
            doomed@ == empty_partition(agents@.take(i as int), statuses@.take(i as int)),
        decreases agents@.len() - i,
    {
        proof {
            assert(agents@.take(i + 1).drop_last() =~= agents@.take(i as int));
            assert(statuses@.take(i + 1).drop_last() =~= statuses@.take(i as int));
            assert(agents@.take(i + 1).last() == agents@[i as int]);
            assert(statuses@.take(i + 1).last() == statuses@[i as int]);
        }
        let a = agents[i].clone();
        match statuses[i] {
            AgentIdentityStatus::NoIdentities => doomed.push(a),
            _ => kept.push(a),
        }
        i = i + 1;
    }
    proof {
        assert(agents@.take(agents@.len() as int) =~= agents@);
        assert(statuses@.take(statuses@.len() as int) =~= statuses@);
    }
    (kept, doomed)
}

/// What purge-empty-retain-one keeps: the non-empty partition, except that
/// when it would be empty while empty agents exist, the last empty agent is
/// excused and kept instead.
pub open spec fn retain_one_kept(agents: Seq<Agent>, statuses: Seq<AgentIdentityStatus>) -> Seq<
    Agent,
> {
    if retained_partition(agents, statuses).len() == 0 && empty_partition(agents, statuses).len()
        > 0 {
        seq![empty_partition(agents, statuses).last()]
    } else {
        retained_partition(agents, statuses)
    }
}

/// What purge-empty-retain-one terminates: the empty partition, minus the
/// excused last agent when every live agent was empty.
pub open spec fn retain_one_doomed(agents: Seq<Agent>, statuses: Seq<AgentIdentityStatus>) -> Seq<
    Agent,
> {
    if retained_partition(agents, statuses).len() == 0 && empty_partition(agents, statuses).len()
        > 0 {
        empty_partition(agents, statuses).drop_last()
    } else {
        empty_partition(agents, statuses)
    }
}

/// Partition the live agents as `purge_empty_agents` does, but never let the
/// kept list come out empty when the input was not: if every agent's probe
/// found no identities, the last one is excused from termination.
pub fn purge_empty_agents_retain_one(agents: Vec<Agent>, statuses: &Vec<AgentIdentityStatus>) -> (r:
    (Vec<Agent>, Vec<Agent>))
    requires
        agents@.len() == statuses@.len(),
    ensures
        r.0@ == retain_one_kept(agents@, statuses@),
        r.1@ == retain_one_doomed(agents@, statuses@),
{
    let (mut kept, mut doomed) = purge_empty_agents(agents, statuses);
    if kept.len() == 0 && doomed.len() > 0 {
        let excused = doomed.pop().unwrap();
        kept.push(excused);
    }
    (kept, doomed)
}

/// Purge-empty-retain-one never returns an empty inventory for a non-empty
/// input: at least one agent always survives.
pub proof fn lemma_retain_one_keeps_an_agent(agents: Seq<Agent>, statuses: Seq<
    AgentIdentityStatus,
>)
    requires
        agents.len() == statuses.len(),
        agents.len() > 0,
    ensures
        retain_one_kept(agents, statuses).len() > 0,
{
    lemma_partition_lengths(agents, statuses);
}

/// The sort rank of a probe result for reduce-by-count: a refused connection
/// ranks below every reachable agent, an empty agent ranks zero, and an agent
/// with identities ranks by their count.
pub open spec fn status_rank(status: AgentIdentityStatus) -> int {
    match status {
        AgentIdentityStatus::ConnectionRefused => -1,
        AgentIdentityStatus::NoIdentities => 0,
        AgentIdentityStatus::Identities(n) => n as int,
    }
}

/// The index of the first probe result of maximal rank: the agent
/// reduce-by-count keeps, with ties resolved in favour of the earliest in the
/// current order.
pub open spec fn first_best_index(statuses: Seq<AgentIdentityStatus>) -> int
    decreases statuses.len(),
{
    if statuses.len() <= 1 {
        0
    } else {
        let b = first_best_index(statuses.drop_last());
        if status_rank(statuses.last()) > status_rank(statuses[b]) {
            statuses.len() - 1
        } else {
            b
        }
    }
}

/// The surviving agent's rank is the maximum, and every earlier agent ranks
/// strictly below it: ties are resolved by original order.
pub proof fn lemma_first_best_index_is_max(statuses: Seq<AgentIdentityStatus>)
    requires
        statuses.len() > 0,
    ensures
        0 <= first_best_index(statuses) < statuses.len(),
        forall|i: int|
            0 <= i < statuses.len() ==> status_rank(#[trigger] statuses[i]) <= status_rank(
                statuses[first_best_index(statuses)],
            ),
        forall|i: int|
            0 <= i < first_best_index(statuses) ==> status_rank(#[trigger] statuses[i])
                < status_rank(statuses[first_best_index(statuses)]),
    decreases statuses.len(),
{
    if statuses.len() > 1 {
        lemma_first_best_index_is_max(statuses.drop_last());
        let b0 = first_best_index(statuses.drop_last());
        assert forall|i: int| 0 <= i < statuses.len() - 1 implies statuses.drop_last()[i]
            == statuses[i] by {}
    }
}

/// When any agent in the batch is reachable, the survivor of reduce-by-count
/// is never one whose probe was refused: refused agents are always chosen for
/// termination ahead of rankable ones.
pub proof fn lemma_refused_agent_never_survives(statuses: Seq<AgentIdentityStatus>)
    requires
        statuses.len() > 0,
        exists|i: int| 0 <= i < statuses.len() && status_rank(#[trigger] statuses[i]) >= 0,
    ensures
        !(statuses[first_best_index(statuses)] is ConnectionRefused),
{
    lemma_first_best_index_is_max(statuses);
    let i = choose|i: int| 0 <= i < statuses.len() && status_rank(#[trigger] statuses[i]) >= 0;
    assert(status_rank(statuses[first_best_index(statuses)]) >= 0);
}

/// The rank of a probe result, as executable code.
fn rank_of(status: &AgentIdentityStatus) -> (r: i64)
    ensures
        r as int == status_rank(*status),
{
    match status {
        AgentIdentityStatus::ConnectionRefused => -1,
        AgentIdentityStatus::NoIdentities => 0,
        AgentIdentityStatus::Identities(n) => *n as i64,
    }
}

/// Consolidate to the agent with the most identities: keep the first agent of
/// maximal rank (a refused probe ranking below everything) and hand every
/// other agent back for termination, in their current order. `statuses[i]` is
/// the probe result taken for `agents[i]`.
pub fn reduce_by_count(agents: Vec<Agent>, statuses: &Vec<AgentIdentityStatus>) -> (r: (
    Vec<Agent>,
    Vec<Agent>,
))
    requires
        agents@.len() == statuses@.len(),
    ensures
        agents@.len() == 0 ==> r.0@ == Seq::<Agent>::empty() && r.1@ == Seq::<Agent>::empty(),
        agents@.len() > 0 ==> r.0@ == seq![agents@[first_best_index(statuses@)]],
        agents@.len() > 0 ==> r.1@ == agents@.subrange(0, first_best_index(statuses@))
            + agents@.subrange(first_best_index(statuses@) + 1, agents@.len() as int),
{
    if agents.len() == 0 {
        return (Vec::new(), Vec::new());
    }
    let mut best: usize = 0;
    let mut j: usize = 1;
    while j < agents.len()
        invariant
            1 <= j <= statuses@.len(),
            agents@.len() == statuses@.len(),
            0 <= best < j,
            best as int == first_best_index(statuses@.take(j as int)),
        decreases statuses@.len() - j,
    {
        proof {
            assert(statuses@.take(j + 1).drop_last() =~= statuses@.take(j as int));
            assert(statuses@.take(j + 1).last() == statuses@[j as int]);
            assert(statuses@.take(j + 1)[best as int] == statuses@[best as int]);
        }
        if rank_of(&statuses[j]) > rank_of(&statuses[best]) {
            best = j;
        }
        j = j + 1;
    }
    proof {
        assert(statuses@.take(statuses@.len() as int) =~= statuses@);
    }
    let mut kept: Vec<Agent> = Vec::new();
    kept.push(agents[best].clone());
    let mut doomed: Vec<Agent> = Vec::new();
    let mut i: usize = 0;
    while i < agents.len()
        invariant
            0 <= i <= agents@.len(),
            best < agents@.len(),
            i <= best ==> doomed@ == agents@.subrange(0, i as int),
            i > best ==> doomed@ == agents@.subrange(0, best as int) + agents@.subrange(
                best + 1,
                i as int,
            ),
        decreases agents@.len() - i,
    {
        if i != best {
            let a = agents[i].clone();
            doomed.push(a);
            proof {
                if i < best {
                    assert(agents@.subrange(0, i + 1) =~= agents@.subrange(0, i as int).push(
                        agents@[i as int],
                    ));
                } else {
                    assert(agents@.subrange(0, best as int) + agents@.subrange(best + 1, i + 1)
                        =~= agents@.subrange(0, best as int) + agents@.subrange(best + 1, i as int)
                        + seq![agents@[i as int]]);
                }
            }
        } else {
            proof {
                if best == 0 {
                    assert(agents@.subrange(0, 0) + agents@.subrange(1, 1) =~= agents@.subrange(
                        0,
                        0,
                    ));
                } else {
                    assert(agents@.subrange(0, best as int) + agents@.subrange(
                        best as int + 1,
                        best as int + 1,
                    ) =~= agents@.subrange(0, best as int));
                }
            }
        }
        i = i + 1;
    }
    proof {
        assert(doomed@ == agents@.subrange(0, best as int) + agents@.subrange(
            best + 1,
            agents@.len() as int,
        ));
    }
    (kept, doomed)
}

/// Consolidate with no identity inspection: keep exactly the first agent in
/// input order and hand every other agent back for termination.
pub fn reduce_simple(agents: Vec<Agent>) -> (r: (Vec<Agent>, Vec<Agent>))
    ensures
        agents@.len() == 0 ==> r.0@ == Seq::<Agent>::empty() && r.1@ == Seq::<Agent>::empty(),
        agents@.len() > 0 ==> r.0@ == seq![agents@[0]],
        agents@.len() > 0 ==> r.1@ == agents@.subrange(1, agents@.len() as int),
{
    if agents.len() == 0 {
        return (Vec::new(), Vec::new());
    }
    let mut kept: Vec<Agent> = Vec::new();
    kept.push(agents[0].clone());
    let mut doomed: Vec<Agent> = Vec::new();
    let mut i: usize = 1;
    while i < agents.len()
        invariant
            1 <= i <= agents@.len(),
            doomed@ == agents@.subrange(1, i as int),
        decreases agents@.len() - i,
    {
        let a = agents[i].clone();
        doomed.push(a);
        proof {
            assert(agents@.subrange(1, i + 1) =~= agents@.subrange(1, i as int).push(
                agents@[i as int],
            ));
        }
        i = i + 1;
    }
    (kept, doomed)
}

/// The process id one line of the table contributes: its second
/// whitespace-separated field parsed as a number, `-1` when the field does
/// not parse, and nothing when the line has fewer than two fields.
pub open spec fn line_pid(s: Seq<char>, lo: int, hi: int) -> Option<int> {
    match second_token(s, lo, hi) {
        Some(t) => match spec_parse_i32(t) {
            Some(v) => Some(v),
            None => Some(-1),
        },
        None => None,
    }
}

/// The live process ids read from the process-table text from position `i`
/// on, one line at a time.
pub open spec fn table_pids_from(s: Seq<char>, i: int) -> Seq<int>
    decreases s.len() - i,
{
    if !(0 <= i < s.len()) {
        Seq::empty()
    } else {
        let e = line_break(s, i);
        let next = if i <= e && e < s.len() {
            e + 1
        } else {
            s.len() as int
        };
        let rest = table_pids_from(s, next);
        match line_pid(s, i, e) {
            Some(v) => seq![v] + rest,
            None => rest,
        }
    }
}

/// The live process ids the whole process-table text reports.
pub open spec fn table_pids(s: Seq<char>) -> Seq<int> {
    table_pids_from(s, 0)
}

/// Read the live process ids out of the process-table tool's output: one id
/// per line, taken from the second whitespace-separated field (the pid column
/// of a full-format listing), `-1` standing in for a field that is not a
/// number. Lines with fewer than two fields report no process.
pub fn parse_process_table(text: &str) -> (r: Vec<i32>)
    ensures
        r@.len() == table_pids(text@).len(),
        forall|k: int| 0 <= k < r@.len() ==> (#[trigger] r@[k]) as int == table_pids(text@)[k],
{
    let n = text.unicode_len();
    let mut out: Vec<i32> = Vec::new();
    let mut i: usize = 0;
    while i < n
        invariant
            0 <= i <= n,
            n == text@.len(),
            out@.map_values(|v: i32| v as int) + table_pids_from(text@, i as int)
                == table_pids_from(text@, 0),
        decreases n - i,
    {
        let ghost i0: int = i as int;
        // the end of the current line
        let mut e: usize = i;
        while e < n && text.get_char(e) != '\n'
            invariant
                i0 <= e <= n,
                n == text@.len(),
                line_break(text@, i0) == line_break(text@, e as int),
            decreases n - e,
        {
            e = e + 1;
        }
        proof {
            assert(line_break(text@, i0) == e as int);
        }
        // the start and end of the first field
        let mut a0: usize = i;
        while a0 < e && char_is_space(text.get_char(a0))
            invariant
                i0 <= a0 <= e,
                e <= n == text@.len(),
                skip_spaces(text@, i0, e as int) == skip_spaces(text@, a0 as int, e as int),
            decreases e - a0,
        {
            a0 = a0 + 1;
        }
        let mut a1: usize = a0;
        while a1 < e && !char_is_space(text.get_char(a1))
            invariant
                a0 <= a1 <= e,
                e <= n == text@.len(),
                skip_token(text@, a0 as int, e as int) == skip_token(text@, a1 as int, e as int),
            decreases e - a1,
        {
            a1 = a1 + 1;
        }
        // the start and end of the second field
        let mut b0: usize = a1;
        while b0 < e && char_is_space(text.get_char(b0))
            invariant
                a1 <= b0 <= e,
                e <= n == text@.len(),
                skip_spaces(text@, a1 as int, e as int) == skip_spaces(text@, b0 as int, e as int),
            decreases e - b0,
        {
            b0 = b0 + 1;
        }
        let mut b1: usize = b0;
        while b1 < e && !char_is_space(text.get_char(b1))
            invariant
                b0 <= b1 <= e,
                e <= n == text@.len(),
                skip_token(text@, b0 as int, e as int) == skip_token(text@, b1 as int, e as int),
            decreases e - b1,
        {
            b1 = b1 + 1;
        }
        proof {
            assert(skip_spaces(text@, i0, e as int) == a0 as int);
            assert(skip_token(text@, a0 as int, e as int) == a1 as int);
            assert(skip_spaces(text@, a1 as int, e as int) == b0 as int);
            assert(skip_token(text@, b0 as int, e as int) == b1 as int);
        }
        let ghost out_before: Seq<int> = out@.map_values(|v: i32| v as int);
        let ghost next: int = if e < n {
            e + 1
        } else {
            n as int
        };
        if b0 < e {
            let tok = text.substring_char(b0, b1);
            let v: i32 = match parse_i32(tok) {
                Some(v) => v,
                None => -1,
            };
            out.push(v);
            proof {
                assert(line_pid(text@, i0, e as int) == Some(v as int));
                assert(table_pids_from(text@, i0) == seq![v as int] + table_pids_from(text@, next));
                assert(out@.map_values(|v: i32| v as int) =~= out_before + seq![v as int]);
                assert(out_before + (seq![v as int] + table_pids_from(text@, next)) =~= (out_before
                    + seq![v as int]) + table_pids_from(text@, next));
            }
        } else {
            proof {
                assert(line_pid(text@, i0, e as int) is None);
                assert(table_pids_from(text@, i0) == table_pids_from(text@, next));
            }
        }
        i = if e < n {
            e + 1
        } else {
            n
        };
    }
    proof {
        assert(table_pids_from(text@, i as int) =~= Seq::<int>::empty());
        assert(out@.map_values(|v: i32| v as int) =~= out@.map_values(|v: i32| v as int)
            + table_pids_from(text@, i as int));
    }
    out
}

/// The position of the first `'.'` at or after `i` in `s`, or the end.
pub open spec fn dot_index(s: Seq<char>, i: int) -> int
    decreases s.len() - i,
{
    if 0 <= i < s.len() && s[i] != '.' {
        dot_index(s, i + 1)
    } else {
        i
    }
}

/// The process id a socket file's name encodes: the part between the first
/// dot and the next (format `<label>.<pid>`), or the sentinel `"N/A"` when
/// the name holds no dot at all.
pub open spec fn spec_socket_pid(name: Seq<char>) -> Seq<char> {
    let d1 = dot_index(name, 0);
    if d1 == name.len() {
        "N/A"@
    } else {
        let d2 = dot_index(name, d1 + 1);
        name.subrange(d1 + 1, d2)
    }
}

/// Extract the process id encoded in a socket file's name, defaulting to the
/// sentinel `"N/A"` when the name does not parse.
pub fn pid_from_socket_name(name: &str) -> (r: String)
    ensures
        r@ == spec_socket_pid(name@),
{
    let n = name.unicode_len();
    let mut d1: usize = 0;
    while d1 < n && name.get_char(d1) != '.'
        invariant
            0 <= d1 <= n,
            n == name@.len(),
            dot_index(name@, 0) == dot_index(name@, d1 as int),
        decreases n - d1,
    {
        d1 = d1 + 1;
    }
    proof {
        assert(dot_index(name@, 0) == d1 as int);
    }
    if d1 == n {
        return String::from_str("N/A");
    }
    let mut d2: usize = d1 + 1;
    while d2 < n && name.get_char(d2) != '.'
        invariant
            d1 + 1 <= d2 <= n,
            n == name@.len(),
            dot_index(name@, d1 + 1) == dot_index(name@, d2 as int),
        decreases n - d2,
    {
        d2 = d2 + 1;
    }
    proof {
        assert(dot_index(name@, d1 + 1) == d2 as int);
    }
    let sub = name.substring_char(d1 + 1, d2);
    String::from_str(sub)
}

/// The filesystem prefix under which the agent launcher places its
/// per-invocation socket directories.
pub open spec fn candidate_dir_prefix() -> Seq<char> {
    "/tmp/ssh-"@
}

/// Whether a directory's path marks it as a candidate agent socket
/// directory.
pub open spec fn spec_is_candidate_dir(path: Seq<char>) -> bool {
    path.len() >= candidate_dir_prefix().len() && path.subrange(
        0,
        candidate_dir_prefix().len() as int,
    ) == candidate_dir_prefix()
}

/// Whether the directory at `path` is a place the agent launcher would have
/// put a socket: the scanner visits exactly these.
pub fn is_candidate_dir(path: &str) -> (r: bool)
    ensures
        r == spec_is_candidate_dir(path@),
{
    let prefix = "/tmp/ssh-";
    let m = prefix.unicode_len();
    let n = path.unicode_len();
    if n < m {
        return false;
    }
    let head = path.substring_char(0, m);
    str_eq(head, prefix)
}

/// Build the candidate agent for one scanned socket: the pid decoded from
/// the socket file's name, the socket's path, and liveness off — liveness is
/// never known at scan time, and only the resolver may switch it on.
pub fn candidate_from_socket(socket_name: &str, socket_path: String) -> (r: Agent)
    ensures
        r.pid@ == spec_socket_pid(socket_name@),
        r.socket_path@ == socket_path@,
        !r.is_running,
{
    let pid = pid_from_socket_name(socket_name);
    Agent { pid, socket_path, is_running: false }
}

/// The numeric id a candidate contributes when paired against live id `p`:
/// its own pid when that parses, else `-p`, which puts an unparsable
/// candidate maximally far from `p` so that it loses every tie against a
/// parsable one.
pub open spec fn candidate_value(a: Agent, p: int) -> int {
    match spec_parse_i32(a.pid@) {
        Some(v) => v,
        None => -p,
    }
}

/// The pairing distance between candidate `a` and live id `p`: the absolute
/// difference of `p` and the candidate's numeric id.
pub open spec fn candidate_distance(a: Agent, p: int) -> int {
    let d = p - candidate_value(a, p);
    if d >= 0 {
        d
    } else {
        -d
    }
}

/// The index of the candidate numerically closest to live id `p`, the
/// earliest such candidate when several are equally close.
pub open spec fn best_match_index(agents: Seq<Agent>, p: int) -> int
    decreases agents.len(),
{
    if agents.len() <= 1 {
        0
    } else {
        let b = best_match_index(agents.drop_last(), p);
        if candidate_distance(agents.last(), p) < candidate_distance(agents[b], p) {
            agents.len() - 1
        } else {
            b
        }
    }
}

/// The nearest candidate is nearest: no candidate lies closer to `p`, and no
/// earlier candidate lies as close.
pub proof fn lemma_best_match_index_is_nearest(agents: Seq<Agent>, p: int)
    requires
        agents.len() > 0,
    ensures
        0 <= best_match_index(agents, p) < agents.len(),
        forall|i: int|
            0 <= i < agents.len() ==> candidate_distance(agents[best_match_index(agents, p)], p)
                <= candidate_distance(#[trigger] agents[i], p),
        forall|i: int|
            0 <= i < best_match_index(agents, p) ==> candidate_distance(
                agents[best_match_index(agents, p)],
                p,
            ) < candidate_distance(#[trigger] agents[i], p),
    decreases agents.len(),
{
    if agents.len() > 1 {
        lemma_best_match_index_is_nearest(agents.drop_last(), p);
        assert forall|i: int| 0 <= i < agents.len() - 1 implies agents.drop_last()[i]
            == agents[i] by {}
    }
}

/// The index of the candidate nearest to the live pid at index `k` of the
/// table: the candidate that pid claims.
pub open spec fn nearest_index_of(agents: Seq<Agent>, pids: Seq<i32>, k: int) -> int {
    best_match_index(agents, pids[k] as int)
}

/// Whether some live pid earlier in the table than the one at index `k`
/// claims the same nearest candidate.
pub open spec fn candidate_claimed_before(agents: Seq<Agent>, pids: Seq<i32>, k: int) -> bool {
    exists|j: int|
        0 <= j < k && #[trigger] nearest_index_of(agents, pids, j) == nearest_index_of(
            agents,
            pids,
            k,
        )
}

/// The indices of the first `k` live pids the resolver keeps, in table order:
/// a pid is kept exactly when no earlier pid claims the same nearest
/// candidate, so a candidate claimed several times keeps its first claimant.
pub open spec fn winning_pid_indices(agents: Seq<Agent>, pids: Seq<i32>, k: int) -> Seq<int>
    decreases k,
{
    if k <= 0 {
        Seq::empty()
    } else {
        let rest = winning_pid_indices(agents, pids, k - 1);
        if candidate_claimed_before(agents, pids, k - 1) {
            rest
        } else {
            rest.push(k - 1)
        }
    }
}

/// The indices of all the live pids the resolver keeps.
pub open spec fn winning_pids(agents: Seq<Agent>, pids: Seq<i32>) -> Seq<int> {
    winning_pid_indices(agents, pids, pids.len() as int)
}

/// Every winning index points into the first `k` pids of the table.
pub proof fn lemma_winning_indices_in_range(agents: Seq<Agent>, pids: Seq<i32>, k: int)
    ensures
        forall|t: int|
            0 <= t < winning_pid_indices(agents, pids, k).len() ==> 0 <= #[trigger] winning_pid_indices(
                agents,
                pids,
                k,
            )[t] < k,
    decreases k,
{
    if k > 0 {
        lemma_winning_indices_in_range(agents, pids, k - 1);
        let rest = winning_pid_indices(agents, pids, k - 1);
        let w = winning_pid_indices(agents, pids, k);
        assert forall|t: int| 0 <= t < w.len() implies 0 <= #[trigger] w[t] < k by {
            if t < rest.len() {
                assert(w[t] == rest[t]);
            } else {
                assert(w[t] == k - 1);
            }
        }
    }
}

/// Distinct winners claim distinct candidates: no two kept pids share a
/// nearest candidate.
pub proof fn lemma_winning_claims_distinct(agents: Seq<Agent>, pids: Seq<i32>, k: int)
    ensures
        forall|t1: int, t2: int|
            #![trigger winning_pid_indices(agents, pids, k)[t1], winning_pid_indices(agents, pids, k)[t2]]
            0 <= t1 < t2 < winning_pid_indices(agents, pids, k).len() ==> nearest_index_of(
                agents,
                pids,
                winning_pid_indices(agents, pids, k)[t1],
            ) != nearest_index_of(agents, pids, winning_pid_indices(agents, pids, k)[t2]),
    decreases k,
{
    if k > 0 {
        lemma_winning_claims_distinct(agents, pids, k - 1);
        lemma_winning_indices_in_range(agents, pids, k - 1);
        let rest = winning_pid_indices(agents, pids, k - 1);
        let w = winning_pid_indices(agents, pids, k);
        if !candidate_claimed_before(agents, pids, k - 1) {
            assert forall|t1: int, t2: int| 0 <= t1 < t2 < w.len() implies nearest_index_of(
                agents,
                pids,
                w[t1],
            ) != nearest_index_of(agents, pids, w[t2]) by {
                if t2 == w.len() - 1 {
                    assert(w[t1] == rest[t1]);
                    assert(0 <= w[t1] < k - 1);
                    assert(w[t2] == k - 1);
                } else {
                    assert(w[t1] == rest[t1]);
                    assert(w[t2] == rest[t2]);
                }
            }
        }
    }
}

/// Socket paths stay unique within one resolved inventory: when the
/// candidates' socket paths are pairwise distinct, no two agents the
/// resolver emits share a socket path.
pub proof fn lemma_resolver_keeps_paths_distinct(agents: Seq<Agent>, pids: Seq<i32>)
    requires
        agents.len() > 0,
        forall|i: int, j: int|
            0 <= i < j < agents.len() ==> agents[i].socket_path@ != agents[j].socket_path@,
    ensures
        forall|t1: int, t2: int|
            #![trigger winning_pids(agents, pids)[t1], winning_pids(agents, pids)[t2]]
            0 <= t1 < t2 < winning_pids(agents, pids).len() ==> agents[nearest_index_of(
                agents,
                pids,
                winning_pids(agents, pids)[t1],
            )].socket_path@ != agents[nearest_index_of(
                agents,
                pids,
                winning_pids(agents, pids)[t2],
            )].socket_path@,
{
    lemma_winning_claims_distinct(agents, pids, pids.len() as int);
    lemma_winning_indices_in_range(agents, pids, pids.len() as int);
    let w = winning_pids(agents, pids);
    assert forall|t1: int, t2: int| 0 <= t1 < t2 < w.len() implies agents[nearest_index_of(
        agents,
        pids,
        w[t1],
    )].socket_path@ != agents[nearest_index_of(agents, pids, w[t2])].socket_path@ by {
        let c1 = nearest_index_of(agents, pids, w[t1]);
        let c2 = nearest_index_of(agents, pids, w[t2]);
        lemma_best_match_index_is_nearest(agents, pids[w[t1]] as int);
        lemma_best_match_index_is_nearest(agents, pids[w[t2]] as int);
        assert(c1 != c2);
        if c1 < c2 {
            assert(agents[c1].socket_path@ != agents[c2].socket_path@);
        } else {
            assert(agents[c2].socket_path@ != agents[c1].socket_path@);
        }
    }
}

/// The pairing distance between a candidate and a live process id, as
/// executable code.
fn distance_to(a: &Agent, p: i32) -> (r: i64)
    ensures
        r as int == candidate_distance(*a, p as int),
{
    let v: i64 = match parse_i32(a.pid.as_str()) {
        Some(w) => w as i64,
        None => -(p as i64),
    };
    let d: i64 = (p as i64) - v;
    if d >= 0 {
        d
    } else {
        -d
    }
}

/// Pair live process ids with candidates and emit one live agent per paired
/// candidate: the live id as its pid, the candidate's socket path, and
/// `is_running` set. Each pid claims the candidate whose derived numeric id
/// is numerically closest to it — the socket-file-embedded id and the true
/// process id can diverge, so nearest-neighbour pairing, not exact equality,
/// is the defined rule. A candidate claimed by several live pids is emitted
/// once, for its first claimant in table order: socket paths are unique
/// within an inventory snapshot, so no socket may appear twice in the
/// result. An empty candidate list pairs nothing and returns an empty
/// inventory.
pub fn resolve_agent_pids(agents: &Vec<Agent>, live_pids: &Vec<i32>) -> (r: Vec<Agent>)
    ensures
        agents@.len() == 0 ==> r@.len() == 0,
        agents@.len() > 0 ==> r@.len() == winning_pids(agents@, live_pids@).len(),
        agents@.len() > 0 ==> forall|t: int|
            0 <= t < r@.len() ==> (#[trigger] r@[t]).pid@ == spec_i32_string(
                live_pids@[winning_pids(agents@, live_pids@)[t]] as int,
            ),
        agents@.len() > 0 ==> forall|t: int|
            0 <= t < r@.len() ==> (#[trigger] r@[t]).socket_path@ == agents@[nearest_index_of(
                agents@,
                live_pids@,
                winning_pids(agents@, live_pids@)[t],
            )].socket_path@,
        agents@.len() > 0 ==> forall|t: int| 0 <= t < r@.len() ==> (#[trigger] r@[t]).is_running,
{
    let mut out: Vec<Agent> = Vec::new();
    if agents.len() == 0 {
        return out;
    }
    let mut claimed: Vec<bool> = Vec::new();
    let mut c: usize = 0;
    while c < agents.len()
        invariant
            0 <= c <= agents@.len(),
            claimed@.len() == c,
            forall|ci: int| 0 <= ci < c ==> !(#[trigger] claimed@[ci]),
        decreases agents@.len() - c,
    {
        claimed.push(false);
        c = c + 1;
    }
    let mut k: usize = 0;
    while k < live_pids.len()
        invariant
            0 <= k <= live_pids@.len(),
            agents@.len() > 0,
            claimed@.len() == agents@.len(),
            forall|ci: int|
                0 <= ci < claimed@.len() ==> ((#[trigger] claimed@[ci]) <==> exists|j: int|
                    0 <= j < k && #[trigger] nearest_index_of(agents@, live_pids@, j) == ci),
            out@.len() == winning_pid_indices(agents@, live_pids@, k as int).len(),
            forall|t: int|
                0 <= t < out@.len() ==> (#[trigger] out@[t]).pid@ == spec_i32_string(
                    live_pids@[winning_pid_indices(agents@, live_pids@, k as int)[t]] as int,
                ),
            forall|t: int|
                0 <= t < out@.len() ==> (#[trigger] out@[t]).socket_path@ == agents@[nearest_index_of(
                    agents@,
                    live_pids@,
                    winning_pid_indices(agents@, live_pids@, k as int)[t],
                )].socket_path@,
            forall|t: int| 0 <= t < out@.len() ==> (#[trigger] out@[t]).is_running,
        decreases live_pids@.len() - k,
    {
        let p = live_pids[k];
        let mut b: usize = 0;
        let mut bd: i64 = distance_to(&agents[0], p);
        let mut j: usize = 1;
        while j < agents.len()
            invariant
                1 <= j <= agents@.len(),
                0 <= b < j,
                b as int == best_match_index(agents@.take(j as int), p as int),
                bd as int == candidate_distance(agents@[b as int], p as int),
            decreases agents@.len() - j,
        {
            proof {
                assert(agents@.take(j + 1).drop_last() =~= agents@.take(j as int));
                assert(agents@.take(j + 1).last() == agents@[j as int]);
                assert(agents@.take(j + 1)[b as int] == agents@[b as int]);
            }
            let d = distance_to(&agents[j], p);
            if d < bd {
                b = j;
                bd = d;
            }
            j = j + 1;
        }
        proof {
            assert(agents@.take(agents@.len() as int) =~= agents@);
            assert(nearest_index_of(agents@, live_pids@, k as int) == b as int);
        }
        let ghost wins_before = winning_pid_indices(agents@, live_pids@, k as int);
        if !claimed[b] {
            proof {
                assert(!candidate_claimed_before(agents@, live_pids@, k as int));
                assert(winning_pid_indices(agents@, live_pids@, k + 1) == wins_before.push(
                    k as int,
                ));
            }
            let pid_string = i32_to_string(p);
            let socket = agents[b].socket_path.clone();
            out.push(Agent { pid: pid_string, socket_path: socket, is_running: true });
        } else {
            proof {
                assert(candidate_claimed_before(agents@, live_pids@, k as int));
                assert(winning_pid_indices(agents@, live_pids@, k + 1) == wins_before);
            }
        }
        claimed.set(b, true);
        proof {
            assert forall|ci: int| 0 <= ci < claimed@.len() implies ((#[trigger] claimed@[ci])
                <==> exists|j: int|
                0 <= j < k + 1 && #[trigger] nearest_index_of(agents@, live_pids@, j) == ci) by {
                if ci == b as int {
                    assert(nearest_index_of(agents@, live_pids@, k as int) == ci);
                    assert(claimed@[ci]);
                } else {
                    if claimed@[ci] {
                        let j0 = choose|j0: int|
                            0 <= j0 < k && #[trigger] nearest_index_of(agents@, live_pids@, j0)
                                == ci;
                        assert(0 <= j0 < k + 1 && nearest_index_of(agents@, live_pids@, j0) == ci);
                    }
                    if exists|j: int|
                        0 <= j < k + 1 && #[trigger] nearest_index_of(agents@, live_pids@, j)
                            == ci {
                        let j1 = choose|j1: int|
                            0 <= j1 < k + 1 && #[trigger] nearest_index_of(agents@, live_pids@, j1)
                                == ci;
                        assert(j1 < k);
                    }
                }
            }
        }
        k = k + 1;
    }
    out
}

/// The set of socket paths of an inventory.
pub open spec fn path_set(agents: Seq<Agent>) -> Set<Seq<char>> {
    Set::new(|p: Seq<char>| has_socket_path(agents, p))
}

/// Every path of the dead set is a candidate path that no live match shares,
/// and every such candidate path is a path of the dead set.
proof fn lemma_dead_filter_paths(all: Seq<Agent>, running: Seq<Agent>)
    ensures
        forall|p: Seq<char>|
            has_socket_path(dead_filter(all, running), p) <==> (has_socket_path(all, p)
                && !has_socket_path(running, p)),
    decreases all.len(),
{
    if all.len() == 0 {
    } else {
        lemma_dead_filter_paths(all.drop_last(), running);
        let rest = dead_filter(all.drop_last(), running);
        let last = all.last();
        assert forall|p: Seq<char>|
            has_socket_path(dead_filter(all, running), p) implies (has_socket_path(all, p)
            && !has_socket_path(running, p)) by {
            let d = dead_filter(all, running);
            let j = choose|j: int| 0 <= j < d.len() && d[j].socket_path@ == p;
            if has_socket_path(running, last.socket_path@) {
                assert(d == rest);
            } else {
                if j < rest.len() {
                    assert(rest[j].socket_path@ == p);
                } else {
                    assert(d[j] == last);
                }
            }
            assert(has_socket_path(all, p)) by {
                if has_socket_path(all.drop_last(), p) {
                    let k = choose|k: int|
                        0 <= k < all.drop_last().len() && all.drop_last()[k].socket_path@ == p;
                    assert(all[k].socket_path@ == p);
                } else {
                    assert(all[all.len() - 1].socket_path@ == p);
                }
            }
        }
        assert forall|p: Seq<char>|
            (has_socket_path(all, p) && !has_socket_path(running, p)) implies has_socket_path(
            dead_filter(all, running),
            p,
        ) by {
            let d = dead_filter(all, running);
            let j = choose|j: int| 0 <= j < all.len() && all[j].socket_path@ == p;
            if j < all.len() - 1 {
                assert(all.drop_last()[j].socket_path@ == p);
                assert(has_socket_path(rest, p));
                let k = choose|k: int| 0 <= k < rest.len() && rest[k].socket_path@ == p;
                if !has_socket_path(running, last.socket_path@) {
                    assert(d[k] == rest[k]);
                } else {
                    assert(d == rest);
                }
            } else {
                assert(last.socket_path@ == p);
                assert(!has_socket_path(running, last.socket_path@));
                assert(d[d.len() - 1] == last);
            }
        }
    }
}

/// Reconciliation loses no socket path and invents none: the paths of the
/// live inventory and of the dead set are disjoint, and together they are
/// exactly the candidate set's paths, provided every live match inherited its
/// socket path from some candidate (which the resolver guarantees).
pub proof fn lemma_reconcile_partitions_paths(candidates: Seq<Agent>, live: Seq<Agent>)
    requires
        path_set(live).subset_of(path_set(candidates)),
    ensures
        path_set(live).disjoint(path_set(dead_filter(candidates, live))),
        path_set(live) + path_set(dead_filter(candidates, live)) =~= path_set(candidates),
{
    lemma_dead_filter_paths(candidates, live);
    assert forall|p: Seq<char>| path_set(candidates).contains(p) implies (path_set(live) + path_set(
        dead_filter(candidates, live),
    )).contains(p) by {
        if !has_socket_path(live, p) {
            assert(has_socket_path(dead_filter(candidates, live), p));
        }
    }
}

} // verus!
