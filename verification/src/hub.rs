//! The hub's fan-in decisions: per-node namespacing of incoming events,
//! the connection-registry rebind rule, cross-node root-cause queries by
//! job id, the command frame sent back to an agent, and the agent-side
//! reading of that frame.  The WebSocket and HTTP plumbing lives outside
//! the crate.

use vstd::prelude::*;

use crate::action::{spec_from_recommendation, ActionModel, ActionType};
use crate::event::{opt_string_view, Event};
use crate::graph::{
    ids_view, kv_get, meta_get, valid_cause, GraphModel, NodeModel, NodeType, StateGraph,
};
use crate::strutil::{
    all_digits, dec_digits, digits_val, find_sub_from, lemma_find_sub_from, lower_seq, parse_u32,
    starts_with_seq, str_eq, str_eq_ci, str_find, str_starts_with, u32_to_string,
};

verus! {

/// Stamps an event with the connection's node id when it carries none;
/// an id the agent sent wins.
pub fn namespace_event(event: Event, fallback: &String) -> (r: Event)
    ensures
        r@.ts == event@.ts,
        r@.event_type == event@.event_type,
        r@.entity_id == event@.entity_id,
        r@.job_id == event@.job_id,
        r@.pid == event@.pid,
        r@.value == event@.value,
        r@.node_id == match event@.node_id {
            Some(n) => Some(n),
            None => Some(fallback@),
        },
{
    let node_id = match event.node_id {
        Some(n) => Some(n),
        None => Some(fallback.clone()),
    };
    Event { node_id, ..event }
}

/// Under which key the registry should re-file this connection: the
/// event's node id, when it differs from the current key.
pub fn rebind_key(event_node: &Option<String>, current: &String) -> (r: Option<String>)
    ensures
        match r {
            Some(n) => opt_string_view(*event_node) == Some(n@) && n@ != current@,
            None => opt_string_view(*event_node) is None || opt_string_view(*event_node) == Some(
                current@,
            ),
        },
{
    match event_node {
        Some(n) => {
            if str_eq(n.as_str(), current.as_str()) {
                None
            } else {
                Some(n.clone())
            }
        },
        None => None,
    }
}

/// The text frame carrying a fix command to an agent.
pub open spec fn spec_fix_command(target_pid: u32, action: Seq<char>) -> Seq<char> {
    "{\"intent\":\"fix\",\"target_pid\":"@ + dec_digits(target_pid as int)
        + ",\"action\":\""@ + action + "\"}"@
}

/// Builds the command frame `{"intent":"fix",...}`; an absent action
/// falls back to a graceful shutdown.  The action name is taken verbatim,
/// so it must not need escaping.
pub fn make_fix_command(target_pid: u32, action: &Option<String>) -> (r: String)
    ensures
        r@ == spec_fix_command(
            target_pid,
            match action {
                Some(a) => a@,
                None => "GracefulShutdown"@,
            },
        ),
{
    let digits = u32_to_string(target_pid);
    let head = String::from_str("{\"intent\":\"fix\",\"target_pid\":").concat(digits.as_str());
    let mid = head.concat(",\"action\":\"");
    let with_action = match action {
        Some(a) => mid.concat(a.as_str()),
        None => mid.concat("GracefulShutdown"),
    };
    let r = with_action.concat("\"}");
    proof {
        assert(r@ =~= spec_fix_command(
            target_pid,
            match action {
                Some(a) => a@,
                None => "GracefulShutdown"@,
            },
        ));
    }
    r
}

/// What an action name in a command frame means.
pub open spec fn spec_action_of_name(s: Seq<char>) -> Option<ActionModel> {
    let l = lower_seq(s);
    if l == lower_seq("gracefulshutdown"@) || l == lower_seq("graceful_shutdown"@) {
        Some(ActionModel::GracefulShutdown { signal: 10, wait_seconds: 10, force_kill: true })
    } else if l == lower_seq("killprocess"@) || l == lower_seq("kill_process"@) || l == lower_seq(
        "kill"@,
    ) {
        Some(ActionModel::KillProcess)
    } else if l == lower_seq("signal"@) || l == lower_seq("sigusr1"@) {
        Some(ActionModel::Signal { signal: 10 })
    } else {
        spec_from_recommendation(s)
    }
}

/// Reads an action name from a command frame; unknown names fall back to
/// the recommendation keyword table, and to nothing if that fails too.
pub fn action_from_string(action_str: &str) -> (r: Option<ActionType>)
    ensures
        match r {
            Some(a) => spec_action_of_name(action_str@) == Some(a@),
            None => spec_action_of_name(action_str@) is None,
        },
{
    if str_eq_ci(action_str, "gracefulshutdown") || str_eq_ci(action_str, "graceful_shutdown") {
        Some(ActionType::GracefulShutdown { signal: 10, wait_seconds: 10, force_kill: true })
    } else if str_eq_ci(action_str, "killprocess") || str_eq_ci(action_str, "kill_process")
        || str_eq_ci(action_str, "kill") {
        Some(ActionType::KillProcess)
    } else if str_eq_ci(action_str, "signal") || str_eq_ci(action_str, "sigusr1") {
        Some(ActionType::Signal { signal: 10 })
    } else {
        ActionType::from_recommendation(action_str)
    }
}

/// One process a cluster query resolved.
pub struct ProcessRef {
    /// The node (agent) part of the namespaced id.
    pub node_id: String,
    pub pid: u32,
    /// The full namespaced graph id.
    pub node_id_full: String,
}

/// What a namespaced process id splits into: the node name before the
/// first `::`, and the pid after `pid-`, when the id has that shape.
pub open spec fn spec_ns_parse(id: Seq<char>) -> Option<(Seq<char>, u32)> {
    let d = find_sub_from(id, "::"@, 0);
    if d >= 0 {
        let rest = id.skip(d + 2);
        if starts_with_seq(rest, "pid-"@) && all_digits(rest.skip(4)) && digits_val(rest.skip(4))
            <= u32::MAX {
            Some((id.take(d), digits_val(rest.skip(4)) as u32))
        } else {
            None
        }
    } else {
        None
    }
}

/// Splits a namespaced process id into node name and pid.
pub fn ns_parse(id: &String) -> (r: Option<(String, u32)>)
    ensures
        match r {
            Some(p) => spec_ns_parse(id@) matches Some(sp) && sp.0 == p.0@ && sp.1 == p.1,
            None => spec_ns_parse(id@) is None,
        },
{
    let d = match str_find(id.as_str(), "::") {
        Some(d) => d,
        None => {
            return None;
        },
    };
    proof {
        lemma_find_sub_from(id@, "::"@, 0);
        reveal_strlit("::");
    }
    let len = id.as_str().unicode_len();
    let rest = id.as_str().substring_char(d + 2, len);
    proof {
        assert(rest@ =~= id@.skip(d + 2));
    }
    if !str_starts_with(rest, "pid-") {
        return None;
    }
    proof {
        reveal_strlit("pid-");
    }
    let rest_len = rest.unicode_len();
    let digits = rest.substring_char(4, rest_len);
    proof {
        assert(digits@ =~= id@.skip(d + 2).skip(4));
    }
    match parse_u32(digits) {
        Some(pid) => {
            let node = id.as_str().substring_char(0, d);
            proof {
                assert(node@ =~= id@.take(d as int));
            }
            Some((node.to_owned(), pid))
        },
        None => None,
    }
}

/// The ids of the processes of a job, in graph order, scanning from `i`.
pub open spec fn job_proc_ids_from(nodes: Seq<NodeModel>, job: Seq<char>, i: int) -> Seq<Seq<char>>
    decreases nodes.len() - i,
{
    if i < 0 || i >= nodes.len() {
        Seq::empty()
    } else if nodes[i].node_type == NodeType::Process && kv_get(nodes[i].metadata, "job_id"@)
        == Some(job) {
        seq![nodes[i].id] + job_proc_ids_from(nodes, job, i + 1)
    } else {
        job_proc_ids_from(nodes, job, i + 1)
    }
}

/// The process references the parseable ids yield, scanning from `i`.
pub open spec fn proc_refs_from(ids: Seq<Seq<char>>, i: int) -> Seq<(Seq<char>, u32, Seq<char>)>
    decreases ids.len() - i,
{
    if i < 0 || i >= ids.len() {
        Seq::empty()
    } else {
        match spec_ns_parse(ids[i]) {
            Some(p) => seq![(p.0, p.1, ids[i])] + proc_refs_from(ids, i + 1),
            None => proc_refs_from(ids, i + 1),
        }
    }
}

/// The view of a vector of process references.
pub open spec fn refs_view(v: Seq<ProcessRef>) -> Seq<(Seq<char>, u32, Seq<char>)> {
    v.map_values(|p: ProcessRef| (p.node_id@, p.pid, p.node_id_full@))
}

/// A returned cause is one the graph justifies, possibly under a node
/// prefix.
pub open spec fn cause_justified(g: GraphModel, c: Seq<char>) -> bool {
    exists|c0: Seq<char>|
        #[trigger] valid_cause(g, c0) && (c == c0 || exists|n: Seq<char>| c == n + ": "@ + c0)
}

/// How a cause of the process `id` appears in a cluster answer: under
/// the node-name prefix when the id is namespaced, verbatim otherwise.
pub open spec fn line_for(id: Seq<char>, c: Seq<char>) -> Seq<char> {
    let d = find_sub_from(id, "::"@, 0);
    if d >= 0 {
        id.take(d) + ": "@ + c
    } else {
        c
    }
}

/// Every cause one hop away from the node `x` appears in `cs`, under the
/// prefix of the process id `id`.
pub open spec fn prefixed_causes_in(
    g: GraphModel,
    x: Seq<char>,
    id: Seq<char>,
    cs: Seq<Seq<char>>,
) -> bool {
    forall|j: int|
        0 <= j < g.edges.len() ==> {
            let e = #[trigger] g.edges[j];
            &&& (e.from == x && e.edge_type == crate::graph::EdgeType::BlockedBy
                && crate::graph::error_target(g.nodes, e.to) ==> cs.contains(
                line_for(id, crate::graph::blocked_cause(g.nodes, e)),
            ))
            &&& (e.from == x && e.edge_type == crate::graph::EdgeType::WaitsOn ==> cs.contains(
                line_for(id, crate::graph::waits_cause(e)),
            ))
        }
}

/// Every cause one hop away from the process `id` appears in `cs`, under
/// the process's node prefix.
pub open spec fn job_causes_covered(g: GraphModel, id: Seq<char>, cs: Seq<Seq<char>>) -> bool {
    prefixed_causes_in(g, id, id, cs)
}

/// A witness for transitive cluster coverage of one process: a set of
/// node ids holding the process, closed under following `BlockedBy` edges
/// into existing nodes, every id of which has all its one-hop causes in
/// `cs` under the process's node prefix.
pub open spec fn cluster_reach_ok(
    g: GraphModel,
    id: Seq<char>,
    cs: Seq<Seq<char>>,
    reached: Set<Seq<char>>,
) -> bool {
    &&& reached.contains(id)
    &&& forall|j: int|
        0 <= j < g.edges.len() && (#[trigger] g.edges[j]).edge_type
            == crate::graph::EdgeType::BlockedBy && reached.contains(g.edges[j].from)
            && crate::graph::has_node(g.nodes, g.edges[j].to) ==> reached.contains(g.edges[j].to)
    &&& forall|x: Seq<char>| #[trigger] reached.contains(x) ==> prefixed_causes_in(g, x, id, cs)
}

/// Transitive cluster coverage: any set satisfying [`cluster_reach_ok`]
/// contains every node reachable from the process along `BlockedBy`
/// edges, so the causes of every transitively blocking error appear in
/// `cs` under the process's node prefix.
pub open spec fn cluster_transitive_covered(g: GraphModel, id: Seq<char>, cs: Seq<Seq<char>>) -> bool {
    exists|reached: Set<Seq<char>>| #[trigger] cluster_reach_ok(g, id, cs, reached)
}

/// Answers a cluster-wide `why` query: finds every process of the job,
/// lists the ones whose namespaced id parses, runs the root-cause search
/// on each full id, prefixes each cause with its node name, and returns
/// the causes de-duplicated.
pub fn cluster_why(graph: &StateGraph, target_job_id: &String) -> (r: (Vec<String>, Vec<
    ProcessRef,
>))
    ensures
        ids_view(r.0@).no_duplicates(),
        forall|j: int| 0 <= j < r.0@.len() ==> cause_justified(graph@, ids_view(r.0@)[j]),
        forall|k: int|
            0 <= k < job_proc_ids_from(graph@.nodes, target_job_id@, 0).len()
                ==> job_causes_covered(
                graph@,
                #[trigger] job_proc_ids_from(graph@.nodes, target_job_id@, 0)[k],
                ids_view(r.0@),
            ),
        forall|k: int|
            0 <= k < job_proc_ids_from(graph@.nodes, target_job_id@, 0).len()
                ==> cluster_transitive_covered(
                graph@,
                #[trigger] job_proc_ids_from(graph@.nodes, target_job_id@, 0)[k],
                ids_view(r.0@),
            ),
        refs_view(r.1@) == proc_refs_from(
            job_proc_ids_from(graph@.nodes, target_job_id@, 0),
            0,
        ),
{
    let nodes = graph.all_nodes();
    let n = nodes.len();
    let ghost jids = job_proc_ids_from(graph@.nodes, target_job_id@, 0);

    // The processes of this job, in graph order.
    let mut job_ids: Vec<String> = Vec::new();
    let mut i: usize = 0;
    while i < n
        invariant
            0 <= i <= n,
            n == nodes@.len(),
            crate::graph::nodes_view(nodes@) == graph@.nodes,
            jids == job_proc_ids_from(graph@.nodes, target_job_id@, 0),
            jids == ids_view(job_ids@) + job_proc_ids_from(graph@.nodes, target_job_id@, i as int),
        decreases n - i,
    {
        let node = &nodes[i];
        proof {
            assert(graph@.nodes[i as int] == nodes@[i as int]@);
        }
        let ghost before = ids_view(job_ids@);
        let is_job_proc: bool = if node.node_type == NodeType::Process {
            match meta_get(&node.metadata, "job_id") {
                Some(v) => str_eq(v.as_str(), target_job_id.as_str()),
                None => false,
            }
        } else {
            false
        };
        assert(is_job_proc == (graph@.nodes[i as int].node_type == NodeType::Process && kv_get(
            graph@.nodes[i as int].metadata,
            "job_id"@,
        ) == Some(target_job_id@)));
        if is_job_proc {
            job_ids.push(node.id.clone());
            proof {
                assert(ids_view(job_ids@) =~= before.push(graph@.nodes[i as int].id));
                assert(before + (seq![graph@.nodes[i as int].id] + job_proc_ids_from(
                    graph@.nodes,
                    target_job_id@,
                    i + 1,
                )) =~= ids_view(job_ids@) + job_proc_ids_from(graph@.nodes, target_job_id@, i + 1));
            }
        }
        i = i + 1;
    }
    proof {
        assert(jids =~= ids_view(job_ids@));
    }

    // The references of the ids that parse.
    let m = job_ids.len();
    let mut refs: Vec<ProcessRef> = Vec::new();
    let mut k: usize = 0;
    while k < m
        invariant
            0 <= k <= m,
            m == job_ids@.len(),
            jids == ids_view(job_ids@),
            proc_refs_from(jids, 0) == refs_view(refs@) + proc_refs_from(jids, k as int),
        decreases m - k,
    {
        let id = &job_ids[k];
        let ghost before = refs_view(refs@);
        match ns_parse(id) {
            Some((node_id, pid)) => {
                let ghost pm = (node_id@, pid, id@);
                refs.push(ProcessRef { node_id, pid, node_id_full: id.clone() });
                proof {
                    assert(refs_view(refs@) =~= before.push(pm));
                    assert(before + (seq![pm] + proc_refs_from(jids, k + 1)) =~= refs_view(refs@)
                        + proc_refs_from(jids, k + 1));
                }
            },
            None => {},
        }
        k = k + 1;
    }
    proof {
        assert(refs_view(refs@) =~= proc_refs_from(jids, 0));
    }

    // Root causes per process, node-prefixed and de-duplicated.
    let mut causes: Vec<String> = Vec::new();
    let mut k2: usize = 0;
    while k2 < m
        invariant
            0 <= k2 <= m,
            m == job_ids@.len(),
            jids == ids_view(job_ids@),
            ids_view(causes@).no_duplicates(),
            forall|j: int| 0 <= j < causes@.len() ==> cause_justified(graph@, ids_view(causes@)[j]),
            forall|kk: int|
                0 <= kk < k2 ==> job_causes_covered(graph@, #[trigger] jids[kk], ids_view(causes@)),
            forall|kk: int|
                0 <= kk < k2 ==> cluster_transitive_covered(
                    graph@,
                    #[trigger] jids[kk],
                    ids_view(causes@),
                ),
        decreases m - k2,
    {
        let id = &job_ids[k2];
        let found = graph.find_root_cause_by_id(id);
        let ghost reached = choose|reached: Set<Seq<char>>|
            crate::graph::reach_witness_ok(graph@, id@, ids_view(found@), reached);
        proof {
            assert(crate::graph::reach_witness_ok(graph@, id@, ids_view(found@), reached));
        }
        let prefix: Option<String> = match str_find(id.as_str(), "::") {
            Some(d) => {
                proof {
                    lemma_find_sub_from(id@, "::"@, 0);
                    reveal_strlit("::");
                }
                Some(id.as_str().substring_char(0, d).to_owned())
            },
            None => None,
        };
        proof {
            match &prefix {
                Some(p) => {
                    assert(p@ == id@.take(find_sub_from(id@, "::"@, 0)));
                },
                None => {},
            }
        }
        let fl = found.len();
        let mut c: usize = 0;
        while c < fl
            invariant
                0 <= c <= fl,
                fl == found@.len(),
                jids == ids_view(job_ids@),
                k2 < m,
                m == job_ids@.len(),
                id == &job_ids[k2 as int],
                (match prefix {
                    Some(p) => find_sub_from(id@, "::"@, 0) >= 0 && p@ == id@.take(
                        find_sub_from(id@, "::"@, 0),
                    ),
                    None => find_sub_from(id@, "::"@, 0) == -1,
                }),
                crate::graph::direct_causes_in(graph@, id@, ids_view(found@)),
                crate::graph::reach_witness_ok(graph@, id@, ids_view(found@), reached),
                forall|j: int|
                    0 <= j < found@.len() ==> valid_cause(graph@, ids_view(found@)[j]),
                ids_view(causes@).no_duplicates(),
                forall|j: int|
                    0 <= j < causes@.len() ==> cause_justified(graph@, ids_view(causes@)[j]),
                forall|kk: int|
                    0 <= kk < k2 ==> job_causes_covered(
                        graph@,
                        #[trigger] jids[kk],
                        ids_view(causes@),
                    ),
                forall|kk: int|
                    0 <= kk < k2 ==> cluster_transitive_covered(
                        graph@,
                        #[trigger] jids[kk],
                        ids_view(causes@),
                    ),
                forall|j: int|
                    0 <= j < c ==> ids_view(causes@).contains(
                        line_for(id@, #[trigger] ids_view(found@)[j]),
                    ),
            decreases fl - c,
        {
            let cause = &found[c];
            let line: String = match &prefix {
                Some(p) => {
                    let l = p.clone().concat(": ").concat(cause.as_str());
                    proof {
                        assert(l@ =~= p@ + ": "@ + cause@);
                    }
                    l
                },
                None => cause.clone(),
            };
            proof {
                assert(valid_cause(graph@, ids_view(found@)[c as int]));
                assert(ids_view(found@)[c as int] == cause@);
                assert(cause_justified(graph@, line@));
                assert(line@ == line_for(id@, cause@));
            }
            let mut already = false;
            let cl = causes.len();
            let mut q: usize = 0;
            while q < cl
                invariant
                    0 <= q <= cl,
                    cl == causes@.len(),
                    already == exists|j: int| 0 <= j < q && ids_view(causes@)[j] == line@,
                decreases cl - q,
            {
                if str_eq(causes[q].as_str(), line.as_str()) {
                    assert(ids_view(causes@)[q as int] == line@);
                    already = true;
                }
                assert(already == exists|j: int| 0 <= j < q + 1 && ids_view(causes@)[j] == line@);
                q = q + 1;
            }
            if !already {
                let ghost before = ids_view(causes@);
                let ghost lv = line@;
                causes.push(line);
                proof {
                    assert(ids_view(causes@) =~= before.push(lv));
                    assert forall|a: int, b: int|
                        0 <= a < b < ids_view(causes@).len() implies ids_view(causes@)[a]
                        != ids_view(causes@)[b] by {
                        if b == ids_view(causes@).len() - 1 {
                            assert(!exists|j: int| 0 <= j < before.len() && before[j] == lv);
                        }
                    }
                    assert(ids_view(causes@).contains(lv)) by {
                        assert(ids_view(causes@)[before.len() as int] == lv);
                    }
                    assert forall|x: Seq<char>| before.contains(x) implies ids_view(
                        causes@,
                    ).contains(x) by {
                        let jw = choose|jw: int| 0 <= jw < before.len() && before[jw] == x;
                        assert(ids_view(causes@)[jw] == x);
                    }
                    lemma_covered_monotone(graph@, jids, k2 as int, before, ids_view(causes@));
                    lemma_cluster_monotone(graph@, jids, k2 as int, before, ids_view(causes@));
                    lemma_lines_monotone(id@, ids_view(found@), c as int, before, ids_view(causes@));
                }
            } else {
                proof {
                    assert(ids_view(causes@).contains(line@)) by {
                        let j = choose|j: int|
                            0 <= j < causes@.len() && ids_view(causes@)[j] == line@;
                        assert(ids_view(causes@)[j] == line@);
                    }
                }
            }
            c = c + 1;
        }
        proof {
            // Every direct cause of this process is now present under its
            // line form.
            assert(job_causes_covered(graph@, id@, ids_view(causes@))) by {
                assert forall|j: int| 0 <= j < graph@.edges.len() implies {
                    let e = #[trigger] graph@.edges[j];
                    &&& (e.from == id@ && e.edge_type == crate::graph::EdgeType::BlockedBy
                        && crate::graph::error_target(graph@.nodes, e.to) ==> ids_view(
                        causes@,
                    ).contains(line_for(id@, crate::graph::blocked_cause(graph@.nodes, e))))
                    &&& (e.from == id@ && e.edge_type == crate::graph::EdgeType::WaitsOn
                        ==> ids_view(causes@).contains(line_for(id@, crate::graph::waits_cause(e))))
                } by {
                    let e = graph@.edges[j];
                    if e.from == id@ && e.edge_type == crate::graph::EdgeType::BlockedBy
                        && crate::graph::error_target(graph@.nodes, e.to) {
                        let c0 = crate::graph::blocked_cause(graph@.nodes, e);
                        assert(ids_view(found@).contains(c0));
                        let jj = choose|jj: int|
                            0 <= jj < ids_view(found@).len() && ids_view(found@)[jj] == c0;
                        assert(ids_view(causes@).contains(line_for(id@, ids_view(found@)[jj])));
                    }
                    if e.from == id@ && e.edge_type == crate::graph::EdgeType::WaitsOn {
                        let c0 = crate::graph::waits_cause(e);
                        assert(ids_view(found@).contains(c0));
                        let jj = choose|jj: int|
                            0 <= jj < ids_view(found@).len() && ids_view(found@)[jj] == c0;
                        assert(ids_view(causes@).contains(line_for(id@, ids_view(found@)[jj])));
                    }
                }
            }
            assert(jids[k2 as int] == id@);
            // Transitive coverage: the search's own reach witness also
            // witnesses the prefixed coverage, now that every found cause
            // sits in the answer under its line form.
            assert forall|x: Seq<char>| #[trigger]
                reached.contains(x) implies prefixed_causes_in(
                graph@,
                x,
                id@,
                ids_view(causes@),
            ) by {
                assert(crate::graph::direct_causes_in(graph@, x, ids_view(found@)));
                assert forall|j: int| 0 <= j < graph@.edges.len() implies {
                    let e = #[trigger] graph@.edges[j];
                    &&& (e.from == x && e.edge_type == crate::graph::EdgeType::BlockedBy
                        && crate::graph::error_target(graph@.nodes, e.to) ==> ids_view(
                        causes@,
                    ).contains(line_for(id@, crate::graph::blocked_cause(graph@.nodes, e))))
                    &&& (e.from == x && e.edge_type == crate::graph::EdgeType::WaitsOn
                        ==> ids_view(causes@).contains(line_for(id@, crate::graph::waits_cause(e))))
                } by {
                    let e = graph@.edges[j];
                    if e.from == x && e.edge_type == crate::graph::EdgeType::BlockedBy
                        && crate::graph::error_target(graph@.nodes, e.to) {
                        let c0 = crate::graph::blocked_cause(graph@.nodes, e);
                        assert(ids_view(found@).contains(c0));
                        let jj = choose|jj: int|
                            0 <= jj < ids_view(found@).len() && ids_view(found@)[jj] == c0;
                        assert(ids_view(causes@).contains(line_for(id@, ids_view(found@)[jj])));
                    }
                    if e.from == x && e.edge_type == crate::graph::EdgeType::WaitsOn {
                        let c0 = crate::graph::waits_cause(e);
                        assert(ids_view(found@).contains(c0));
                        let jj = choose|jj: int|
                            0 <= jj < ids_view(found@).len() && ids_view(found@)[jj] == c0;
                        assert(ids_view(causes@).contains(line_for(id@, ids_view(found@)[jj])));
                    }
                }
            }
            assert(cluster_reach_ok(graph@, id@, ids_view(causes@), reached));
            assert(cluster_transitive_covered(graph@, jids[k2 as int], ids_view(causes@)));
        }
        k2 = k2 + 1;
    }

    (causes, refs)
}

/// Coverage of earlier processes survives growing the cause list.
proof fn lemma_covered_monotone(
    g: GraphModel,
    jids: Seq<Seq<char>>,
    upto: int,
    cs1: Seq<Seq<char>>,
    cs2: Seq<Seq<char>>,
)
    requires
        forall|x: Seq<char>| cs1.contains(x) ==> cs2.contains(x),
        forall|kk: int| 0 <= kk < upto ==> job_causes_covered(g, #[trigger] jids[kk], cs1),
    ensures
        forall|kk: int| 0 <= kk < upto ==> job_causes_covered(g, #[trigger] jids[kk], cs2),
{
    assert forall|kk: int| 0 <= kk < upto implies job_causes_covered(g, #[trigger] jids[kk], cs2) by {
        assert(job_causes_covered(g, jids[kk], cs1));
        assert forall|j: int| 0 <= j < g.edges.len() implies {
            let e = #[trigger] g.edges[j];
            &&& (e.from == jids[kk] && e.edge_type == crate::graph::EdgeType::BlockedBy
                && crate::graph::error_target(g.nodes, e.to) ==> cs2.contains(
                line_for(jids[kk], crate::graph::blocked_cause(g.nodes, e)),
            ))
            &&& (e.from == jids[kk] && e.edge_type == crate::graph::EdgeType::WaitsOn
                ==> cs2.contains(line_for(jids[kk], crate::graph::waits_cause(e))))
        } by {
            let e = g.edges[j];
        }
    }
}

/// Transitive coverage of earlier processes survives growing the cause
/// list: the same reach witness serves.
proof fn lemma_cluster_monotone(
    g: GraphModel,
    jids: Seq<Seq<char>>,
    upto: int,
    cs1: Seq<Seq<char>>,
    cs2: Seq<Seq<char>>,
)
    requires
        forall|x: Seq<char>| cs1.contains(x) ==> cs2.contains(x),
        forall|kk: int|
            0 <= kk < upto ==> cluster_transitive_covered(g, #[trigger] jids[kk], cs1),
    ensures
        forall|kk: int|
            0 <= kk < upto ==> cluster_transitive_covered(g, #[trigger] jids[kk], cs2),
{
    assert forall|kk: int|
        0 <= kk < upto implies cluster_transitive_covered(g, #[trigger] jids[kk], cs2) by {
        assert(cluster_transitive_covered(g, jids[kk], cs1));
        let reached = choose|reached: Set<Seq<char>>| cluster_reach_ok(g, jids[kk], cs1, reached);
        assert forall|x: Seq<char>| #[trigger]
            reached.contains(x) implies prefixed_causes_in(g, x, jids[kk], cs2) by {
            assert(prefixed_causes_in(g, x, jids[kk], cs1));
            assert forall|j: int| 0 <= j < g.edges.len() implies {
                let e = #[trigger] g.edges[j];
                &&& (e.from == x && e.edge_type == crate::graph::EdgeType::BlockedBy
                    && crate::graph::error_target(g.nodes, e.to) ==> cs2.contains(
                    line_for(jids[kk], crate::graph::blocked_cause(g.nodes, e)),
                ))
                &&& (e.from == x && e.edge_type == crate::graph::EdgeType::WaitsOn ==> cs2.contains(
                    line_for(jids[kk], crate::graph::waits_cause(e)),
                ))
            } by {
                let e = g.edges[j];
            }
        }
        assert(cluster_reach_ok(g, jids[kk], cs2, reached));
    }
}

/// Collected line forms survive growing the cause list.
proof fn lemma_lines_monotone(
    id: Seq<char>,
    found: Seq<Seq<char>>,
    upto: int,
    cs1: Seq<Seq<char>>,
    cs2: Seq<Seq<char>>,
)
    requires
        forall|x: Seq<char>| cs1.contains(x) ==> cs2.contains(x),
        forall|j: int| 0 <= j < upto ==> cs1.contains(line_for(id, #[trigger] found[j])),
    ensures
        forall|j: int| 0 <= j < upto ==> cs2.contains(line_for(id, #[trigger] found[j])),
{
}

} // verus!

// ---------------------------------------------------------------------------
// Parsing node and pid out of cause strings.
// ---------------------------------------------------------------------------

verus! {

/// The length of the run of digits at the head of `s`.
pub open spec fn digit_run(s: Seq<char>, i: int) -> int
    decreases s.len() - i,
{
    if i < 0 || i >= s.len() {
        0
    } else if crate::strutil::is_digit(s[i]) {
        1 + digit_run(s, i + 1)
    } else {
        0
    }
}

/// What a cause line yields under the grammar
/// `<node_id>"::pid-"<digits>": "<reason>`: the node name and the pid,
/// when the line starts with a namespaced pid whose digits fit.
pub open spec fn spec_extract_node_and_pid(c: Seq<char>) -> Option<(Seq<char>, u32)> {
    let d = find_sub_from(c, "::pid-"@, 0);
    if d >= 0 {
        let digits = c.skip(d + 6).take(digit_run(c, d + 6));
        if digits.len() > 0 && digits_val(digits) <= u32::MAX {
            Some((c.take(d), digits_val(digits) as u32))
        } else {
            None
        }
    } else {
        None
    }
}

/// Reads the `(node, pid)` pair out of a cause line of the root-cause
/// grammar; lines without a namespaced pid yield nothing.
pub fn extract_node_and_pid(cause_str: &str) -> (r: Option<(String, u32)>)
    ensures
        match r {
            Some(p) => spec_extract_node_and_pid(cause_str@) matches Some(sp) && sp.0 == p.0@
                && sp.1 == p.1,
            None => spec_extract_node_and_pid(cause_str@) is None,
        },
{
    let d = match str_find(cause_str, "::pid-") {
        Some(d) => d,
        None => {
            return None;
        },
    };
    proof {
        lemma_find_sub_from(cause_str@, "::pid-"@, 0);
        reveal_strlit("::pid-");
    }
    let len = cause_str.unicode_len();
    // Measure the digit run after the marker.
    let start = d + 6;
    let mut e: usize = start;
    while e < len
        invariant_except_break
            start <= e <= len,
            len == cause_str@.len(),
            digit_run(cause_str@, start as int) == (e - start) + digit_run(cause_str@, e as int),
            forall|k: int| start <= k < e ==> crate::strutil::is_digit(cause_str@[k]),
        ensures
            start <= e <= len,
            forall|k: int| start <= k < e ==> crate::strutil::is_digit(cause_str@[k]),
            e - start == digit_run(cause_str@, start as int),
        decreases len - e,
    {
        let u = cause_str.get_char(e) as u32;
        if u < 48 || u > 57 {
            proof {
                assert(!crate::strutil::is_digit(cause_str@[e as int]));
                assert(digit_run(cause_str@, e as int) == 0);
            }
            break;
        }
        assert(crate::strutil::is_digit(cause_str@[e as int]));
        e = e + 1;
    }
    if e == start {
        return None;
    }
    let digits = cause_str.substring_char(start, e);
    proof {
        assert(digits@ =~= cause_str@.skip(start as int).take((e - start) as int));
    }
    match parse_u32(digits) {
        Some(pid) => {
            let node = cause_str.substring_char(0, d);
            proof {
                assert(node@ =~= cause_str@.take(d as int));
            }
            Some((node.to_owned(), pid))
        },
        None => {
            proof {
                assert(crate::strutil::all_digits(digits@));
            }
            None
        },
    }
}

} // verus!
