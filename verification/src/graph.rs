//! The causal state graph: processes, resources and errors as nodes,
//! `Consumes` / `WaitsOn` / `BlockedBy` as edges, fed by telemetry events.
//!
//! The whole graph is modelled by [`GraphModel`], a pair of mathematical
//! sequences, and every mutation on [`StateGraph`] is pinned to a spec-level
//! transition function on that model.  The laws of the graph (edge
//! de-duplication, the exact shape of `BlockedBy` fan-out, removal of exited
//! processes, the error retention window, idempotence of re-ingesting an
//! event) are proved about those transition functions in this module.

use vstd::prelude::*;

use crate::event::{Event, EventModel, EventType};
use crate::strutil::{contains_seq, dec_digits, spec_parse_milli, str_eq};
use crate::strutil::{parse_decimal_milli, str_contains, u32_to_string};

verus! {

/// The three semantic edge kinds.
#[derive(Clone, Copy, PartialEq, Eq, Structural, Debug)]
pub enum EdgeType {
    /// A process is actively using a resource.
    Consumes,
    /// A process is stalled on a resource.
    WaitsOn,
    /// A process or resource is blocked by an error.
    BlockedBy,
}

/// The three node kinds.
#[derive(Clone, Copy, PartialEq, Eq, Structural, Debug)]
pub enum NodeType {
    Process,
    Resource,
    Error,
}

/// A directed edge, endpoints named by node id.
pub struct Edge {
    pub edge_type: EdgeType,
    pub from: String,
    pub to: String,
    pub ts: u64,
}

/// A graph node; `metadata` is an association list with unique keys.
pub struct Node {
    pub id: String,
    pub node_type: NodeType,
    pub last_update: u64,
    pub metadata: Vec<(String, String)>,
}

/// The mathematical image of an edge.
pub struct EdgeModel {
    pub edge_type: EdgeType,
    pub from: Seq<char>,
    pub to: Seq<char>,
    pub ts: u64,
}

/// The mathematical image of a node.
pub struct NodeModel {
    pub id: Seq<char>,
    pub node_type: NodeType,
    pub last_update: u64,
    pub metadata: Seq<(Seq<char>, Seq<char>)>,
}

impl View for Edge {
    type V = EdgeModel;

    open spec fn view(&self) -> EdgeModel {
        EdgeModel { edge_type: self.edge_type, from: self.from@, to: self.to@, ts: self.ts }
    }
}

impl View for Node {
    type V = NodeModel;

    open spec fn view(&self) -> NodeModel {
        NodeModel {
            id: self.id@,
            node_type: self.node_type,
            last_update: self.last_update,
            metadata: meta_view(self.metadata@),
        }
    }
}

/// The mathematical image of the whole graph.
pub struct GraphModel {
    pub nodes: Seq<NodeModel>,
    pub edges: Seq<EdgeModel>,
    pub error_window_ms: u64,
}

// ---------------------------------------------------------------------------
// Association-list lookups and updates.
// ---------------------------------------------------------------------------

/// The value under `k` in `m`, scanning from index `i`.
pub open spec fn kv_from(m: Seq<(Seq<char>, Seq<char>)>, k: Seq<char>, i: int) -> Option<Seq<char>>
    decreases m.len() - i,
{
    if i < 0 || i >= m.len() {
        None
    } else if m[i].0 == k {
        Some(m[i].1)
    } else {
        kv_from(m, k, i + 1)
    }
}

/// The value under `k` in `m`: the first binding wins.
pub open spec fn kv_get(m: Seq<(Seq<char>, Seq<char>)>, k: Seq<char>) -> Option<Seq<char>> {
    kv_from(m, k, 0)
}

/// `m` with the first binding of `k` replaced by `v`, or `(k, v)` appended,
/// scanning from index `i`.
pub open spec fn kv_set_from(
    m: Seq<(Seq<char>, Seq<char>)>,
    k: Seq<char>,
    v: Seq<char>,
    i: int,
) -> Seq<(Seq<char>, Seq<char>)>
    decreases m.len() - i,
{
    if i < 0 || i >= m.len() {
        m.push((k, v))
    } else if m[i].0 == k {
        m.update(i, (k, v))
    } else {
        kv_set_from(m, k, v, i + 1)
    }
}

/// `m` with `k` bound to `v`, overwriting in place.
pub open spec fn kv_set(
    m: Seq<(Seq<char>, Seq<char>)>,
    k: Seq<char>,
    v: Seq<char>,
) -> Seq<(Seq<char>, Seq<char>)> {
    kv_set_from(m, k, v, 0)
}

/// The model of a metadata vector.
pub open spec fn meta_view(m: Seq<(String, String)>) -> Seq<(Seq<char>, Seq<char>)> {
    m.map_values(|p: (String, String)| (p.0@, p.1@))
}

/// Looks `k` up in a metadata vector.
pub fn meta_get<'a>(m: &'a Vec<(String, String)>, k: &str) -> (r: Option<&'a String>)
    ensures
        match r {
            Some(v) => kv_get(meta_view(m@), k@) == Some(v@),
            None => kv_get(meta_view(m@), k@) is None,
        },
{
    let n = m.len();
    let mut i: usize = 0;
    while i < n
        invariant
            0 <= i <= n,
            n == m@.len(),
            kv_get(meta_view(m@), k@) == kv_from(meta_view(m@), k@, i as int),
        decreases n - i,
    {
        if str_eq(m[i].0.as_str(), k) {
            assert(meta_view(m@)[i as int].0 == k@);
            return Some(&m[i].1);
        }
        assert(meta_view(m@)[i as int].0 != k@);
        i = i + 1;
    }
    None
}

/// Binds `k` to `v` in a metadata vector, overwriting the first binding in
/// place or appending a new one.
pub fn meta_set(m: &mut Vec<(String, String)>, k: &str, v: &str)
    ensures
        meta_view(final(m)@) == kv_set(meta_view(old(m)@), k@, v@),
{
    let n = m.len();
    let mut i: usize = 0;
    while i < n
        invariant
            0 <= i <= n,
            n == m@.len(),
            m@ == old(m)@,
            kv_set(meta_view(m@), k@, v@) == kv_set_from(meta_view(m@), k@, v@, i as int),
        decreases n - i,
    {
        if str_eq(m[i].0.as_str(), k) {
            assert(meta_view(m@)[i as int].0 == k@);
            let ghost before = meta_view(m@);
            m.set(i, (k.to_owned(), v.to_owned()));
            proof {
                assert(meta_view(m@) =~= before.update(i as int, (k@, v@)));
            }
            return;
        }
        assert(meta_view(m@)[i as int].0 != k@);
        i = i + 1;
    }
    let ghost before = meta_view(m@);
    m.push((k.to_owned(), v.to_owned()));
    proof {
        assert(meta_view(m@) =~= before.push((k@, v@)));
    }
}

// ---------------------------------------------------------------------------
// Node search.
// ---------------------------------------------------------------------------

/// The index of the first node named `id`, scanning from `i`; `-1` when
/// there is none.
pub open spec fn find_from(nodes: Seq<NodeModel>, id: Seq<char>, i: int) -> int
    decreases nodes.len() - i,
{
    if i < 0 || i >= nodes.len() {
        -1
    } else if nodes[i].id == id {
        i
    } else {
        find_from(nodes, id, i + 1)
    }
}

/// The index of the first node named `id`, or `-1`.
pub open spec fn find_node(nodes: Seq<NodeModel>, id: Seq<char>) -> int {
    find_from(nodes, id, 0)
}

/// A node named `id` exists.
pub open spec fn has_node(nodes: Seq<NodeModel>, id: Seq<char>) -> bool {
    find_node(nodes, id) >= 0
}

/// What `find_from` returns: a hit names `id` and nothing before it does; a
/// miss means nothing at `i` or later does.
pub proof fn lemma_find_from(nodes: Seq<NodeModel>, id: Seq<char>, i: int)
    requires
        0 <= i <= nodes.len(),
    ensures
        find_from(nodes, id, i) == -1 || find_from(nodes, id, i) >= 0,
        find_from(nodes, id, i) == -1 ==> forall|j: int| i <= j < nodes.len() ==> nodes[j].id != id,
        find_from(nodes, id, i) >= 0 ==> {
            &&& i <= find_from(nodes, id, i) < nodes.len()
            &&& nodes[find_from(nodes, id, i)].id == id
            &&& forall|j: int| i <= j < find_from(nodes, id, i) ==> nodes[j].id != id
        },
    decreases nodes.len() - i,
{
    if i < nodes.len() && nodes[i].id != id {
        lemma_find_from(nodes, id, i + 1);
    }
}

/// The model of a node vector.
pub open spec fn nodes_view(nodes: Seq<Node>) -> Seq<NodeModel> {
    nodes.map_values(|n: Node| n@)
}

/// The model of an edge vector.
pub open spec fn edges_view(edges: Seq<Edge>) -> Seq<EdgeModel> {
    edges.map_values(|e: Edge| e@)
}

/// Finds the first node named `id`.
pub fn find_node_idx(nodes: &Vec<Node>, id: &str) -> (r: Option<usize>)
    ensures
        match r {
            Some(i) => find_node(nodes_view(nodes@), id@) == i as int,
            None => find_node(nodes_view(nodes@), id@) == -1,
        },
{
    let n = nodes.len();
    let mut i: usize = 0;
    while i < n
        invariant
            0 <= i <= n,
            n == nodes@.len(),
            find_node(nodes_view(nodes@), id@) == find_from(nodes_view(nodes@), id@, i as int),
        decreases n - i,
    {
        if str_eq(nodes[i].id.as_str(), id) {
            assert(nodes_view(nodes@)[i as int].id == id@);
            return Some(i);
        }
        assert(nodes_view(nodes@)[i as int].id != id@);
        i = i + 1;
    }
    None
}

// ---------------------------------------------------------------------------
// Node ids, with the hub's per-node namespace prefix.
// ---------------------------------------------------------------------------

/// The namespace prefix an event's node id contributes: `<node>::`, or
/// nothing for a local event.
pub open spec fn scope_prefix(node_id: Option<Seq<char>>) -> Seq<char> {
    match node_id {
        None => Seq::empty(),
        Some(n) => n + "::"@,
    }
}

/// The graph id of the process node for `pid`.
pub open spec fn pid_node_id(node_id: Option<Seq<char>>, pid: u32) -> Seq<char> {
    scope_prefix(node_id) + "pid-"@ + dec_digits(pid as int)
}

/// The graph id of the resource node for an event's entity.
pub open spec fn entity_node_id(e: EventModel) -> Seq<char> {
    scope_prefix(e.node_id) + e.entity_id
}

/// The graph id of the error node for an event's entity.
pub open spec fn error_node_id(e: EventModel) -> Seq<char> {
    scope_prefix(e.node_id) + "error-"@ + e.entity_id
}

/// Prepends the namespace prefix to a base id.
fn make_scoped(node_id: &Option<String>, base: String) -> (r: String)
    ensures
        r@ == scope_prefix(crate::event::opt_string_view(*node_id)) + base@,
{
    match node_id {
        None => {
            proof {
                assert(Seq::<char>::empty() + base@ =~= base@);
            }
            base
        },
        Some(n) => {
            let r = n.clone().concat("::").concat(base.as_str());
            proof {
                assert((n@ + "::"@) + base@ =~= r@);
            }
            r
        },
    }
}

/// Builds the process node id `pid-<n>`, namespaced.
pub fn make_pid_id(node_id: &Option<String>, pid: u32) -> (r: String)
    ensures
        r@ == pid_node_id(crate::event::opt_string_view(*node_id), pid),
{
    let digits = u32_to_string(pid);
    let base = String::from_str("pid-").concat(digits.as_str());
    proof {
        assert(base@ =~= "pid-"@ + dec_digits(pid as int));
    }
    let r = make_scoped(node_id, base);
    proof {
        assert(r@ =~= scope_prefix(crate::event::opt_string_view(*node_id)) + "pid-"@
            + dec_digits(pid as int));
    }
    r
}

/// Builds the error node id `error-<entity>`, namespaced.
fn make_error_id(node_id: &Option<String>, entity: &String) -> (r: String)
    ensures
        r@ == scope_prefix(crate::event::opt_string_view(*node_id)) + "error-"@ + entity@,
{
    let base = String::from_str("error-").concat(entity.as_str());
    let r = make_scoped(node_id, base);
    proof {
        assert(r@ =~= scope_prefix(crate::event::opt_string_view(*node_id)) + "error-"@
            + entity@);
    }
    r
}

// ---------------------------------------------------------------------------
// Spec-level edge and node operations.
// ---------------------------------------------------------------------------

/// The edge carries exactly this kind and these endpoints.
pub open spec fn edge_matches(e: EdgeModel, kind: EdgeType, from: Seq<char>, to: Seq<char>) -> bool {
    e.edge_type == kind && e.from == from && e.to == to
}

/// An edge with this kind and these endpoints occurs at or after `i`.
pub open spec fn edge_exists_from(
    edges: Seq<EdgeModel>,
    kind: EdgeType,
    from: Seq<char>,
    to: Seq<char>,
    i: int,
) -> bool
    decreases edges.len() - i,
{
    if i < 0 || i >= edges.len() {
        false
    } else if edge_matches(edges[i], kind, from, to) {
        true
    } else {
        edge_exists_from(edges, kind, from, to, i + 1)
    }
}

/// An edge with this kind and these endpoints occurs in `edges`.
pub open spec fn edge_exists(
    edges: Seq<EdgeModel>,
    kind: EdgeType,
    from: Seq<char>,
    to: Seq<char>,
) -> bool {
    edge_exists_from(edges, kind, from, to, 0)
}

/// `edge_exists_from` agrees with the quantifier form.
pub proof fn lemma_edge_exists_from(
    edges: Seq<EdgeModel>,
    kind: EdgeType,
    from: Seq<char>,
    to: Seq<char>,
    i: int,
)
    requires
        0 <= i <= edges.len(),
    ensures
        edge_exists_from(edges, kind, from, to, i) <==> exists|j: int|
            i <= j < edges.len() && edge_matches(edges[j], kind, from, to),
    decreases edges.len() - i,
{
    if i < edges.len() {
        lemma_edge_exists_from(edges, kind, from, to, i + 1);
        if edge_matches(edges[i], kind, from, to) {
            assert(edge_matches(edges[i], kind, from, to));
        }
    }
}

/// Appends the edge unless an equal `(kind, from, to)` edge is already
/// present.
pub open spec fn spec_add_edge(
    edges: Seq<EdgeModel>,
    kind: EdgeType,
    from: Seq<char>,
    to: Seq<char>,
    ts: u64,
) -> Seq<EdgeModel> {
    if edge_exists(edges, kind, from, to) {
        edges
    } else {
        edges.push(EdgeModel { edge_type: kind, from, to, ts })
    }
}

/// Appends a node when none with this id exists; the new node starts with
/// the given metadata.
pub open spec fn spec_ensure_node(
    nodes: Seq<NodeModel>,
    id: Seq<char>,
    kind: NodeType,
    ts: u64,
    metadata: Seq<(Seq<char>, Seq<char>)>,
) -> Seq<NodeModel> {
    if has_node(nodes, id) {
        nodes
    } else {
        nodes.push(NodeModel { id, node_type: kind, last_update: ts, metadata })
    }
}

/// Creates or refreshes the node named `id` and binds one metadata key;
/// an existing node keeps its type and position.
pub open spec fn spec_upsert_attr(
    nodes: Seq<NodeModel>,
    id: Seq<char>,
    kind: NodeType,
    key: Seq<char>,
    val: Seq<char>,
    ts: u64,
) -> Seq<NodeModel> {
    let i = find_node(nodes, id);
    if i < 0 {
        nodes.push(NodeModel { id, node_type: kind, last_update: ts, metadata: seq![(key, val)] })
    } else {
        nodes.update(
            i,
            NodeModel {
                id,
                node_type: nodes[i].node_type,
                last_update: ts,
                metadata: kv_set(nodes[i].metadata, key, val),
            },
        )
    }
}

/// Replaces the node named `id` outright, or appends it.
pub open spec fn spec_put_node(nodes: Seq<NodeModel>, node: NodeModel) -> Seq<NodeModel> {
    let i = find_node(nodes, node.id);
    if i < 0 {
        nodes.push(node)
    } else {
        nodes.update(i, node)
    }
}

/// The sources of the `Consumes` edges into `entity`, in edge order,
/// scanning from `i`.
pub open spec fn consumers_from(edges: Seq<EdgeModel>, entity: Seq<char>, i: int) -> Seq<Seq<char>>
    decreases edges.len() - i,
{
    if i < 0 || i >= edges.len() {
        Seq::empty()
    } else if edges[i].edge_type == EdgeType::Consumes && edges[i].to == entity {
        seq![edges[i].from] + consumers_from(edges, entity, i + 1)
    } else {
        consumers_from(edges, entity, i + 1)
    }
}

/// The processes currently consuming `entity`, in edge order.
pub open spec fn consumers_of(edges: Seq<EdgeModel>, entity: Seq<char>) -> Seq<Seq<char>> {
    consumers_from(edges, entity, 0)
}

/// Draws one `BlockedBy` edge per listed process into the error node,
/// de-duplicated, starting at list index `i`.
pub open spec fn add_blocked_from(
    edges: Seq<EdgeModel>,
    froms: Seq<Seq<char>>,
    err: Seq<char>,
    ts: u64,
    i: int,
) -> Seq<EdgeModel>
    decreases froms.len() - i,
{
    if i < 0 || i >= froms.len() {
        edges
    } else {
        add_blocked_from(spec_add_edge(edges, EdgeType::BlockedBy, froms[i], err, ts), froms, err, ts, i + 1)
    }
}

// ---------------------------------------------------------------------------
// Spec-level ingest transitions.
// ---------------------------------------------------------------------------

/// The metadata key a metric event writes.
pub open spec fn metric_key(t: EventType) -> Seq<char> {
    match t {
        EventType::ComputeUtil => "util"@,
        EventType::ComputeMem => "mem"@,
        EventType::TransportBw => "bw"@,
        EventType::TransportDrop => "drop"@,
        EventType::StorageIops => "iops"@,
        EventType::StorageQDepth => "qdepth"@,
        _ => "value"@,
    }
}

/// The payload marks a stall: the literal `IO_WAIT`, or a numeric reading
/// below one.
pub open spec fn stall_value(value: Seq<char>) -> bool {
    ||| contains_seq(value, "IO_WAIT"@)
    ||| (spec_parse_milli(value) matches Some(v) && v < 1000)
}

/// The event asks for a `WaitsOn` edge: every drop report does, and any
/// bandwidth or storage reading whose value marks a stall.
pub open spec fn wants_waits_on(e: EventModel) -> bool {
    match e.event_type {
        EventType::TransportDrop => true,
        EventType::TransportBw => stall_value(e.value),
        EventType::StorageIops => stall_value(e.value),
        EventType::StorageQDepth => stall_value(e.value),
        _ => false,
    }
}

/// The metadata a fresh process node starts with.
pub open spec fn start_metadata(e: EventModel) -> Seq<(Seq<char>, Seq<char>)> {
    match e.job_id {
        Some(j) => seq![("job_id"@, j), ("state"@, "running"@)],
        None => seq![("state"@, "running"@)],
    }
}

/// A `process.state` event: `start` installs a fresh running process node;
/// `exit` and `zombie` mark the state for the removal pass.
pub open spec fn spec_process_state(g: GraphModel, e: EventModel) -> GraphModel {
    match e.pid {
        None => g,
        Some(p) => {
            let id = pid_node_id(e.node_id, p);
            if e.value == "start"@ {
                GraphModel {
                    nodes: spec_put_node(
                        g.nodes,
                        NodeModel {
                            id,
                            node_type: NodeType::Process,
                            last_update: e.ts,
                            metadata: start_metadata(e),
                        },
                    ),
                    ..g
                }
            } else if e.value == "exit"@ || e.value == "zombie"@ {
                let i = find_node(g.nodes, id);
                if i < 0 {
                    g
                } else {
                    GraphModel {
                        nodes: g.nodes.update(
                            i,
                            NodeModel {
                                id,
                                node_type: g.nodes[i].node_type,
                                last_update: e.ts,
                                metadata: kv_set(g.nodes[i].metadata, "state"@, e.value),
                            },
                        ),
                        ..g
                    }
                }
            } else {
                g
            }
        },
    }
}

/// A metric event: refresh the resource node, and when a pid is attached,
/// ensure the process node, a `Consumes` edge, and — for stalls — a
/// `WaitsOn` edge.
pub open spec fn spec_metric_event(g: GraphModel, e: EventModel) -> GraphModel {
    let ent = entity_node_id(e);
    let nodes1 = spec_upsert_attr(g.nodes, ent, NodeType::Resource, metric_key(e.event_type), e.value, e.ts);
    match e.pid {
        None => GraphModel { nodes: nodes1, ..g },
        Some(p) => {
            let pid_id = pid_node_id(e.node_id, p);
            let nodes2 = spec_ensure_node(nodes1, pid_id, NodeType::Process, e.ts, Seq::empty());
            let edges1 = spec_add_edge(g.edges, EdgeType::Consumes, pid_id, ent, e.ts);
            let edges2 = if wants_waits_on(e) {
                spec_add_edge(edges1, EdgeType::WaitsOn, pid_id, ent, e.ts)
            } else {
                edges1
            };
            GraphModel { nodes: nodes2, edges: edges2, ..g }
        },
    }
}

/// An error event: create the error node if it is new, then draw one
/// `BlockedBy` edge from every process consuming the entity.
pub open spec fn spec_error_event(g: GraphModel, e: EventModel) -> GraphModel {
    let ent = entity_node_id(e);
    let err = error_node_id(e);
    let nodes1 = spec_ensure_node(g.nodes, err, NodeType::Error, e.ts, seq![("error_type"@, e.value)]);
    let edges1 = add_blocked_from(g.edges, consumers_of(g.edges, ent), err, e.ts, 0);
    GraphModel { nodes: nodes1, edges: edges1, ..g }
}

/// Dispatch on the event family; placement and remediation records do not
/// touch the graph.
pub open spec fn spec_dispatch(g: GraphModel, e: EventModel) -> GraphModel {
    match e.event_type {
        EventType::ProcessState => spec_process_state(g, e),
        EventType::ComputeUtil => spec_metric_event(g, e),
        EventType::ComputeMem => spec_metric_event(g, e),
        EventType::TransportBw => spec_metric_event(g, e),
        EventType::TransportDrop => spec_metric_event(g, e),
        EventType::StorageIops => spec_metric_event(g, e),
        EventType::StorageQDepth => spec_metric_event(g, e),
        EventType::ErrorHw => spec_error_event(g, e),
        EventType::ErrorNet => spec_error_event(g, e),
        EventType::TopoLinkDown => spec_error_event(g, e),
        EventType::IntentRun => g,
        EventType::ActionExec => g,
    }
}

// ---------------------------------------------------------------------------
// Spec-level expiry.
// ---------------------------------------------------------------------------

/// An error node that last changed before the cutoff.
pub open spec fn expired_error(n: NodeModel, cutoff: int) -> bool {
    n.node_type == NodeType::Error && n.last_update < cutoff
}

/// A process node that reported `exit` or `zombie`, or has gone silent
/// without being `running`.
pub open spec fn dead_process(n: NodeModel, cutoff: int) -> bool {
    n.node_type == NodeType::Process && {
        let st = kv_get(n.metadata, "state"@);
        ||| st == Some("exit"@)
        ||| st == Some("zombie"@)
        ||| (n.last_update < cutoff && st != Some("running"@))
    }
}

/// The ids of the expired error nodes, scanning from `i`.
pub open spec fn expired_ids_from(nodes: Seq<NodeModel>, cutoff: int, i: int) -> Seq<Seq<char>>
    decreases nodes.len() - i,
{
    if i < 0 || i >= nodes.len() {
        Seq::empty()
    } else if expired_error(nodes[i], cutoff) {
        seq![nodes[i].id] + expired_ids_from(nodes, cutoff, i + 1)
    } else {
        expired_ids_from(nodes, cutoff, i + 1)
    }
}

/// The nodes that are not expired errors, scanning from `i`.
pub open spec fn keep_unexpired_from(nodes: Seq<NodeModel>, cutoff: int, i: int) -> Seq<NodeModel>
    decreases nodes.len() - i,
{
    if i < 0 || i >= nodes.len() {
        Seq::empty()
    } else if expired_error(nodes[i], cutoff) {
        keep_unexpired_from(nodes, cutoff, i + 1)
    } else {
        seq![nodes[i]] + keep_unexpired_from(nodes, cutoff, i + 1)
    }
}

/// The ids of the dead process nodes, scanning from `i`.
pub open spec fn dead_ids_from(nodes: Seq<NodeModel>, cutoff: int, i: int) -> Seq<Seq<char>>
    decreases nodes.len() - i,
{
    if i < 0 || i >= nodes.len() {
        Seq::empty()
    } else if dead_process(nodes[i], cutoff) {
        seq![nodes[i].id] + dead_ids_from(nodes, cutoff, i + 1)
    } else {
        dead_ids_from(nodes, cutoff, i + 1)
    }
}

/// The nodes that are not dead processes, scanning from `i`.
pub open spec fn keep_alive_from(nodes: Seq<NodeModel>, cutoff: int, i: int) -> Seq<NodeModel>
    decreases nodes.len() - i,
{
    if i < 0 || i >= nodes.len() {
        Seq::empty()
    } else if dead_process(nodes[i], cutoff) {
        keep_alive_from(nodes, cutoff, i + 1)
    } else {
        seq![nodes[i]] + keep_alive_from(nodes, cutoff, i + 1)
    }
}

/// The edges whose endpoints avoid every id in `ids`, scanning from `i`.
pub open spec fn keep_edges_not_ref(edges: Seq<EdgeModel>, ids: Seq<Seq<char>>, i: int) -> Seq<EdgeModel>
    decreases edges.len() - i,
{
    if i < 0 || i >= edges.len() {
        Seq::empty()
    } else if ids.contains(edges[i].from) || ids.contains(edges[i].to) {
        keep_edges_not_ref(edges, ids, i + 1)
    } else {
        seq![edges[i]] + keep_edges_not_ref(edges, ids, i + 1)
    }
}

/// Saturating difference of a timestamp and a window.
pub open spec fn cutoff_at(now: u64, window: u64) -> int {
    if now >= window {
        now - window
    } else {
        0
    }
}

/// The expiry pass run after every ingest: expired error nodes leave with
/// every edge touching them, then dead processes leave the same way.
/// Resource nodes and running processes stay, however silent.
pub open spec fn spec_cleanup(g: GraphModel, now: u64) -> GraphModel {
    let ecut = cutoff_at(now, g.error_window_ms);
    let eids = expired_ids_from(g.nodes, ecut, 0);
    let nodes1 = keep_unexpired_from(g.nodes, ecut, 0);
    let edges1 = keep_edges_not_ref(g.edges, eids, 0);
    let pcut = cutoff_at(now, 600000);
    let dids = dead_ids_from(nodes1, pcut, 0);
    let nodes2 = keep_alive_from(nodes1, pcut, 0);
    let edges2 = keep_edges_not_ref(edges1, dids, 0);
    GraphModel { nodes: nodes2, edges: edges2, error_window_ms: g.error_window_ms }
}

/// One full ingest step: dispatch on the event, then expire against the
/// event's own timestamp.
pub open spec fn spec_ingest(g: GraphModel, e: EventModel) -> GraphModel {
    spec_cleanup(spec_dispatch(g, e), e.ts)
}

// ---------------------------------------------------------------------------
// Root-cause search: specification of the emitted strings.
// ---------------------------------------------------------------------------

/// The set of all node ids.
pub open spec fn node_id_set(nodes: Seq<NodeModel>) -> Set<Seq<char>> {
    nodes.map_values(|n: NodeModel| n.id).to_set()
}

/// The error label shown for a blocking node: its `error_type` attribute,
/// or `unknown`.
pub open spec fn err_label(nodes: Seq<NodeModel>, id: Seq<char>) -> Seq<char> {
    let i = find_node(nodes, id);
    match kv_get(nodes[i].metadata, "error_type"@) {
        Some(v) => v,
        None => "unknown"@,
    }
}

/// The node named `id` exists and is an error node.
pub open spec fn error_target(nodes: Seq<NodeModel>, id: Seq<char>) -> bool {
    let i = find_node(nodes, id);
    i >= 0 && nodes[i].node_type == NodeType::Error
}

/// The cause string for a `BlockedBy` edge: `<target>: <label>`.
pub open spec fn blocked_cause(nodes: Seq<NodeModel>, e: EdgeModel) -> Seq<char> {
    e.to + ": "@ + err_label(nodes, e.to)
}

/// The cause string for a `WaitsOn` edge.
pub open spec fn waits_cause(e: EdgeModel) -> Seq<char> {
    "waiting on resource: "@ + e.to
}

/// `c` is a cause string that some edge of the graph justifies.
pub open spec fn valid_cause(g: GraphModel, c: Seq<char>) -> bool {
    exists|j: int|
        0 <= j < g.edges.len() && {
            let e = #[trigger] g.edges[j];
            ||| (e.edge_type == EdgeType::BlockedBy && error_target(g.nodes, e.to) && c
                == blocked_cause(g.nodes, e))
            ||| (e.edge_type == EdgeType::WaitsOn && c == waits_cause(e))
        }
}

/// Every cause that an edge leaving `cur` justifies appears in `cs`.
pub open spec fn direct_causes_in(g: GraphModel, cur: Seq<char>, cs: Seq<Seq<char>>) -> bool {
    forall|j: int|
        0 <= j < g.edges.len() ==> {
            let e = #[trigger] g.edges[j];
            &&& (e.from == cur && e.edge_type == EdgeType::BlockedBy && error_target(g.nodes, e.to)
                ==> cs.contains(blocked_cause(g.nodes, e)))
            &&& (e.from == cur && e.edge_type == EdgeType::WaitsOn ==> cs.contains(waits_cause(e)))
        }
}

/// Pushing onto a sequence inserts into its set of elements.
proof fn lemma_push_to_set(s: Seq<Seq<char>>, x: Seq<char>)
    ensures
        s.push(x).to_set() =~= s.to_set().insert(x),
{
    broadcast use vstd::set::group_set_axioms;

    assert forall|y: Seq<char>| s.push(x).to_set().contains(y) implies s.to_set().insert(
        x,
    ).contains(y) by {
        let i = choose|i: int| 0 <= i < s.push(x).len() && s.push(x)[i] == y;
        if i < s.len() {
            assert(s[i] == y);
            assert(s.contains(y));
        }
    }
    assert forall|y: Seq<char>| s.to_set().insert(x).contains(y) implies s.push(x).to_set().contains(
        y,
    ) by {
        if y == x {
            assert(s.push(x)[s.len() as int] == y);
            assert(s.push(x).contains(y));
        } else {
            let i = choose|i: int| 0 <= i < s.len() && s[i] == y;
            assert(s.push(x)[i] == y);
            assert(s.push(x).contains(y));
        }
    }
}

/// Membership in a sequence survives pushing another element.
proof fn lemma_contains_push(s: Seq<Seq<char>>, x: Seq<char>, y: Seq<char>)
    requires
        s.contains(y),
    ensures
        s.push(x).contains(y),
{
    let i = choose|i: int| 0 <= i < s.len() && s[i] == y;
    assert(s.push(x)[i] == y);
}

/// Direct-cause coverage survives growing the cause list.
proof fn lemma_direct_monotone(g: GraphModel, x: Seq<char>, cs1: Seq<Seq<char>>, cs2: Seq<Seq<char>>)
    requires
        forall|y: Seq<char>| cs1.contains(y) ==> cs2.contains(y),
        direct_causes_in(g, x, cs1),
    ensures
        direct_causes_in(g, x, cs2),
{
    assert forall|j: int| 0 <= j < g.edges.len() implies {
        let e = #[trigger] g.edges[j];
        &&& (e.from == x && e.edge_type == EdgeType::BlockedBy && error_target(g.nodes, e.to)
            ==> cs2.contains(blocked_cause(g.nodes, e)))
        &&& (e.from == x && e.edge_type == EdgeType::WaitsOn ==> cs2.contains(waits_cause(e)))
    } by {
        let e = g.edges[j];
    }
}

/// The witnessing set of a transitive coverage claim: it holds the start,
/// it follows every `BlockedBy` edge into an existing node, and every node
/// it holds has all its one-hop causes in `cs`.
pub open spec fn reach_witness_ok(
    g: GraphModel,
    start: Seq<char>,
    cs: Seq<Seq<char>>,
    reached: Set<Seq<char>>,
) -> bool {
    &&& reached.contains(start)
    &&& forall|j: int|
        0 <= j < g.edges.len() && (#[trigger] g.edges[j]).edge_type == EdgeType::BlockedBy
            && reached.contains(g.edges[j].from) && has_node(g.nodes, g.edges[j].to)
            ==> reached.contains(g.edges[j].to)
    &&& forall|x: Seq<char>| #[trigger] reached.contains(x) ==> direct_causes_in(g, x, cs)
}

/// Transitive root-cause coverage: some set of node ids holds the start,
/// is closed under following `BlockedBy` edges into existing nodes, and
/// every id it holds has all its one-hop causes listed.  Any such set
/// contains every node reachable from the start along `BlockedBy` edges,
/// so the causes of every transitively blocking error appear in `cs`.
pub open spec fn transitive_causes_in(g: GraphModel, start: Seq<char>, cs: Seq<Seq<char>>) -> bool {
    exists|reached: Set<Seq<char>>| #[trigger] reach_witness_ok(g, start, cs, reached)
}

/// A process node that has not reported `exit` or `zombie`.
pub open spec fn active_process(n: NodeModel) -> bool {
    n.node_type == NodeType::Process && kv_get(n.metadata, "state"@) != Some("exit"@) && kv_get(
        n.metadata,
        "state"@,
    ) != Some("zombie"@)
}

/// The active process nodes, scanning from `i`.
pub open spec fn active_from(nodes: Seq<NodeModel>, i: int) -> Seq<NodeModel>
    decreases nodes.len() - i,
{
    if i < 0 || i >= nodes.len() {
        Seq::empty()
    } else if active_process(nodes[i]) {
        seq![nodes[i]] + active_from(nodes, i + 1)
    } else {
        active_from(nodes, i + 1)
    }
}

/// The resources a process consumes, in edge order, scanning from `i`.
pub open spec fn resources_from(edges: Seq<EdgeModel>, pid_id: Seq<char>, i: int) -> Seq<Seq<char>>
    decreases edges.len() - i,
{
    if i < 0 || i >= edges.len() {
        Seq::empty()
    } else if edges[i].edge_type == EdgeType::Consumes && edges[i].from == pid_id {
        seq![edges[i].to] + resources_from(edges, pid_id, i + 1)
    } else {
        resources_from(edges, pid_id, i + 1)
    }
}

// ---------------------------------------------------------------------------
// Well-formedness, and the laws of ingest.
// ---------------------------------------------------------------------------

/// No two edges share `(kind, from, to)`.
pub open spec fn edges_nodup(edges: Seq<EdgeModel>) -> bool {
    forall|i: int, j: int|
        0 <= i < j < edges.len() ==> !(edges[i].edge_type == edges[j].edge_type
            && edges[i].from == edges[j].from && edges[i].to == edges[j].to)
}

/// At most one node per id.
pub open spec fn unique_ids(nodes: Seq<NodeModel>) -> bool {
    forall|i: int, j: int| 0 <= i < j < nodes.len() ==> nodes[i].id != nodes[j].id
}

/// Every edge endpoint names an existing node.
pub open spec fn endpoints_exist(g: GraphModel) -> bool {
    forall|i: int|
        0 <= i < g.edges.len() ==> has_node(g.nodes, #[trigger] g.edges[i].from) && has_node(
            g.nodes,
            g.edges[i].to,
        )
}

/// The graph invariant: unique node ids, de-duplicated edges, no dangling
/// endpoints.
pub open spec fn wf_graph(g: GraphModel) -> bool {
    unique_ids(g.nodes) && edges_nodup(g.edges) && endpoints_exist(g)
}

/// A node named `id` exists exactly when some index holds it.
pub proof fn lemma_has_node_iff(nodes: Seq<NodeModel>, id: Seq<char>)
    ensures
        has_node(nodes, id) <==> exists|j: int| 0 <= j < nodes.len() && nodes[j].id == id,
{
    lemma_find_from(nodes, id, 0);
    if exists|j: int| 0 <= j < nodes.len() && nodes[j].id == id {
        assert(has_node(nodes, id));
    }
}

/// Adding an edge never removes one, adds at most the named one, and keeps
/// de-duplication.
pub proof fn lemma_add_edge_facts(
    edges: Seq<EdgeModel>,
    kind: EdgeType,
    from: Seq<char>,
    to: Seq<char>,
    ts: u64,
)
    ensures
        ({
            let r = spec_add_edge(edges, kind, from, to, ts);
            &&& r.len() >= edges.len()
            &&& forall|j: int| 0 <= j < edges.len() ==> r[j] == edges[j]
            &&& forall|j: int|
                edges.len() <= j < r.len() ==> edge_matches(#[trigger] r[j], kind, from, to)
                    && r[j].ts == ts
            &&& (edges_nodup(edges) ==> edges_nodup(r))
            &&& forall|k2: EdgeType, f2: Seq<char>, t2: Seq<char>|
                edge_exists(r, k2, f2, t2) <==> (#[trigger] edge_exists(edges, k2, f2, t2) || (k2
                    == kind && f2 == from && t2 == to))
        }),
{
    lemma_edge_exists_from(edges, kind, from, to, 0);
    let r = spec_add_edge(edges, kind, from, to, ts);
    assert forall|k2: EdgeType, f2: Seq<char>, t2: Seq<char>|
        edge_exists(r, k2, f2, t2) <==> (#[trigger] edge_exists(edges, k2, f2, t2) || (k2 == kind
            && f2 == from && t2 == to)) by {
        lemma_edge_exists_from(edges, k2, f2, t2, 0);
        lemma_edge_exists_from(r, k2, f2, t2, 0);
        if edge_exists(edges, k2, f2, t2) {
            let j = choose|j: int| 0 <= j < edges.len() && edge_matches(edges[j], k2, f2, t2);
            assert(edge_matches(r[j], k2, f2, t2));
        }
        if k2 == kind && f2 == from && t2 == to {
            if edge_exists(edges, kind, from, to) {
            } else {
                assert(edge_matches(r[edges.len() as int], k2, f2, t2));
            }
        }
    }
    if edges_nodup(edges) && !edge_exists(edges, kind, from, to) {
        assert forall|i: int, j: int| 0 <= i < j < r.len() implies !(r[i].edge_type
            == r[j].edge_type && r[i].from == r[j].from && r[i].to == r[j].to) by {
            if j == r.len() - 1 {
                assert(!edge_matches(edges[i], kind, from, to));
            }
        }
    }
}

/// What `add_blocked_from` builds: old edges stay in place, every new edge
/// is a `BlockedBy` into the error node from one of the listed processes,
/// each listed process ends up connected, and de-duplication survives.
pub proof fn lemma_add_blocked_facts(
    edges: Seq<EdgeModel>,
    froms: Seq<Seq<char>>,
    err: Seq<char>,
    ts: u64,
    i: int,
)
    requires
        0 <= i <= froms.len(),
    ensures
        ({
            let r = add_blocked_from(edges, froms, err, ts, i);
            &&& r.len() >= edges.len()
            &&& forall|j: int| 0 <= j < edges.len() ==> r[j] == edges[j]
            &&& forall|j: int|
                edges.len() <= j < r.len() ==> (#[trigger] r[j]).edge_type == EdgeType::BlockedBy
                    && r[j].to == err && r[j].ts == ts && froms.contains(r[j].from)
            &&& (edges_nodup(edges) ==> edges_nodup(r))
            &&& forall|p: Seq<char>|
                #[trigger] edge_exists(r, EdgeType::BlockedBy, p, err) <==> (edge_exists(
                    edges,
                    EdgeType::BlockedBy,
                    p,
                    err,
                ) || exists|idx: int| i <= idx < froms.len() && froms[idx] == p)
            &&& forall|k2: EdgeType, f2: Seq<char>, t2: Seq<char>|
                (k2 != EdgeType::BlockedBy || t2 != err) ==> (#[trigger] edge_exists(
                    r,
                    k2,
                    f2,
                    t2,
                ) <==> edge_exists(edges, k2, f2, t2))
        }),
    decreases froms.len() - i,
{
    let r = add_blocked_from(edges, froms, err, ts, i);
    if i < froms.len() {
        let e1 = spec_add_edge(edges, EdgeType::BlockedBy, froms[i], err, ts);
        lemma_add_edge_facts(edges, EdgeType::BlockedBy, froms[i], err, ts);
        lemma_add_blocked_facts(e1, froms, err, ts, i + 1);
        assert forall|p: Seq<char>| #[trigger]
            edge_exists(r, EdgeType::BlockedBy, p, err) <==> (edge_exists(
                edges,
                EdgeType::BlockedBy,
                p,
                err,
            ) || exists|idx: int| i <= idx < froms.len() && froms[idx] == p) by {
            if edge_exists(r, EdgeType::BlockedBy, p, err) {
                if !edge_exists(edges, EdgeType::BlockedBy, p, err) {
                    if edge_exists(e1, EdgeType::BlockedBy, p, err) {
                        assert(p == froms[i]);
                        assert(froms[i] == p);
                    }
                }
            }
            if exists|idx: int| i <= idx < froms.len() && froms[idx] == p {
                let idx = choose|idx: int| i <= idx < froms.len() && froms[idx] == p;
                if idx == i {
                    assert(edge_exists(e1, EdgeType::BlockedBy, p, err));
                }
            }
        }
    }
}

/// Which processes `consumers_from` collects.
pub proof fn lemma_consumers_iff(edges: Seq<EdgeModel>, ent: Seq<char>, i: int)
    requires
        0 <= i <= edges.len(),
    ensures
        forall|p: Seq<char>|
            #[trigger] consumers_from(edges, ent, i).contains(p) <==> exists|j: int|
                i <= j < edges.len() && edges[j].edge_type == EdgeType::Consumes && edges[j].to
                    == ent && edges[j].from == p,
    decreases edges.len() - i,
{
    if i < edges.len() {
        lemma_consumers_iff(edges, ent, i + 1);
        let rest = consumers_from(edges, ent, i + 1);
        assert forall|p: Seq<char>| #[trigger]
            consumers_from(edges, ent, i).contains(p) <==> exists|j: int|
                i <= j < edges.len() && edges[j].edge_type == EdgeType::Consumes && edges[j].to
                    == ent && edges[j].from == p by {
            let cur = consumers_from(edges, ent, i);
            if edges[i].edge_type == EdgeType::Consumes && edges[i].to == ent {
                assert(cur == seq![edges[i].from] + rest);
                if cur.contains(p) {
                    let k = choose|k: int| 0 <= k < cur.len() && cur[k] == p;
                    if k == 0 {
                        assert(edges[i].from == p);
                    } else {
                        assert(rest[k - 1] == p);
                        assert(rest.contains(p));
                    }
                }
                if exists|j: int|
                    i <= j < edges.len() && edges[j].edge_type == EdgeType::Consumes && edges[j].to
                        == ent && edges[j].from == p {
                    let j = choose|j: int|
                        i <= j < edges.len() && edges[j].edge_type == EdgeType::Consumes
                            && edges[j].to == ent && edges[j].from == p;
                    if j == i {
                        assert(cur[0] == p);
                    } else {
                        assert(rest.contains(p));
                        let k = choose|k: int| 0 <= k < rest.len() && rest[k] == p;
                        assert(cur[k + 1] == p);
                    }
                }
            } else {
                if cur.contains(p) {
                    let k = choose|k: int| 0 <= k < cur.len() && cur[k] == p;
                    assert(rest[k] == p);
                    assert(rest.contains(p));
                }
                if rest.contains(p) {
                    let k = choose|k: int| 0 <= k < rest.len() && rest[k] == p;
                    assert(cur[k] == p);
                }
            }
        }
    }
}

/// A lookup over a run of non-matching keys finds nothing.
proof fn lemma_kv_none(m: Seq<(Seq<char>, Seq<char>)>, k: Seq<char>, a: int)
    requires
        0 <= a <= m.len(),
        forall|j: int| a <= j < m.len() ==> m[j].0 != k,
    ensures
        kv_from(m, k, a) is None,
    decreases m.len() - a,
{
    if a < m.len() {
        lemma_kv_none(m, k, a + 1);
    }
}

proof fn lemma_push_lookup(m: Seq<(Seq<char>, Seq<char>)>, k: Seq<char>, v: Seq<char>, a: int)
    requires
        0 <= a <= m.len(),
        forall|j: int| a <= j < m.len() ==> m[j].0 != k,
    ensures
        kv_from(m.push((k, v)), k, a) == Some(v),
    decreases m.len() - a,
{
    if a < m.len() {
        lemma_push_lookup(m, k, v, a + 1);
    }
}

proof fn lemma_push_lookup_other(
    m: Seq<(Seq<char>, Seq<char>)>,
    k: Seq<char>,
    v: Seq<char>,
    k2: Seq<char>,
    a: int,
)
    requires
        0 <= a <= m.len(),
        k2 != k,
    ensures
        kv_from(m.push((k, v)), k2, a) == kv_from(m, k2, a),
    decreases m.len() - a,
{
    if a < m.len() {
        lemma_push_lookup_other(m, k, v, k2, a + 1);
    } else {
        assert(kv_from(m.push((k, v)), k2, a + 1) is None);
    }
}

proof fn lemma_update_lookup(
    m: Seq<(Seq<char>, Seq<char>)>,
    i: int,
    k: Seq<char>,
    v: Seq<char>,
    a: int,
)
    requires
        0 <= a <= i < m.len(),
        forall|j: int| a <= j < i ==> m[j].0 != k,
    ensures
        kv_from(m.update(i, (k, v)), k, a) == Some(v),
    decreases i - a,
{
    if a < i {
        lemma_update_lookup(m, i, k, v, a + 1);
    }
}

proof fn lemma_update_lookup_other(
    m: Seq<(Seq<char>, Seq<char>)>,
    i: int,
    k: Seq<char>,
    v: Seq<char>,
    k2: Seq<char>,
    a: int,
)
    requires
        0 <= a <= m.len(),
        0 <= i < m.len(),
        m[i].0 == k,
        k2 != k,
    ensures
        kv_from(m.update(i, (k, v)), k2, a) == kv_from(m, k2, a),
    decreases m.len() - a,
{
    if a < m.len() {
        lemma_update_lookup_other(m, i, k, v, k2, a + 1);
    }
}

/// What a lookup sees after a binding: the bound key maps to the new value
/// and every other key is untouched.
pub proof fn lemma_kv_set_get(m: Seq<(Seq<char>, Seq<char>)>, k: Seq<char>, v: Seq<char>)
    ensures
        kv_get(kv_set(m, k, v), k) == Some(v),
        forall|k2: Seq<char>| k2 != k ==> kv_get(kv_set(m, k, v), k2) == kv_get(m, k2),
{
    lemma_kv_set_get_from(m, k, v, 0);
}

proof fn lemma_kv_set_get_from(m: Seq<(Seq<char>, Seq<char>)>, k: Seq<char>, v: Seq<char>, i: int)
    requires
        0 <= i <= m.len(),
        forall|j: int| 0 <= j < i ==> m[j].0 != k,
    ensures
        kv_get(kv_set_from(m, k, v, i), k) == Some(v),
        forall|k2: Seq<char>| k2 != k ==> kv_get(kv_set_from(m, k, v, i), k2) == kv_get(m, k2),
    decreases m.len() - i,
{
    if i >= m.len() {
        lemma_push_lookup(m, k, v, 0);
        assert forall|k2: Seq<char>| k2 != k implies kv_get(kv_set_from(m, k, v, i), k2) == kv_get(
            m,
            k2,
        ) by {
            lemma_push_lookup_other(m, k, v, k2, 0);
        }
    } else if m[i].0 == k {
        lemma_update_lookup(m, i, k, v, 0);
        assert forall|k2: Seq<char>| k2 != k implies kv_get(kv_set_from(m, k, v, i), k2) == kv_get(
            m,
            k2,
        ) by {
            lemma_update_lookup_other(m, i, k, v, k2, 0);
        }
    } else {
        lemma_kv_set_get_from(m, k, v, i + 1);
    }
}

/// Which ids the expired-error collection holds.
pub proof fn lemma_expired_ids_iff(nodes: Seq<NodeModel>, cutoff: int, i: int)
    requires
        0 <= i <= nodes.len(),
    ensures
        forall|x: Seq<char>|
            #[trigger] expired_ids_from(nodes, cutoff, i).contains(x) <==> exists|j: int|
                i <= j < nodes.len() && nodes[j].id == x && expired_error(nodes[j], cutoff),
    decreases nodes.len() - i,
{
    if i < nodes.len() {
        lemma_expired_ids_iff(nodes, cutoff, i + 1);
        let rest = expired_ids_from(nodes, cutoff, i + 1);
        let cur = expired_ids_from(nodes, cutoff, i);
        assert forall|x: Seq<char>| #[trigger]
            cur.contains(x) <==> exists|j: int|
                i <= j < nodes.len() && nodes[j].id == x && expired_error(nodes[j], cutoff) by {
            if expired_error(nodes[i], cutoff) {
                assert(cur == seq![nodes[i].id] + rest);
                if cur.contains(x) {
                    let c = choose|c: int| 0 <= c < cur.len() && cur[c] == x;
                    if c == 0 {
                        assert(nodes[i].id == x);
                    } else {
                        assert(rest[c - 1] == x);
                        assert(rest.contains(x));
                    }
                }
                if exists|j: int|
                    i <= j < nodes.len() && nodes[j].id == x && expired_error(nodes[j], cutoff) {
                    let j = choose|j: int|
                        i <= j < nodes.len() && nodes[j].id == x && expired_error(
                            nodes[j],
                            cutoff,
                        );
                    if j == i {
                        assert(cur[0] == x);
                    } else {
                        assert(rest.contains(x));
                        let c = choose|c: int| 0 <= c < rest.len() && rest[c] == x;
                        assert(cur[c + 1] == x);
                    }
                }
            } else {
                if cur.contains(x) {
                    let c = choose|c: int| 0 <= c < cur.len() && cur[c] == x;
                    assert(rest[c] == x);
                    assert(rest.contains(x));
                }
                if rest.contains(x) {
                    let c = choose|c: int| 0 <= c < rest.len() && rest[c] == x;
                    assert(cur[c] == x);
                }
            }
        }
    }
}

/// Which ids the dead-process collection holds.
pub proof fn lemma_dead_ids_iff(nodes: Seq<NodeModel>, cutoff: int, i: int)
    requires
        0 <= i <= nodes.len(),
    ensures
        forall|x: Seq<char>|
            #[trigger] dead_ids_from(nodes, cutoff, i).contains(x) <==> exists|j: int|
                i <= j < nodes.len() && nodes[j].id == x && dead_process(nodes[j], cutoff),
    decreases nodes.len() - i,
{
    if i < nodes.len() {
        lemma_dead_ids_iff(nodes, cutoff, i + 1);
        let rest = dead_ids_from(nodes, cutoff, i + 1);
        let cur = dead_ids_from(nodes, cutoff, i);
        assert forall|x: Seq<char>| #[trigger]
            cur.contains(x) <==> exists|j: int|
                i <= j < nodes.len() && nodes[j].id == x && dead_process(nodes[j], cutoff) by {
            if dead_process(nodes[i], cutoff) {
                assert(cur == seq![nodes[i].id] + rest);
                if cur.contains(x) {
                    let c = choose|c: int| 0 <= c < cur.len() && cur[c] == x;
                    if c == 0 {
                        assert(nodes[i].id == x);
                    } else {
                        assert(rest[c - 1] == x);
                        assert(rest.contains(x));
                    }
                }
                if exists|j: int|
                    i <= j < nodes.len() && nodes[j].id == x && dead_process(nodes[j], cutoff) {
                    let j = choose|j: int|
                        i <= j < nodes.len() && nodes[j].id == x && dead_process(nodes[j], cutoff);
                    if j == i {
                        assert(cur[0] == x);
                    } else {
                        assert(rest.contains(x));
                        let c = choose|c: int| 0 <= c < rest.len() && rest[c] == x;
                        assert(cur[c + 1] == x);
                    }
                }
            } else {
                if cur.contains(x) {
                    let c = choose|c: int| 0 <= c < cur.len() && cur[c] == x;
                    assert(rest[c] == x);
                    assert(rest.contains(x));
                }
                if rest.contains(x) {
                    let c = choose|c: int| 0 <= c < rest.len() && rest[c] == x;
                    assert(cur[c] == x);
                }
            }
        }
    }
}

/// Which nodes survive the expired-error pass, and that uniqueness of ids
/// survives with them.
pub proof fn lemma_keep_unexpired_facts(nodes: Seq<NodeModel>, cutoff: int, i: int)
    requires
        0 <= i <= nodes.len(),
    ensures
        forall|x: NodeModel|
            #[trigger] keep_unexpired_from(nodes, cutoff, i).contains(x) <==> exists|j: int|
                i <= j < nodes.len() && nodes[j] == x && !expired_error(nodes[j], cutoff),
        unique_ids(nodes) ==> unique_ids(keep_unexpired_from(nodes, cutoff, i)),
    decreases nodes.len() - i,
{
    if i < nodes.len() {
        lemma_keep_unexpired_facts(nodes, cutoff, i + 1);
        let rest = keep_unexpired_from(nodes, cutoff, i + 1);
        let cur = keep_unexpired_from(nodes, cutoff, i);
        assert forall|x: NodeModel| #[trigger]
            cur.contains(x) <==> exists|j: int|
                i <= j < nodes.len() && nodes[j] == x && !expired_error(nodes[j], cutoff) by {
            if !expired_error(nodes[i], cutoff) {
                assert(cur == seq![nodes[i]] + rest);
                if cur.contains(x) {
                    let c = choose|c: int| 0 <= c < cur.len() && cur[c] == x;
                    if c == 0 {
                        assert(nodes[i] == x);
                    } else {
                        assert(rest[c - 1] == x);
                        assert(rest.contains(x));
                    }
                }
                if exists|j: int|
                    i <= j < nodes.len() && nodes[j] == x && !expired_error(nodes[j], cutoff) {
                    let j = choose|j: int|
                        i <= j < nodes.len() && nodes[j] == x && !expired_error(nodes[j], cutoff);
                    if j == i {
                        assert(cur[0] == x);
                    } else {
                        assert(rest.contains(x));
                        let c = choose|c: int| 0 <= c < rest.len() && rest[c] == x;
                        assert(cur[c + 1] == x);
                    }
                }
            } else {
                if cur.contains(x) {
                    let c = choose|c: int| 0 <= c < cur.len() && cur[c] == x;
                    assert(rest[c] == x);
                    assert(rest.contains(x));
                }
                if rest.contains(x) {
                    let c = choose|c: int| 0 <= c < rest.len() && rest[c] == x;
                    assert(cur[c] == x);
                }
            }
        }
        if unique_ids(nodes) {
            if !expired_error(nodes[i], cutoff) {
                assert(cur == seq![nodes[i]] + rest);
                assert forall|a: int, b: int| 0 <= a < b < cur.len() implies cur[a].id
                    != cur[b].id by {
                    if a == 0 {
                        assert(rest.contains(rest[b - 1]));
                        let j = choose|j: int|
                            i + 1 <= j < nodes.len() && nodes[j] == rest[b - 1] && !expired_error(
                                nodes[j],
                                cutoff,
                            );
                        assert(nodes[i].id != nodes[j].id);
                    } else {
                        assert(rest[a - 1].id != rest[b - 1].id);
                    }
                }
            }
        }
    }
}

/// Which nodes survive the dead-process pass, and that uniqueness of ids
/// survives with them.
pub proof fn lemma_keep_alive_facts(nodes: Seq<NodeModel>, cutoff: int, i: int)
    requires
        0 <= i <= nodes.len(),
    ensures
        forall|x: NodeModel|
            #[trigger] keep_alive_from(nodes, cutoff, i).contains(x) <==> exists|j: int|
                i <= j < nodes.len() && nodes[j] == x && !dead_process(nodes[j], cutoff),
        unique_ids(nodes) ==> unique_ids(keep_alive_from(nodes, cutoff, i)),
    decreases nodes.len() - i,
{
    if i < nodes.len() {
        lemma_keep_alive_facts(nodes, cutoff, i + 1);
        let rest = keep_alive_from(nodes, cutoff, i + 1);
        let cur = keep_alive_from(nodes, cutoff, i);
        assert forall|x: NodeModel| #[trigger]
            cur.contains(x) <==> exists|j: int|
                i <= j < nodes.len() && nodes[j] == x && !dead_process(nodes[j], cutoff) by {
            if !dead_process(nodes[i], cutoff) {
                assert(cur == seq![nodes[i]] + rest);
                if cur.contains(x) {
                    let c = choose|c: int| 0 <= c < cur.len() && cur[c] == x;
                    if c == 0 {
                        assert(nodes[i] == x);
                    } else {
                        assert(rest[c - 1] == x);
                        assert(rest.contains(x));
                    }
                }
                if exists|j: int|
                    i <= j < nodes.len() && nodes[j] == x && !dead_process(nodes[j], cutoff) {
                    let j = choose|j: int|
                        i <= j < nodes.len() && nodes[j] == x && !dead_process(nodes[j], cutoff);
                    if j == i {
                        assert(cur[0] == x);
                    } else {
                        assert(rest.contains(x));
                        let c = choose|c: int| 0 <= c < rest.len() && rest[c] == x;
                        assert(cur[c + 1] == x);
                    }
                }
            } else {
                if cur.contains(x) {
                    let c = choose|c: int| 0 <= c < cur.len() && cur[c] == x;
                    assert(rest[c] == x);
                    assert(rest.contains(x));
                }
                if rest.contains(x) {
                    let c = choose|c: int| 0 <= c < rest.len() && rest[c] == x;
                    assert(cur[c] == x);
                }
            }
        }
        if unique_ids(nodes) {
            if !dead_process(nodes[i], cutoff) {
                assert(cur == seq![nodes[i]] + rest);
                assert forall|a: int, b: int| 0 <= a < b < cur.len() implies cur[a].id
                    != cur[b].id by {
                    if a == 0 {
                        assert(rest.contains(rest[b - 1]));
                        let j = choose|j: int|
                            i + 1 <= j < nodes.len() && nodes[j] == rest[b - 1] && !dead_process(
                                nodes[j],
                                cutoff,
                            );
                        assert(nodes[i].id != nodes[j].id);
                    } else {
                        assert(rest[a - 1].id != rest[b - 1].id);
                    }
                }
            }
        }
    }
}

/// Which edges survive an id-based removal pass, and that de-duplication
/// survives with them.
pub proof fn lemma_keep_edges_facts(edges: Seq<EdgeModel>, ids: Seq<Seq<char>>, i: int)
    requires
        0 <= i <= edges.len(),
    ensures
        forall|x: EdgeModel|
            #[trigger] keep_edges_not_ref(edges, ids, i).contains(x) <==> exists|j: int|
                i <= j < edges.len() && edges[j] == x && !ids.contains(edges[j].from)
                    && !ids.contains(edges[j].to),
        edges_nodup(edges) ==> edges_nodup(keep_edges_not_ref(edges, ids, i)),
    decreases edges.len() - i,
{
    if i < edges.len() {
        lemma_keep_edges_facts(edges, ids, i + 1);
        let rest = keep_edges_not_ref(edges, ids, i + 1);
        let cur = keep_edges_not_ref(edges, ids, i);
        let keep_head = !ids.contains(edges[i].from) && !ids.contains(edges[i].to);
        assert forall|x: EdgeModel| #[trigger]
            cur.contains(x) <==> exists|j: int|
                i <= j < edges.len() && edges[j] == x && !ids.contains(edges[j].from)
                    && !ids.contains(edges[j].to) by {
            if keep_head {
                assert(cur == seq![edges[i]] + rest);
                if cur.contains(x) {
                    let c = choose|c: int| 0 <= c < cur.len() && cur[c] == x;
                    if c == 0 {
                        assert(edges[i] == x);
                    } else {
                        assert(rest[c - 1] == x);
                        assert(rest.contains(x));
                    }
                }
                if exists|j: int|
                    i <= j < edges.len() && edges[j] == x && !ids.contains(edges[j].from)
                        && !ids.contains(edges[j].to) {
                    let j = choose|j: int|
                        i <= j < edges.len() && edges[j] == x && !ids.contains(edges[j].from)
                            && !ids.contains(edges[j].to);
                    if j == i {
                        assert(cur[0] == x);
                    } else {
                        assert(rest.contains(x));
                        let c = choose|c: int| 0 <= c < rest.len() && rest[c] == x;
                        assert(cur[c + 1] == x);
                    }
                }
            } else {
                if cur.contains(x) {
                    let c = choose|c: int| 0 <= c < cur.len() && cur[c] == x;
                    assert(rest[c] == x);
                    assert(rest.contains(x));
                }
                if rest.contains(x) {
                    let c = choose|c: int| 0 <= c < rest.len() && rest[c] == x;
                    assert(cur[c] == x);
                }
            }
        }
        if edges_nodup(edges) && keep_head {
            assert(cur == seq![edges[i]] + rest);
            assert forall|a: int, b: int| 0 <= a < b < cur.len() implies !(cur[a].edge_type
                == cur[b].edge_type && cur[a].from == cur[b].from && cur[a].to == cur[b].to) by {
                if a == 0 {
                    assert(rest.contains(rest[b - 1]));
                    let j = choose|j: int|
                        i + 1 <= j < edges.len() && edges[j] == rest[b - 1] && !ids.contains(
                            edges[j].from,
                        ) && !ids.contains(edges[j].to);
                    assert(!(edges[i].edge_type == edges[j].edge_type && edges[i].from
                        == edges[j].from && edges[i].to == edges[j].to));
                } else {
                    assert(!(rest[a - 1].edge_type == rest[b - 1].edge_type && rest[a - 1].from
                        == rest[b - 1].from && rest[a - 1].to == rest[b - 1].to));
                }
            }
        }
    }
}

/// Replacing a node in place or appending a fresh id keeps ids unique and
/// loses no node.
proof fn lemma_put_node_wf(nodes: Seq<NodeModel>, node: NodeModel)
    requires
        unique_ids(nodes),
    ensures
        unique_ids(spec_put_node(nodes, node)),
        forall|id: Seq<char>|
            #[trigger] has_node(nodes, id) ==> has_node(spec_put_node(nodes, node), id),
        has_node(spec_put_node(nodes, node), node.id),
    decreases 0int,
{
    let r = spec_put_node(nodes, node);
    let i = find_node(nodes, node.id);
    lemma_find_from(nodes, node.id, 0);
    if i < 0 {
        assert forall|a: int, b: int| 0 <= a < b < r.len() implies r[a].id != r[b].id by {
            if b == r.len() - 1 {
                assert(nodes[a].id != node.id);
            }
        }
    }
    assert forall|id: Seq<char>| #[trigger] has_node(nodes, id) implies has_node(r, id) by {
        lemma_has_node_iff(nodes, id);
        lemma_has_node_iff(r, id);
        let j = choose|j: int| 0 <= j < nodes.len() && nodes[j].id == id;
        if i >= 0 && j == i {
            assert(r[i].id == id);
        } else {
            assert(r[j].id == id);
        }
    }
    lemma_has_node_iff(r, node.id);
    if i >= 0 {
        assert(r[i].id == node.id);
    } else {
        assert(r[nodes.len() as int].id == node.id);
    }
}

/// Appending a missing node keeps ids unique and loses no node.
proof fn lemma_ensure_node_wf(
    nodes: Seq<NodeModel>,
    id: Seq<char>,
    kind: NodeType,
    ts: u64,
    md: Seq<(Seq<char>, Seq<char>)>,
)
    requires
        unique_ids(nodes),
    ensures
        unique_ids(spec_ensure_node(nodes, id, kind, ts, md)),
        forall|id2: Seq<char>|
            #[trigger] has_node(nodes, id2) ==> has_node(spec_ensure_node(nodes, id, kind, ts, md), id2),
        has_node(spec_ensure_node(nodes, id, kind, ts, md), id),
{
    let r = spec_ensure_node(nodes, id, kind, ts, md);
    lemma_find_from(nodes, id, 0);
    if !has_node(nodes, id) {
        assert forall|a: int, b: int| 0 <= a < b < r.len() implies r[a].id != r[b].id by {
            if b == r.len() - 1 {
                assert(nodes[a].id != id);
            }
        }
    }
    assert forall|id2: Seq<char>| #[trigger] has_node(nodes, id2) implies has_node(r, id2) by {
        lemma_has_node_iff(nodes, id2);
        lemma_has_node_iff(r, id2);
        let j = choose|j: int| 0 <= j < nodes.len() && nodes[j].id == id2;
        assert(r[j].id == id2);
    }
    lemma_has_node_iff(r, id);
    if !has_node(nodes, id) {
        assert(r[nodes.len() as int].id == id);
    } else {
        lemma_has_node_iff(nodes, id);
        let j = choose|j: int| 0 <= j < nodes.len() && nodes[j].id == id;
        assert(r[j].id == id);
    }
}

/// Refreshing an attribute keeps ids unique and loses no node.
proof fn lemma_upsert_attr_wf(
    nodes: Seq<NodeModel>,
    id: Seq<char>,
    kind: NodeType,
    key: Seq<char>,
    val: Seq<char>,
    ts: u64,
)
    requires
        unique_ids(nodes),
    ensures
        unique_ids(spec_upsert_attr(nodes, id, kind, key, val, ts)),
        forall|id2: Seq<char>|
            #[trigger] has_node(nodes, id2) ==> has_node(
                spec_upsert_attr(nodes, id, kind, key, val, ts),
                id2,
            ),
        has_node(spec_upsert_attr(nodes, id, kind, key, val, ts), id),
{
    let r = spec_upsert_attr(nodes, id, kind, key, val, ts);
    let i = find_node(nodes, id);
    lemma_find_from(nodes, id, 0);
    if i < 0 {
        assert forall|a: int, b: int| 0 <= a < b < r.len() implies r[a].id != r[b].id by {
            if b == r.len() - 1 {
                assert(nodes[a].id != id);
            }
        }
    }
    assert forall|id2: Seq<char>| #[trigger] has_node(nodes, id2) implies has_node(r, id2) by {
        lemma_has_node_iff(nodes, id2);
        lemma_has_node_iff(r, id2);
        let j = choose|j: int| 0 <= j < nodes.len() && nodes[j].id == id2;
        if i >= 0 && j == i {
            assert(r[i].id == id2);
        } else {
            assert(r[j].id == id2);
        }
    }
    lemma_has_node_iff(r, id);
    if i >= 0 {
        assert(r[i].id == id);
    } else {
        assert(r[nodes.len() as int].id == id);
    }
}

/// The expiry pass preserves the graph invariant, and only removes things.
pub proof fn lemma_cleanup_wf(g: GraphModel, now: u64)
    requires
        wf_graph(g),
    ensures
        wf_graph(spec_cleanup(g, now)),
        forall|x: NodeModel|
            #[trigger] spec_cleanup(g, now).nodes.contains(x) ==> g.nodes.contains(x),
        forall|x: EdgeModel|
            #[trigger] spec_cleanup(g, now).edges.contains(x) ==> g.edges.contains(x),
        spec_cleanup(g, now).error_window_ms == g.error_window_ms,
{
    let ecut = cutoff_at(now, g.error_window_ms);
    let eids = expired_ids_from(g.nodes, ecut, 0);
    let nodes1 = keep_unexpired_from(g.nodes, ecut, 0);
    let edges1 = keep_edges_not_ref(g.edges, eids, 0);
    let pcut = cutoff_at(now, 600000);
    let dids = dead_ids_from(nodes1, pcut, 0);
    let nodes2 = keep_alive_from(nodes1, pcut, 0);
    let edges2 = keep_edges_not_ref(edges1, dids, 0);
    lemma_expired_ids_iff(g.nodes, ecut, 0);
    lemma_keep_unexpired_facts(g.nodes, ecut, 0);
    lemma_keep_edges_facts(g.edges, eids, 0);
    lemma_dead_ids_iff(nodes1, pcut, 0);
    lemma_keep_alive_facts(nodes1, pcut, 0);
    lemma_keep_edges_facts(edges1, dids, 0);
    assert forall|x: NodeModel| #[trigger] nodes2.contains(x) implies g.nodes.contains(x) by {
        assert(nodes1.contains(x));
        let j = choose|j: int|
            0 <= j < g.nodes.len() && g.nodes[j] == x && !expired_error(g.nodes[j], ecut);
        assert(g.nodes.contains(x));
    }
    assert forall|x: EdgeModel| #[trigger] edges2.contains(x) implies g.edges.contains(x) by {
        assert(edges1.contains(x));
        let j = choose|j: int|
            0 <= j < g.edges.len() && g.edges[j] == x && !eids.contains(g.edges[j].from)
                && !eids.contains(g.edges[j].to);
        assert(g.edges.contains(x));
    }
    assert forall|c: int|
        0 <= c < edges2.len() implies has_node(nodes2, #[trigger] edges2[c].from) && has_node(
        nodes2,
        edges2[c].to,
    ) by {
        let x = edges2[c];
        assert(edges2.contains(x));
        let j1 = choose|j: int|
            0 <= j < edges1.len() && edges1[j] == x && !dids.contains(edges1[j].from)
                && !dids.contains(edges1[j].to);
        assert(edges1.contains(x));
        let j0 = choose|j: int|
            0 <= j < g.edges.len() && g.edges[j] == x && !eids.contains(g.edges[j].from)
                && !eids.contains(g.edges[j].to);
        assert(has_node(g.nodes, x.from) && has_node(g.nodes, x.to));
        lemma_cleanup_endpoint_kept(g, now, x.from);
        lemma_cleanup_endpoint_kept(g, now, x.to);
    }
}

/// A node whose id no removal list names survives the expiry pass.
proof fn lemma_cleanup_endpoint_kept(g: GraphModel, now: u64, id: Seq<char>)
    requires
        unique_ids(g.nodes),
        has_node(g.nodes, id),
        !expired_ids_from(g.nodes, cutoff_at(now, g.error_window_ms), 0).contains(id),
        !dead_ids_from(
            keep_unexpired_from(g.nodes, cutoff_at(now, g.error_window_ms), 0),
            cutoff_at(now, 600000),
            0,
        ).contains(id),
    ensures
        has_node(spec_cleanup(g, now).nodes, id),
{
    let ecut = cutoff_at(now, g.error_window_ms);
    let eids = expired_ids_from(g.nodes, ecut, 0);
    let nodes1 = keep_unexpired_from(g.nodes, ecut, 0);
    let pcut = cutoff_at(now, 600000);
    let dids = dead_ids_from(nodes1, pcut, 0);
    let nodes2 = keep_alive_from(nodes1, pcut, 0);
    lemma_expired_ids_iff(g.nodes, ecut, 0);
    lemma_keep_unexpired_facts(g.nodes, ecut, 0);
    lemma_dead_ids_iff(nodes1, pcut, 0);
    lemma_keep_alive_facts(nodes1, pcut, 0);
    lemma_has_node_iff(g.nodes, id);
    let j = choose|j: int| 0 <= j < g.nodes.len() && g.nodes[j].id == id;
    let x = g.nodes[j];
    assert(!expired_error(x, ecut));
    assert(nodes1.contains(x));
    if dead_process(x, pcut) {
        let c = choose|c: int| 0 <= c < nodes1.len() && nodes1[c] == x;
        assert(dids.contains(id));
    }
    assert(nodes2.contains(x));
    let c2 = choose|c: int| 0 <= c < nodes2.len() && nodes2[c] == x;
    lemma_has_node_iff(nodes2, id);
}

/// Dispatch preserves the graph invariant and never removes a node.
pub proof fn lemma_dispatch_wf(g: GraphModel, e: EventModel)
    requires
        wf_graph(g),
    ensures
        wf_graph(spec_dispatch(g, e)),
        forall|id: Seq<char>|
            #[trigger] has_node(g.nodes, id) ==> has_node(spec_dispatch(g, e).nodes, id),
        spec_dispatch(g, e).error_window_ms == g.error_window_ms,
{
    let r = spec_dispatch(g, e);
    match e.event_type {
        EventType::ProcessState => {
            match e.pid {
                None => {},
                Some(p) => {
                    let id = pid_node_id(e.node_id, p);
                    if e.value == "start"@ {
                        lemma_put_node_wf(
                            g.nodes,
                            NodeModel {
                                id,
                                node_type: NodeType::Process,
                                last_update: e.ts,
                                metadata: start_metadata(e),
                            },
                        );
                    } else if e.value == "exit"@ || e.value == "zombie"@ {
                        let i = find_node(g.nodes, id);
                        lemma_find_from(g.nodes, id, 0);
                        if i >= 0 {
                            assert forall|id2: Seq<char>| #[trigger]
                                has_node(g.nodes, id2) implies has_node(r.nodes, id2) by {
                                lemma_has_node_iff(g.nodes, id2);
                                lemma_has_node_iff(r.nodes, id2);
                                let j = choose|j: int|
                                    0 <= j < g.nodes.len() && g.nodes[j].id == id2;
                                assert(r.nodes[j].id == id2);
                            }
                        }
                    }
                },
            }
        },
        EventType::ComputeUtil | EventType::ComputeMem | EventType::TransportBw
            | EventType::TransportDrop | EventType::StorageIops | EventType::StorageQDepth => {
            let ent = entity_node_id(e);
            let key = metric_key(e.event_type);
            let nodes1 = spec_upsert_attr(g.nodes, ent, NodeType::Resource, key, e.value, e.ts);
            lemma_upsert_attr_wf(g.nodes, ent, NodeType::Resource, key, e.value, e.ts);
            match e.pid {
                None => {},
                Some(p) => {
                    let pid_id = pid_node_id(e.node_id, p);
                    let nodes2 = spec_ensure_node(nodes1, pid_id, NodeType::Process, e.ts, Seq::empty());
                    lemma_ensure_node_wf(nodes1, pid_id, NodeType::Process, e.ts, Seq::empty());
                    let edges1 = spec_add_edge(g.edges, EdgeType::Consumes, pid_id, ent, e.ts);
                    lemma_add_edge_facts(g.edges, EdgeType::Consumes, pid_id, ent, e.ts);
                    if wants_waits_on(e) {
                        lemma_add_edge_facts(edges1, EdgeType::WaitsOn, pid_id, ent, e.ts);
                    }
                    assert forall|i: int|
                        0 <= i < r.edges.len() implies has_node(r.nodes, #[trigger] r.edges[i].from)
                        && has_node(r.nodes, r.edges[i].to) by {
                        if i < g.edges.len() {
                            assert(r.edges[i] == g.edges[i]);
                        }
                    }
                },
            }
        },
        EventType::ErrorHw | EventType::ErrorNet | EventType::TopoLinkDown => {
            let ent = entity_node_id(e);
            let err = error_node_id(e);
            let md = seq![("error_type"@, e.value)];
            let froms = consumers_of(g.edges, ent);
            lemma_ensure_node_wf(g.nodes, err, NodeType::Error, e.ts, md);
            lemma_add_blocked_facts(g.edges, froms, err, e.ts, 0);
            lemma_consumers_iff(g.edges, ent, 0);
            assert forall|i: int|
                0 <= i < r.edges.len() implies has_node(r.nodes, #[trigger] r.edges[i].from)
                && has_node(r.nodes, r.edges[i].to) by {
                if i < g.edges.len() {
                    assert(r.edges[i] == g.edges[i]);
                } else {
                    let p = r.edges[i].from;
                    assert(froms.contains(p));
                    let j = choose|j: int|
                        0 <= j < g.edges.len() && g.edges[j].edge_type == EdgeType::Consumes
                            && g.edges[j].to == ent && g.edges[j].from == p;
                    assert(has_node(g.nodes, p));
                    assert(r.edges[i].to == err);
                }
            }
        },
        EventType::IntentRun | EventType::ActionExec => {},
    }
}

/// One ingest step preserves the graph invariant.
pub proof fn lemma_ingest_wf(g: GraphModel, e: EventModel)
    requires
        wf_graph(g),
    ensures
        wf_graph(spec_ingest(g, e)),
{
    lemma_dispatch_wf(g, e);
    lemma_cleanup_wf(spec_dispatch(g, e), e.ts);
}

/// The graph after ingesting a whole sequence of events, in order.
pub open spec fn spec_ingest_all(g: GraphModel, es: Seq<EventModel>) -> GraphModel
    decreases es.len(),
{
    if es.len() == 0 {
        g
    } else {
        spec_ingest_all(spec_ingest(g, es[0]), es.drop_first())
    }
}

/// For every sequence of events ingested into a well-formed graph — the
/// empty graph of `StateGraph::new` in particular — the result carries no
/// duplicate `(kind, from, to)` edge, and stays well-formed throughout.
pub proof fn lemma_ingest_all_no_dup(g: GraphModel, es: Seq<EventModel>)
    requires
        wf_graph(g),
    ensures
        wf_graph(spec_ingest_all(g, es)),
        edges_nodup(spec_ingest_all(g, es).edges),
    decreases es.len(),
{
    if es.len() > 0 {
        lemma_ingest_wf(g, es[0]);
        lemma_ingest_all_no_dup(spec_ingest(g, es[0]), es.drop_first());
    }
}

/// The empty graph is well-formed.
pub proof fn lemma_empty_graph_wf(g: GraphModel)
    requires
        g.nodes == Seq::<NodeModel>::empty(),
        g.edges == Seq::<EdgeModel>::empty(),
    ensures
        wf_graph(g),
{
}

/// An error event draws `BlockedBy` edges into the new error node from
/// exactly the processes consuming the entity — no more, and, beyond
/// whatever such edges already existed, no fewer.  The expiry pass that
/// follows in `spec_ingest` removes such an edge only together with its
/// process or the error node itself.
pub proof fn lemma_error_fanout(g: GraphModel, e: EventModel)
    requires
        wf_graph(g),
        e.event_type == EventType::ErrorHw || e.event_type == EventType::ErrorNet
            || e.event_type == EventType::TopoLinkDown,
    ensures
        forall|p: Seq<char>|
            #[trigger] edge_exists(
                spec_error_event(g, e).edges,
                EdgeType::BlockedBy,
                p,
                error_node_id(e),
            ) <==> (edge_exists(g.edges, EdgeType::Consumes, p, entity_node_id(e)) || edge_exists(
                g.edges,
                EdgeType::BlockedBy,
                p,
                error_node_id(e),
            )),
{
    let ent = entity_node_id(e);
    let err = error_node_id(e);
    let froms = consumers_of(g.edges, ent);
    lemma_add_blocked_facts(g.edges, froms, err, e.ts, 0);
    lemma_consumers_iff(g.edges, ent, 0);
    assert forall|p: Seq<char>| #[trigger]
        edge_exists(spec_error_event(g, e).edges, EdgeType::BlockedBy, p, err) <==> (edge_exists(
            g.edges,
            EdgeType::Consumes,
            p,
            ent,
        ) || edge_exists(g.edges, EdgeType::BlockedBy, p, err)) by {
        lemma_edge_exists_from(g.edges, EdgeType::Consumes, p, ent, 0);
        if edge_exists(g.edges, EdgeType::Consumes, p, ent) {
            let j = choose|j: int|
                0 <= j < g.edges.len() && edge_matches(g.edges[j], EdgeType::Consumes, p, ent);
            assert(froms.contains(p));
            let idx = choose|idx: int| 0 <= idx < froms.len() && froms[idx] == p;
        }
        if exists|idx: int| 0 <= idx < froms.len() && froms[idx] == p {
            let idx = choose|idx: int| 0 <= idx < froms.len() && froms[idx] == p;
            assert(froms.contains(p));
            let j = choose|j: int|
                0 <= j < g.edges.len() && g.edges[j].edge_type == EdgeType::Consumes
                    && g.edges[j].to == ent && g.edges[j].from == p;
            assert(edge_matches(g.edges[j], EdgeType::Consumes, p, ent));
        }
    }
}

/// The fan-out law carried through the whole ingest step: on a graph
/// with no removals pending at the event's clock — the state any prior
/// ingest at that clock leaves — the expiry pass removes nothing, so
/// immediately after ingesting the error event the `BlockedBy` edges
/// into the new error node are exactly the consumers (plus whatever such
/// edges already existed).
pub proof fn lemma_error_fanout_ingest(g: GraphModel, e: EventModel)
    requires
        wf_graph(g),
        clean_at(g, e.ts),
        e.event_type == EventType::ErrorHw || e.event_type == EventType::ErrorNet
            || e.event_type == EventType::TopoLinkDown,
    ensures
        forall|p: Seq<char>|
            #[trigger] edge_exists(
                spec_ingest(g, e).edges,
                EdgeType::BlockedBy,
                p,
                error_node_id(e),
            ) <==> (edge_exists(g.edges, EdgeType::Consumes, p, entity_node_id(e)) || edge_exists(
                g.edges,
                EdgeType::BlockedBy,
                p,
                error_node_id(e),
            )),
{
    lemma_error_fanout(g, e);
    lemma_dispatch_clean(g, e);
    lemma_cleanup_identity(spec_dispatch(g, e), e.ts);
    assert(spec_ingest(g, e) == spec_error_event(g, e));
}

/// After a `process.state` event reporting `exit` or `zombie` for a pid,
/// no edge of the ingested graph references that process node.
pub proof fn lemma_exit_removes_references(g: GraphModel, e: EventModel, p: u32)
    requires
        wf_graph(g),
        e.event_type == EventType::ProcessState,
        e.pid == Some(p),
        e.value == "exit"@ || e.value == "zombie"@,
        has_node(g.nodes, pid_node_id(e.node_id, p)) ==> g.nodes[find_node(
            g.nodes,
            pid_node_id(e.node_id, p),
        )].node_type == NodeType::Process,
    ensures
        forall|j: int|
            0 <= j < spec_ingest(g, e).edges.len() ==> (#[trigger] spec_ingest(g, e).edges[j]).from
                != pid_node_id(e.node_id, p) && spec_ingest(g, e).edges[j].to != pid_node_id(
                e.node_id,
                p,
            ),
{
    let id = pid_node_id(e.node_id, p);
    let g1 = spec_process_state(g, e);
    assert(e.value != "start"@) by {
        reveal_strlit("start");
        reveal_strlit("exit");
        reveal_strlit("zombie");
        assert("start"@.len() == 5);
        if e.value == "exit"@ {
            assert(e.value.len() == 4);
        } else {
            assert(e.value.len() == 6);
        }
    }
    assert(g1 == spec_dispatch(g, e));
    let i = find_node(g.nodes, id);
    lemma_find_from(g.nodes, id, 0);
    let ecut = cutoff_at(e.ts, g1.error_window_ms);
    let eids = expired_ids_from(g1.nodes, ecut, 0);
    let nodes1 = keep_unexpired_from(g1.nodes, ecut, 0);
    let edges1 = keep_edges_not_ref(g1.edges, eids, 0);
    let pcut = cutoff_at(e.ts, 600000);
    let dids = dead_ids_from(nodes1, pcut, 0);
    let edges2 = keep_edges_not_ref(edges1, dids, 0);
    lemma_keep_edges_facts(g1.edges, eids, 0);
    lemma_keep_edges_facts(edges1, dids, 0);
    if i < 0 {
        // No such node, hence no edge touching the id existed or appears.
        assert(g1.edges == g.edges);
        assert forall|j: int|
            0 <= j < edges2.len() implies (#[trigger] edges2[j]).from != id && edges2[j].to
            != id by {
            let x = edges2[j];
            assert(edges2.contains(x));
            let j1 = choose|c: int|
                0 <= c < edges1.len() && edges1[c] == x && !dids.contains(edges1[c].from)
                    && !dids.contains(edges1[c].to);
            assert(edges1.contains(x));
            let j0 = choose|c: int|
                0 <= c < g.edges.len() && g.edges[c] == x && !eids.contains(g.edges[c].from)
                    && !eids.contains(g.edges[c].to);
            if x.from == id || x.to == id {
                assert(has_node(g.nodes, id));
            }
        }
    } else {
        // The node is marked dead and leaves with all incident edges.
        let marked = NodeModel {
            id,
            node_type: g.nodes[i].node_type,
            last_update: e.ts,
            metadata: kv_set(g.nodes[i].metadata, "state"@, e.value),
        };
        assert(g1.nodes == g.nodes.update(i, marked));
        lemma_kv_set_get(g.nodes[i].metadata, "state"@, e.value);
        assert(kv_get(marked.metadata, "state"@) == Some(e.value));
        assert(marked.node_type == NodeType::Process);
        lemma_keep_unexpired_facts(g1.nodes, ecut, 0);
        lemma_dead_ids_iff(nodes1, pcut, 0);
        lemma_expired_ids_iff(g1.nodes, ecut, 0);
        assert forall|j: int|
            0 <= j < edges2.len() implies (#[trigger] edges2[j]).from != id && edges2[j].to
            != id by {
            let x = edges2[j];
            assert(edges2.contains(x));
            let j1 = choose|c: int|
                0 <= c < edges1.len() && edges1[c] == x && !dids.contains(edges1[c].from)
                    && !dids.contains(edges1[c].to);
            assert(edges1.contains(x));
            let j0 = choose|c: int|
                0 <= c < g1.edges.len() && g1.edges[c] == x && !eids.contains(g1.edges[c].from)
                    && !eids.contains(g1.edges[c].to);
            if x.from == id || x.to == id {
                // The marked process is dead, so its id is on the second
                // removal list, and the edge could not have been kept.
                assert(!expired_error(marked, ecut));
                assert(0 <= i < g1.nodes.len());
                assert(g1.nodes[i] == marked);
                assert(nodes1.contains(marked));
                let c = choose|c: int| 0 <= c < nodes1.len() && nodes1[c] == marked;
                assert(dead_process(marked, pcut));
                assert(dids.contains(id));
            }
        }
    }
}

/// No node of `g` is due for removal at `now`: no expired error, no dead
/// process.
pub open spec fn clean_at(g: GraphModel, now: u64) -> bool {
    forall|j: int|
        0 <= j < g.nodes.len() ==> !expired_error(
            #[trigger] g.nodes[j],
            cutoff_at(now, g.error_window_ms),
        ) && !dead_process(g.nodes[j], cutoff_at(now, 600000))
}

/// With nothing expired, the id collection is empty.
proof fn lemma_expired_ids_empty(nodes: Seq<NodeModel>, cutoff: int, i: int)
    requires
        0 <= i <= nodes.len(),
        forall|j: int| 0 <= j < nodes.len() ==> !expired_error(#[trigger] nodes[j], cutoff),
    ensures
        expired_ids_from(nodes, cutoff, i) == Seq::<Seq<char>>::empty(),
    decreases nodes.len() - i,
{
    if i < nodes.len() {
        lemma_expired_ids_empty(nodes, cutoff, i + 1);
    }
}

/// With nothing dead, the id collection is empty.
proof fn lemma_dead_ids_empty(nodes: Seq<NodeModel>, cutoff: int, i: int)
    requires
        0 <= i <= nodes.len(),
        forall|j: int| 0 <= j < nodes.len() ==> !dead_process(#[trigger] nodes[j], cutoff),
    ensures
        dead_ids_from(nodes, cutoff, i) == Seq::<Seq<char>>::empty(),
    decreases nodes.len() - i,
{
    if i < nodes.len() {
        lemma_dead_ids_empty(nodes, cutoff, i + 1);
    }
}

/// With nothing expired, the keep pass returns the nodes unchanged.
proof fn lemma_keep_unexpired_identity(nodes: Seq<NodeModel>, cutoff: int, i: int)
    requires
        0 <= i <= nodes.len(),
        forall|j: int| 0 <= j < nodes.len() ==> !expired_error(#[trigger] nodes[j], cutoff),
    ensures
        keep_unexpired_from(nodes, cutoff, i) =~= nodes.skip(i),
    decreases nodes.len() - i,
{
    if i < nodes.len() {
        lemma_keep_unexpired_identity(nodes, cutoff, i + 1);
        assert(keep_unexpired_from(nodes, cutoff, i) =~= seq![nodes[i]] + nodes.skip(i + 1));
    }
}

/// With nothing dead, the keep pass returns the nodes unchanged.
proof fn lemma_keep_alive_identity(nodes: Seq<NodeModel>, cutoff: int, i: int)
    requires
        0 <= i <= nodes.len(),
        forall|j: int| 0 <= j < nodes.len() ==> !dead_process(#[trigger] nodes[j], cutoff),
    ensures
        keep_alive_from(nodes, cutoff, i) =~= nodes.skip(i),
    decreases nodes.len() - i,
{
    if i < nodes.len() {
        lemma_keep_alive_identity(nodes, cutoff, i + 1);
        assert(keep_alive_from(nodes, cutoff, i) =~= seq![nodes[i]] + nodes.skip(i + 1));
    }
}

/// With an empty removal list, the edge pass returns the edges unchanged.
proof fn lemma_keep_edges_identity(edges: Seq<EdgeModel>, ids: Seq<Seq<char>>, i: int)
    requires
        0 <= i <= edges.len(),
        ids == Seq::<Seq<char>>::empty(),
    ensures
        keep_edges_not_ref(edges, ids, i) =~= edges.skip(i),
    decreases edges.len() - i,
{
    if i < edges.len() {
        lemma_keep_edges_identity(edges, ids, i + 1);
        assert(!ids.contains(edges[i].from));
        assert(!ids.contains(edges[i].to));
        assert(keep_edges_not_ref(edges, ids, i) =~= seq![edges[i]] + edges.skip(i + 1));
    }
}

/// On a graph with nothing to remove, the expiry pass changes nothing.
pub proof fn lemma_cleanup_identity(g: GraphModel, now: u64)
    requires
        clean_at(g, now),
    ensures
        spec_cleanup(g, now) == g,
{
    let ecut = cutoff_at(now, g.error_window_ms);
    let pcut = cutoff_at(now, 600000);
    lemma_expired_ids_empty(g.nodes, ecut, 0);
    lemma_keep_unexpired_identity(g.nodes, ecut, 0);
    assert(keep_unexpired_from(g.nodes, ecut, 0) =~= g.nodes);
    lemma_keep_edges_identity(g.edges, expired_ids_from(g.nodes, ecut, 0), 0);
    assert(keep_edges_not_ref(g.edges, expired_ids_from(g.nodes, ecut, 0), 0) =~= g.edges);
    lemma_dead_ids_empty(g.nodes, pcut, 0);
    lemma_keep_alive_identity(g.nodes, pcut, 0);
    assert(keep_alive_from(g.nodes, pcut, 0) =~= g.nodes);
    lemma_keep_edges_identity(g.edges, dead_ids_from(g.nodes, pcut, 0), 0);
    assert(keep_edges_not_ref(g.edges, dead_ids_from(g.nodes, pcut, 0), 0) =~= g.edges);
}

/// What the expiry pass leaves is clean: every survivor is neither an
/// expired error nor a dead process at the same reference time.
pub proof fn lemma_cleanup_output_clean(g: GraphModel, now: u64)
    ensures
        clean_at(spec_cleanup(g, now), now),
{
    let ecut = cutoff_at(now, g.error_window_ms);
    let pcut = cutoff_at(now, 600000);
    let nodes1 = keep_unexpired_from(g.nodes, ecut, 0);
    let nodes2 = keep_alive_from(nodes1, pcut, 0);
    lemma_keep_unexpired_facts(g.nodes, ecut, 0);
    lemma_keep_alive_facts(nodes1, pcut, 0);
    assert forall|j: int|
        0 <= j < nodes2.len() implies !expired_error(#[trigger] nodes2[j], ecut) && !dead_process(
        nodes2[j],
        pcut,
    ) by {
        let x = nodes2[j];
        assert(nodes2.contains(x));
        let c1 = choose|c: int|
            0 <= c < nodes1.len() && nodes1[c] == x && !dead_process(nodes1[c], pcut);
        assert(nodes1.contains(x));
        let c0 = choose|c: int|
            0 <= c < g.nodes.len() && g.nodes[c] == x && !expired_error(g.nodes[c], ecut);
    }
}

/// Running the expiry pass a second time against the same reference
/// clock changes nothing: removal is idempotent.
pub proof fn lemma_cleanup_idempotent(g: GraphModel, now: u64)
    ensures
        spec_cleanup(spec_cleanup(g, now), now) == spec_cleanup(g, now),
{
    lemma_cleanup_output_clean(g, now);
    lemma_cleanup_identity(spec_cleanup(g, now), now);
}

/// The first-hit index of an id is pinned by a witness position with a
/// clear prefix.
proof fn lemma_find_unique_hit(nodes: Seq<NodeModel>, id: Seq<char>, target: int)
    requires
        0 <= target < nodes.len(),
        nodes[target].id == id,
        forall|j: int| 0 <= j < target ==> (#[trigger] nodes[j]).id != id,
    ensures
        find_node(nodes, id) == target,
{
    lemma_find_from(nodes, id, 0);
    let r = find_node(nodes, id);
    if r == -1 {
        assert(nodes[target].id != id);
    } else if r < target {
        assert(nodes[r].id != id);
    } else if r > target {
        assert(nodes[target].id != id);
    }
}

proof fn lemma_kv_set_finds_from(
    m: Seq<(Seq<char>, Seq<char>)>,
    k: Seq<char>,
    v: Seq<char>,
    target: int,
    i: int,
)
    requires
        0 <= i <= target < m.len(),
        m[target].0 == k,
        forall|j: int| 0 <= j < target ==> (#[trigger] m[j]).0 != k,
    ensures
        kv_set_from(m, k, v, i) == m.update(target, (k, v)),
    decreases target - i,
{
    if i < target {
        lemma_kv_set_finds_from(m, k, v, target, i + 1);
    }
}

/// Binding the same key to the same value twice leaves exactly what one
/// binding leaves.
pub proof fn lemma_kv_set_idem(m: Seq<(Seq<char>, Seq<char>)>, k: Seq<char>, v: Seq<char>)
    ensures
        kv_set(kv_set(m, k, v), k, v) == kv_set(m, k, v),
{
    lemma_kv_set_idem_from(m, k, v, 0);
}

proof fn lemma_kv_set_idem_from(m: Seq<(Seq<char>, Seq<char>)>, k: Seq<char>, v: Seq<char>, i: int)
    requires
        0 <= i <= m.len(),
        forall|j: int| 0 <= j < i ==> (#[trigger] m[j]).0 != k,
    ensures
        kv_set(kv_set_from(m, k, v, i), k, v) == kv_set_from(m, k, v, i),
    decreases m.len() - i,
{
    if i >= m.len() {
        let r = m.push((k, v));
        assert(r[m.len() as int].0 == k);
        lemma_kv_set_finds_from(r, k, v, m.len() as int, 0);
        assert(r.update(m.len() as int, (k, v)) =~= r);
    } else if m[i].0 == k {
        let r = m.update(i, (k, v));
        assert(r[i].0 == k);
        assert forall|j: int| 0 <= j < i implies (#[trigger] r[j]).0 != k by {
            assert(r[j] == m[j]);
        }
        lemma_kv_set_finds_from(r, k, v, i, 0);
        assert(r.update(i, (k, v)) =~= r);
    } else {
        lemma_kv_set_idem_from(m, k, v, i + 1);
    }
}

/// A fresh process node starts out running.
proof fn lemma_start_metadata_running(e: EventModel)
    ensures
        kv_get(start_metadata(e), "state"@) == Some("running"@),
{
    let md = start_metadata(e);
    assert("job_id"@ != "state"@) by {
        reveal_strlit("job_id");
        reveal_strlit("state");
        assert("job_id"@.len() == 6);
        assert("state"@.len() == 5);
    }
    match e.job_id {
        Some(jid) => {
            assert(md[0].0 == "job_id"@);
            assert(md[1].0 == "state"@);
            assert(kv_from(md, "state"@, 1) == Some("running"@));
            assert(kv_from(md, "state"@, 0) == kv_from(md, "state"@, 1));
        },
        None => {
            assert(md[0].0 == "state"@);
        },
    }
}

/// A running or freshly stamped node is not removable.
proof fn lemma_fresh_not_removable(n: NodeModel, e: EventModel, g_window: u64)
    requires
        n.last_update == e.ts,
        n.node_type == NodeType::Process ==> kv_get(n.metadata, "state"@) != Some("exit"@)
            && kv_get(n.metadata, "state"@) != Some("zombie"@),
    ensures
        !expired_error(n, cutoff_at(e.ts, g_window)),
        !dead_process(n, cutoff_at(e.ts, 600000)),
{
}

/// Dispatch of anything but an exit or zombie report keeps the graph
/// clean at the event's own timestamp.
proof fn lemma_dispatch_clean(g: GraphModel, e: EventModel)
    requires
        clean_at(g, e.ts),
        !(e.event_type == EventType::ProcessState && e.pid is Some && (e.value == "exit"@
            || e.value == "zombie"@)),
    ensures
        clean_at(spec_dispatch(g, e), e.ts),
{
    let h = spec_dispatch(g, e);
    let ecut = cutoff_at(e.ts, g.error_window_ms);
    let pcut = cutoff_at(e.ts, 600000);
    assert("running"@ != "exit"@ && "running"@ != "zombie"@) by {
        reveal_strlit("running");
        reveal_strlit("exit");
        reveal_strlit("zombie");
        assert("running"@.len() == 7);
        assert("exit"@.len() == 4);
        assert("zombie"@.len() == 6);
    }
    assert("util"@ != "state"@ && "mem"@ != "state"@ && "bw"@ != "state"@ && "drop"@ != "state"@
        && "iops"@ != "state"@ && "qdepth"@ != "state"@) by {
        reveal_strlit("state");
        reveal_strlit("util");
        reveal_strlit("mem");
        reveal_strlit("bw");
        reveal_strlit("drop");
        reveal_strlit("iops");
        reveal_strlit("qdepth");
        assert("state"@.len() == 5);
        assert("util"@.len() == 4);
        assert("mem"@.len() == 3);
        assert("bw"@.len() == 2);
        assert("drop"@.len() == 4);
        assert("iops"@.len() == 4);
        assert("qdepth"@.len() == 6);
    }
    match e.event_type {
        EventType::ProcessState => {
            match e.pid {
                None => {},
                Some(p) => {
                    if e.value == "start"@ {
                        let id = pid_node_id(e.node_id, p);
                        let fresh = NodeModel {
                            id,
                            node_type: NodeType::Process,
                            last_update: e.ts,
                            metadata: start_metadata(e),
                        };
                        lemma_start_metadata_running(e);
                        lemma_fresh_not_removable(fresh, e, g.error_window_ms);
                        let i = find_node(g.nodes, id);
                        lemma_find_from(g.nodes, id, 0);
                        assert forall|j: int|
                            0 <= j < h.nodes.len() implies !expired_error(
                            #[trigger] h.nodes[j],
                            ecut,
                        ) && !dead_process(h.nodes[j], pcut) by {
                            if i >= 0 && j == i {
                            } else if i < 0 && j == g.nodes.len() {
                            } else {
                                assert(h.nodes[j] == g.nodes[j]);
                            }
                        }
                    }
                },
            }
        },
        EventType::ComputeUtil | EventType::ComputeMem | EventType::TransportBw
            | EventType::TransportDrop | EventType::StorageIops | EventType::StorageQDepth => {
            let ent = entity_node_id(e);
            let key = metric_key(e.event_type);
            let nodes1 = spec_upsert_attr(g.nodes, ent, NodeType::Resource, key, e.value, e.ts);
            let ig = find_node(g.nodes, ent);
            lemma_find_from(g.nodes, ent, 0);
            assert forall|j: int|
                0 <= j < nodes1.len() implies !expired_error(#[trigger] nodes1[j], ecut)
                && !dead_process(nodes1[j], pcut) by {
                if ig >= 0 && j == ig {
                    let old_n = g.nodes[ig];
                    let new_n = nodes1[j];
                    lemma_kv_set_get(old_n.metadata, key, e.value);
                    assert(kv_get(new_n.metadata, "state"@) == kv_get(old_n.metadata, "state"@));
                    assert(!dead_process(old_n, pcut));
                    if new_n.node_type == NodeType::Process {
                        assert(kv_get(new_n.metadata, "state"@) != Some("exit"@));
                        assert(kv_get(new_n.metadata, "state"@) != Some("zombie"@));
                    }
                    lemma_fresh_not_removable(new_n, e, g.error_window_ms);
                } else if ig < 0 && j == g.nodes.len() {
                    lemma_kv_set_get(Seq::empty(), key, e.value);
                    assert(kv_get(nodes1[j].metadata, "state"@) is None) by {
                        lemma_kv_none(nodes1[j].metadata, "state"@, 0);
                    }
                    lemma_fresh_not_removable(nodes1[j], e, g.error_window_ms);
                } else {
                    assert(nodes1[j] == g.nodes[j]);
                }
            }
            match e.pid {
                None => {},
                Some(p) => {
                    let pid_id = pid_node_id(e.node_id, p);
                    let nodes2 = spec_ensure_node(nodes1, pid_id, NodeType::Process, e.ts, Seq::empty());
                    assert forall|j: int|
                        0 <= j < nodes2.len() implies !expired_error(#[trigger] nodes2[j], ecut)
                        && !dead_process(nodes2[j], pcut) by {
                        if j < nodes1.len() {
                            assert(nodes2[j] == nodes1[j]);
                        } else {
                            assert(kv_get(nodes2[j].metadata, "state"@) is None) by {
                                lemma_kv_none(nodes2[j].metadata, "state"@, 0);
                            }
                            lemma_fresh_not_removable(nodes2[j], e, g.error_window_ms);
                        }
                    }
                },
            }
        },
        EventType::ErrorHw | EventType::ErrorNet | EventType::TopoLinkDown => {
            let err = error_node_id(e);
            assert forall|j: int|
                0 <= j < h.nodes.len() implies !expired_error(#[trigger] h.nodes[j], ecut)
                && !dead_process(h.nodes[j], pcut) by {
                if j < g.nodes.len() {
                    assert(h.nodes[j] == g.nodes[j]);
                } else {
                    lemma_fresh_not_removable(h.nodes[j], e, g.error_window_ms);
                }
            }
        },
        EventType::IntentRun | EventType::ActionExec => {},
    }
}

/// Once every listed process is already connected, the fan-out adds
/// nothing.
proof fn lemma_add_blocked_noop(
    edges: Seq<EdgeModel>,
    froms: Seq<Seq<char>>,
    err: Seq<char>,
    ts: u64,
    i: int,
)
    requires
        0 <= i <= froms.len(),
        forall|idx: int|
            i <= idx < froms.len() ==> edge_exists(edges, EdgeType::BlockedBy, #[trigger] froms[idx], err),
    ensures
        add_blocked_from(edges, froms, err, ts, i) == edges,
    decreases froms.len() - i,
{
    if i < froms.len() {
        assert(spec_add_edge(edges, EdgeType::BlockedBy, froms[i], err, ts) == edges);
        lemma_add_blocked_noop(edges, froms, err, ts, i + 1);
    }
}

/// Dispatching the same event a second time changes nothing: every node
/// refresh overwrites identically and every edge is already there.
proof fn lemma_dispatch_idempotent(g: GraphModel, e: EventModel)
    ensures
        spec_dispatch(spec_dispatch(g, e), e) == spec_dispatch(g, e),
{
    let h = spec_dispatch(g, e);
    match e.event_type {
        EventType::ProcessState => {
            match e.pid {
                None => {},
                Some(p) => {
                    let id = pid_node_id(e.node_id, p);
                    let i = find_node(g.nodes, id);
                    lemma_find_from(g.nodes, id, 0);
                    if e.value == "start"@ {
                        let fresh = NodeModel {
                            id,
                            node_type: NodeType::Process,
                            last_update: e.ts,
                            metadata: start_metadata(e),
                        };
                        if i >= 0 {
                            assert(h.nodes == g.nodes.update(i, fresh));
                            assert forall|j: int| 0 <= j < i implies (#[trigger] h.nodes[j]).id
                                != id by {
                                assert(h.nodes[j] == g.nodes[j]);
                            }
                            lemma_find_unique_hit(h.nodes, id, i);
                            assert(h.nodes.update(i, fresh) =~= h.nodes);
                        } else {
                            assert(h.nodes == g.nodes.push(fresh));
                            assert forall|j: int|
                                0 <= j < g.nodes.len() implies (#[trigger] h.nodes[j]).id != id by {
                                assert(h.nodes[j] == g.nodes[j]);
                            }
                            lemma_find_unique_hit(h.nodes, id, g.nodes.len() as int);
                            assert(h.nodes.update(g.nodes.len() as int, fresh) =~= h.nodes);
                        }
                        assert(spec_dispatch(h, e) == h);
                    } else if e.value == "exit"@ || e.value == "zombie"@ {
                        if i >= 0 {
                            let marked = NodeModel {
                                id,
                                node_type: g.nodes[i].node_type,
                                last_update: e.ts,
                                metadata: kv_set(g.nodes[i].metadata, "state"@, e.value),
                            };
                            assert(h.nodes == g.nodes.update(i, marked));
                            assert forall|j: int| 0 <= j < i implies (#[trigger] h.nodes[j]).id
                                != id by {
                                assert(h.nodes[j] == g.nodes[j]);
                            }
                            lemma_find_unique_hit(h.nodes, id, i);
                            lemma_kv_set_idem(g.nodes[i].metadata, "state"@, e.value);
                            assert(h.nodes.update(
                                i,
                                NodeModel {
                                    id,
                                    node_type: h.nodes[i].node_type,
                                    last_update: e.ts,
                                    metadata: kv_set(h.nodes[i].metadata, "state"@, e.value),
                                },
                            ) =~= h.nodes);
                            assert(spec_dispatch(h, e) == h);
                        }
                    }
                },
            }
        },
        EventType::ComputeUtil | EventType::ComputeMem | EventType::TransportBw
            | EventType::TransportDrop | EventType::StorageIops | EventType::StorageQDepth => {
            let ent = entity_node_id(e);
            let key = metric_key(e.event_type);
            let a = spec_upsert_attr(g.nodes, ent, NodeType::Resource, key, e.value, e.ts);
            let ig = find_node(g.nodes, ent);
            lemma_find_from(g.nodes, ent, 0);
            let ia: int = if ig >= 0 {
                ig
            } else {
                g.nodes.len() as int
            };
            assert(a[ia].id == ent);
            assert forall|j: int| 0 <= j < ia implies (#[trigger] a[j]).id != ent by {
                assert(a[j] == g.nodes[j]);
            }
            let b: Seq<NodeModel> = match e.pid {
                None => a,
                Some(p) => spec_ensure_node(a, pid_node_id(e.node_id, p), NodeType::Process, e.ts, Seq::empty()),
            };
            assert(h.nodes == b);
            assert(b[ia] == a[ia]);
            assert forall|j: int| 0 <= j < ia implies (#[trigger] b[j]).id != ent by {
                assert(b[j] == a[j]);
            }
            lemma_find_unique_hit(b, ent, ia);
            // The second refresh of the entity overwrites with the same
            // node.
            let upd2 = NodeModel {
                id: ent,
                node_type: b[ia].node_type,
                last_update: e.ts,
                metadata: kv_set(b[ia].metadata, key, e.value),
            };
            assert(upd2 == b[ia]) by {
                if ig >= 0 {
                    lemma_kv_set_idem(g.nodes[ig].metadata, key, e.value);
                } else {
                    lemma_kv_set_idem(Seq::empty(), key, e.value);
                }
            }
            let a2 = spec_upsert_attr(b, ent, NodeType::Resource, key, e.value, e.ts);
            assert(a2 =~= b) by {
                assert(a2 == b.update(ia, upd2));
                assert(b.update(ia, b[ia]) =~= b);
            }
            match e.pid {
                None => {
                    assert(spec_dispatch(h, e).nodes == a2);
                    assert(spec_dispatch(h, e).edges == h.edges);
                    assert(spec_dispatch(h, e) == h);
                },
                Some(p) => {
                    let pid_id = pid_node_id(e.node_id, p);
                    // The process node exists after the first pass.
                    assert(has_node(b, pid_id)) by {
                        lemma_find_from(a, pid_id, 0);
                        if has_node(a, pid_id) {
                            assert(b == a);
                        } else {
                            assert(b == a.push(
                                NodeModel {
                                    id: pid_id,
                                    node_type: NodeType::Process,
                                    last_update: e.ts,
                                    metadata: Seq::empty(),
                                },
                            ));
                            assert(b[a.len() as int].id == pid_id);
                            lemma_has_node_iff(b, pid_id);
                        }
                    }
                    assert(spec_ensure_node(a2, pid_id, NodeType::Process, e.ts, Seq::empty())
                        == b);
                    // Both edges are already present.
                    let e1 = spec_add_edge(g.edges, EdgeType::Consumes, pid_id, ent, e.ts);
                    lemma_add_edge_facts(g.edges, EdgeType::Consumes, pid_id, ent, e.ts);
                    assert(edge_exists(e1, EdgeType::Consumes, pid_id, ent));
                    if wants_waits_on(e) {
                        lemma_add_edge_facts(e1, EdgeType::WaitsOn, pid_id, ent, e.ts);
                        assert(h.edges == spec_add_edge(e1, EdgeType::WaitsOn, pid_id, ent, e.ts));
                        assert(edge_exists(h.edges, EdgeType::Consumes, pid_id, ent));
                        assert(edge_exists(h.edges, EdgeType::WaitsOn, pid_id, ent));
                    } else {
                        assert(h.edges == e1);
                    }
                    assert(spec_add_edge(h.edges, EdgeType::Consumes, pid_id, ent, e.ts)
                        == h.edges);
                    if wants_waits_on(e) {
                        assert(spec_add_edge(h.edges, EdgeType::WaitsOn, pid_id, ent, e.ts)
                            == h.edges);
                    }
                    assert(spec_dispatch(h, e) == h);
                },
            }
        },
        EventType::ErrorHw | EventType::ErrorNet | EventType::TopoLinkDown => {
            let ent = entity_node_id(e);
            let err = error_node_id(e);
            let froms = consumers_of(g.edges, ent);
            lemma_add_blocked_facts(g.edges, froms, err, e.ts, 0);
            lemma_consumers_iff(g.edges, ent, 0);
            lemma_consumers_iff(h.edges, ent, 0);
            // The error node exists in h, so the second ensure is a no-op.
            let ifound = find_node(g.nodes, err);
            lemma_find_from(g.nodes, err, 0);
            if ifound >= 0 {
                assert(h.nodes == g.nodes);
                assert(has_node(h.nodes, err));
            } else {
                assert(h.nodes[g.nodes.len() as int].id == err);
                lemma_has_node_iff(h.nodes, err);
            }
            assert(spec_ensure_node(h.nodes, err, NodeType::Error, e.ts, seq![("error_type"@, e.value)])
                == h.nodes);
            // Every consumer seen by the second dispatch was already a
            // consumer before it, and its fan-out edge is already present.
            let froms2 = consumers_of(h.edges, ent);
            assert forall|idx: int|
                0 <= idx < froms2.len() implies edge_exists(
                h.edges,
                EdgeType::BlockedBy,
                #[trigger] froms2[idx],
                err,
            ) by {
                let p = froms2[idx];
                assert(froms2.contains(p));
                let j = choose|j: int|
                    0 <= j < h.edges.len() && h.edges[j].edge_type == EdgeType::Consumes
                        && h.edges[j].to == ent && h.edges[j].from == p;
                assert(j < g.edges.len()) by {
                    if j >= g.edges.len() {
                        assert(h.edges[j].edge_type == EdgeType::BlockedBy);
                    }
                }
                assert(g.edges[j] == h.edges[j]);
                assert(froms.contains(p));
                let idx0 = choose|idx0: int| 0 <= idx0 < froms.len() && froms[idx0] == p;
            }
            lemma_add_blocked_noop(h.edges, froms2, err, e.ts, 0);
            assert(spec_dispatch(h, e) == h);
        },
        EventType::IntentRun | EventType::ActionExec => {},
    }
}

/// Ingesting the same event a second time yields exactly the graph the
/// first ingest produced, from any well-formed graph with no removals
/// pending at the event's timestamp — the state any prior ingest at that
/// clock leaves behind.
pub proof fn lemma_ingest_idempotent(g: GraphModel, e: EventModel)
    requires
        wf_graph(g),
        clean_at(g, e.ts),
    ensures
        spec_ingest(spec_ingest(g, e), e) == spec_ingest(g, e),
{
    let h1 = spec_dispatch(g, e);
    let g2 = spec_ingest(g, e);
    if e.event_type == EventType::ProcessState && e.pid is Some && (e.value == "exit"@ || e.value
        == "zombie"@) {
        let p = e.pid->0;
        let id = pid_node_id(e.node_id, p);
        let i = find_node(g.nodes, id);
        lemma_find_from(g.nodes, id, 0);
        lemma_dispatch_wf(g, e);
        assert(e.value != "start"@) by {
            reveal_strlit("start");
            reveal_strlit("exit");
            reveal_strlit("zombie");
            assert("start"@.len() == 5);
            if e.value == "exit"@ {
                assert(e.value.len() == 4);
            } else {
                assert(e.value.len() == 6);
            }
        }
        // If a node under the id survives at all, it is the marked node,
        // and marking it again overwrites identically.
        lemma_find_from(g2.nodes, id, 0);
        let r = find_node(g2.nodes, id);
        if r >= 0 {
            let x = g2.nodes[r];
            assert(x.id == id);
            lemma_cleanup_wf(h1, e.ts);
            assert(g2.nodes.contains(x)) by {
                assert(g2.nodes[r] == x);
            }
            assert(h1.nodes.contains(x));
            let c0 = choose|cc: int| 0 <= cc < h1.nodes.len() && h1.nodes[cc] == x;
            if i >= 0 {
                let marked = NodeModel {
                    id,
                    node_type: g.nodes[i].node_type,
                    last_update: e.ts,
                    metadata: kv_set(g.nodes[i].metadata, "state"@, e.value),
                };
                assert(h1.nodes == g.nodes.update(i, marked));
                if c0 == i {
                    assert(x == marked);
                } else {
                    assert(h1.nodes[c0] == g.nodes[c0]);
                    assert(g.nodes[c0].id != id) by {
                        if c0 < i {
                            assert(g.nodes[c0].id != id);
                        } else {
                            assert(g.nodes[i].id == id);
                        }
                    }
                    assert(false);
                }
                // Re-marking the marked node changes nothing.
                lemma_kv_set_idem(g.nodes[i].metadata, "state"@, e.value);
                assert(spec_dispatch(g2, e).nodes == g2.nodes.update(
                    r,
                    NodeModel {
                        id,
                        node_type: x.node_type,
                        last_update: e.ts,
                        metadata: kv_set(x.metadata, "state"@, e.value),
                    },
                ));
                assert(g2.nodes.update(
                    r,
                    NodeModel {
                        id,
                        node_type: x.node_type,
                        last_update: e.ts,
                        metadata: kv_set(x.metadata, "state"@, e.value),
                    },
                ) =~= g2.nodes);
                assert(spec_dispatch(g2, e) == g2);
            } else {
                assert(h1.nodes == g.nodes);
                assert(g.nodes[c0].id != id);
                assert(false);
            }
        } else {
            assert(spec_dispatch(g2, e) == g2);
        }
        lemma_cleanup_idempotent(h1, e.ts);
    } else {
        lemma_dispatch_clean(g, e);
        lemma_cleanup_identity(h1, e.ts);
        assert(g2 == h1);
        lemma_dispatch_idempotent(g, e);
        assert(spec_dispatch(g2, e) == g2);
        lemma_cleanup_identity(g2, e.ts);
    }
}

/// No error node older than the retention window, measured against the
/// ingested event's timestamp, survives an ingest step.
pub proof fn lemma_error_window(g: GraphModel, e: EventModel)
    ensures
        forall|j: int|
            0 <= j < spec_ingest(g, e).nodes.len() ==> !((#[trigger] spec_ingest(
                g,
                e,
            ).nodes[j]).node_type == NodeType::Error && spec_ingest(g, e).nodes[j].last_update
                < cutoff_at(e.ts, g.error_window_ms)),
{
    let g1 = spec_dispatch(g, e);
    assert(g1.error_window_ms == g.error_window_ms);
    let ecut = cutoff_at(e.ts, g1.error_window_ms);
    let nodes1 = keep_unexpired_from(g1.nodes, ecut, 0);
    let pcut = cutoff_at(e.ts, 600000);
    let nodes2 = keep_alive_from(nodes1, pcut, 0);
    lemma_keep_unexpired_facts(g1.nodes, ecut, 0);
    lemma_keep_alive_facts(nodes1, pcut, 0);
    assert forall|j: int|
        0 <= j < nodes2.len() implies !((#[trigger] nodes2[j]).node_type == NodeType::Error
        && nodes2[j].last_update < ecut) by {
        let x = nodes2[j];
        assert(nodes2.contains(x));
        let c1 = choose|c: int|
            0 <= c < nodes1.len() && nodes1[c] == x && !dead_process(nodes1[c], pcut);
        assert(nodes1.contains(x));
        let c0 = choose|c: int|
            0 <= c < g1.nodes.len() && g1.nodes[c] == x && !expired_error(g1.nodes[c], ecut);
    }
}

/// A `running` process is never removed by silence: whatever event is
/// ingested, the node survives unless that very event reports `exit` or
/// `zombie` for its pid.
pub proof fn lemma_running_kept(g: GraphModel, e: EventModel, j: int)
    requires
        wf_graph(g),
        0 <= j < g.nodes.len(),
        g.nodes[j].node_type == NodeType::Process,
        kv_get(g.nodes[j].metadata, "state"@) == Some("running"@),
        !(e.event_type == EventType::ProcessState && (match e.pid {
            Some(p2) => pid_node_id(e.node_id, p2) == g.nodes[j].id && (e.value == "exit"@
                || e.value == "zombie"@),
            None => false,
        })),
    ensures
        has_node(spec_ingest(g, e).nodes, g.nodes[j].id),
{
    let id = g.nodes[j].id;
    let g1 = spec_dispatch(g, e);
    assert("running"@ != "exit"@ && "running"@ != "zombie"@ && "job_id"@ != "state"@) by {
        reveal_strlit("running");
        reveal_strlit("exit");
        reveal_strlit("zombie");
        reveal_strlit("job_id");
        reveal_strlit("state");
        assert("running"@.len() == 7);
        assert("exit"@.len() == 4);
        assert("zombie"@.len() == 6);
        assert("job_id"@.len() == 6);
        assert("state"@.len() == 5);
        assert("job_id"@[0] == 'j' && "state"@[0] == 's');
        assert("zombie"@[0] == 'z');
    }
    assert("util"@ != "state"@ && "mem"@ != "state"@ && "bw"@ != "state"@ && "drop"@ != "state"@
        && "iops"@ != "state"@ && "qdepth"@ != "state"@) by {
        reveal_strlit("state");
        reveal_strlit("util");
        reveal_strlit("mem");
        reveal_strlit("bw");
        reveal_strlit("drop");
        reveal_strlit("iops");
        reveal_strlit("qdepth");
        assert("state"@.len() == 5);
        assert("util"@.len() == 4);
        assert("mem"@.len() == 3);
        assert("bw"@.len() == 2);
        assert("drop"@.len() == 4);
        assert("iops"@.len() == 4);
        assert("qdepth"@.len() == 6);
    }
    // In the dispatched graph some node still carries this id, is a
    // process, and reads `running`.
    assert(exists|c: int|
        0 <= c < g1.nodes.len() && (#[trigger] g1.nodes[c]).id == id && g1.nodes[c].node_type
            == NodeType::Process && kv_get(g1.nodes[c].metadata, "state"@) == Some(
            "running"@,
        )) by {
        match e.event_type {
            EventType::ProcessState => {
                match e.pid {
                    None => {
                        assert(g1.nodes[j].id == id);
                    },
                    Some(p2) => {
                        let id2 = pid_node_id(e.node_id, p2);
                        if e.value == "start"@ {
                            let fresh = NodeModel {
                                id: id2,
                                node_type: NodeType::Process,
                                last_update: e.ts,
                                metadata: start_metadata(e),
                            };
                            let i = find_node(g.nodes, id2);
                            lemma_find_from(g.nodes, id2, 0);
                            assert(kv_get(fresh.metadata, "state"@) == Some("running"@)) by {
                                match e.job_id {
                                    Some(jid) => {
                                        assert(fresh.metadata == seq![
                                            ("job_id"@, jid),
                                            ("state"@, "running"@),
                                        ]);
                                        assert(fresh.metadata[0].0 == "job_id"@);
                                        assert(fresh.metadata[1].0 == "state"@);
                                        assert(kv_from(fresh.metadata, "state"@, 1) == Some(
                                            "running"@,
                                        ));
                                        assert(kv_from(fresh.metadata, "state"@, 0) == kv_from(
                                            fresh.metadata,
                                            "state"@,
                                            1,
                                        ));
                                    },
                                    None => {
                                        assert(fresh.metadata[0].0 == "state"@);
                                        assert(kv_from(fresh.metadata, "state"@, 0) == Some(
                                            "running"@,
                                        ));
                                    },
                                }
                            }
                            if i >= 0 && g.nodes[i].id == id2 && id2 == id {
                                assert(i == j || g.nodes[i].id != g.nodes[j].id);
                                assert(g1.nodes[i] == fresh);
                            } else if i >= 0 {
                                assert(g1.nodes[j].id == id);
                            } else {
                                assert(g1.nodes[j].id == id);
                            }
                        } else if e.value == "exit"@ || e.value == "zombie"@ {
                            // Not this pid, by the hypothesis.
                            assert(id2 != id);
                            let i = find_node(g.nodes, id2);
                            lemma_find_from(g.nodes, id2, 0);
                            if i >= 0 {
                                assert(g.nodes[i].id == id2);
                                assert(i != j);
                                assert(g1.nodes[j] == g.nodes[j]);
                            }
                            assert(g1.nodes[j].id == id);
                        } else {
                            assert(g1.nodes[j].id == id);
                        }
                    },
                }
            },
            EventType::ComputeUtil | EventType::ComputeMem | EventType::TransportBw
                | EventType::TransportDrop | EventType::StorageIops | EventType::StorageQDepth => {
                let ent = entity_node_id(e);
                let key = metric_key(e.event_type);
                assert(key != "state"@);
                let nodes1 = spec_upsert_attr(g.nodes, ent, NodeType::Resource, key, e.value, e.ts);
                let i = find_node(g.nodes, ent);
                lemma_find_from(g.nodes, ent, 0);
                if i >= 0 && i == j {
                    lemma_kv_set_get(g.nodes[j].metadata, key, e.value);
                    assert(nodes1[j].id == id);
                    assert(nodes1[j].node_type == NodeType::Process);
                    assert(kv_get(nodes1[j].metadata, "state"@) == Some("running"@));
                } else {
                    assert(nodes1[j] == g.nodes[j]);
                }
                match e.pid {
                    None => {},
                    Some(p2) => {
                        let pid_id = pid_node_id(e.node_id, p2);
                        let nodes2 = spec_ensure_node(
                            nodes1,
                            pid_id,
                            NodeType::Process,
                            e.ts,
                            Seq::empty(),
                        );
                        assert(nodes2[j] == nodes1[j]);
                    },
                }
            },
            EventType::ErrorHw | EventType::ErrorNet | EventType::TopoLinkDown => {
                let err = error_node_id(e);
                let nodes1 = spec_ensure_node(
                    g.nodes,
                    err,
                    NodeType::Error,
                    e.ts,
                    seq![("error_type"@, e.value)],
                );
                assert(nodes1[j] == g.nodes[j]);
            },
            EventType::IntentRun | EventType::ActionExec => {
                assert(g1.nodes[j].id == id);
            },
        }
    }
    let c = choose|c: int|
        0 <= c < g1.nodes.len() && (#[trigger] g1.nodes[c]).id == id && g1.nodes[c].node_type
            == NodeType::Process && kv_get(g1.nodes[c].metadata, "state"@) == Some("running"@);
    let x = g1.nodes[c];
    // Running processes pass both expiry filters.
    let ecut = cutoff_at(e.ts, g1.error_window_ms);
    let nodes1k = keep_unexpired_from(g1.nodes, ecut, 0);
    let pcut = cutoff_at(e.ts, 600000);
    let nodes2k = keep_alive_from(nodes1k, pcut, 0);
    lemma_keep_unexpired_facts(g1.nodes, ecut, 0);
    lemma_keep_alive_facts(nodes1k, pcut, 0);
    assert(!expired_error(x, ecut));
    assert(nodes1k.contains(x));
    assert(!dead_process(x, pcut)) by {
        assert(kv_get(x.metadata, "state"@) == Some("running"@));
    }
    assert(nodes2k.contains(x));
    let c2 = choose|c2: int| 0 <= c2 < nodes2k.len() && nodes2k[c2] == x;
    lemma_has_node_iff(nodes2k, id);
}

// ---------------------------------------------------------------------------
// Executable helpers.
// ---------------------------------------------------------------------------

/// A key-for-key copy of a metadata vector.
fn meta_clone(m: &Vec<(String, String)>) -> (r: Vec<(String, String)>)
    ensures
        meta_view(r@) == meta_view(m@),
{
    let n = m.len();
    let mut r: Vec<(String, String)> = Vec::new();
    let mut i: usize = 0;
    while i < n
        invariant
            0 <= i <= n,
            n == m@.len(),
            r@.len() == i,
            forall|j: int| 0 <= j < i ==> meta_view(r@)[j] == meta_view(m@)[j],
        decreases n - i,
    {
        r.push((m[i].0.clone(), m[i].1.clone()));
        i = i + 1;
    }
    proof {
        assert(meta_view(r@) =~= meta_view(m@));
    }
    r
}

/// A field-for-field copy of a node.
fn node_dup(n: &Node) -> (r: Node)
    ensures
        r@ == n@,
{
    Node {
        id: n.id.clone(),
        node_type: n.node_type,
        last_update: n.last_update,
        metadata: meta_clone(&n.metadata),
    }
}

/// A field-for-field copy of an edge.
fn edge_dup(e: &Edge) -> (r: Edge)
    ensures
        r@ == e@,
{
    Edge { edge_type: e.edge_type, from: e.from.clone(), to: e.to.clone(), ts: e.ts }
}

/// The view of a vector of id strings.
pub open spec fn ids_view(v: Seq<String>) -> Seq<Seq<char>> {
    v.map_values(|s: String| s@)
}

/// Membership of `x` among the collected ids.
fn vec_contains_str(v: &Vec<String>, x: &String) -> (r: bool)
    ensures
        r == ids_view(v@).contains(x@),
{
    let n = v.len();
    let mut i: usize = 0;
    while i < n
        invariant
            0 <= i <= n,
            n == v@.len(),
            forall|j: int| 0 <= j < i ==> ids_view(v@)[j] != x@,
        decreases n - i,
    {
        if str_eq(v[i].as_str(), x.as_str()) {
            assert(ids_view(v@)[i as int] == x@);
            return true;
        }
        assert(ids_view(v@)[i as int] != x@);
        i = i + 1;
    }
    assert(!ids_view(v@).contains(x@));
    false
}

// ---------------------------------------------------------------------------
// The graph itself.
// ---------------------------------------------------------------------------

/// The authoritative causal graph.  All mutation goes through
/// [`StateGraph::process_event`]; readers receive copies.
pub struct StateGraph {
    nodes: Vec<Node>,
    edges: Vec<Edge>,
    error_window_ms: u64,
}

impl View for StateGraph {
    type V = GraphModel;

    closed spec fn view(&self) -> GraphModel {
        GraphModel {
            nodes: nodes_view(self.nodes@),
            edges: edges_view(self.edges@),
            error_window_ms: self.error_window_ms,
        }
    }
}

impl StateGraph {
    /// An empty graph with the default five-minute error retention window.
    pub fn new() -> (r: StateGraph)
        ensures
            r@.nodes == Seq::<NodeModel>::empty(),
            r@.edges == Seq::<EdgeModel>::empty(),
            r@.error_window_ms == 5 * 60 * 1000,
    {
        let r = StateGraph { nodes: Vec::new(), edges: Vec::new(), error_window_ms: 5 * 60 * 1000 };
        proof {
            assert(r@.nodes =~= Seq::<NodeModel>::empty());
            assert(r@.edges =~= Seq::<EdgeModel>::empty());
        }
        r
    }

    /// Replaces the node with this id, or appends it.
    fn put_node(&mut self, node: Node)
        ensures
            final(self)@.nodes == spec_put_node(old(self)@.nodes, node@),
            final(self)@.edges == old(self)@.edges,
            final(self)@.error_window_ms == old(self)@.error_window_ms,
    {
        let ghost nm = node@;
        let found = find_node_idx(&self.nodes, node.id.as_str());
        match found {
            Some(i) => {
                proof {
                    lemma_find_from(nodes_view(self.nodes@), nm.id, 0);
                }
                self.nodes.set(i, node);
                proof {
                    assert(nodes_view(self.nodes@) =~= spec_put_node(old(self)@.nodes, nm));
                }
            },
            None => {
                self.nodes.push(node);
                proof {
                    assert(nodes_view(self.nodes@) =~= spec_put_node(old(self)@.nodes, nm));
                }
            },
        }
    }

    /// Creates or refreshes a node and binds one metadata key.
    fn upsert_attr(&mut self, id: &String, kind: NodeType, key: &str, val: &String, ts: u64)
        ensures
            final(self)@.nodes == spec_upsert_attr(old(self)@.nodes, id@, kind, key@, val@, ts),
            final(self)@.edges == old(self)@.edges,
            final(self)@.error_window_ms == old(self)@.error_window_ms,
    {
        let found = find_node_idx(&self.nodes, id.as_str());
        match found {
            None => {
                let mut md: Vec<(String, String)> = Vec::new();
                md.push((key.to_owned(), val.clone()));
                let node = Node { id: id.clone(), node_type: kind, last_update: ts, metadata: md };
                proof {
                    assert(node@.metadata =~= seq![(key@, val@)]);
                }
                self.nodes.push(node);
                proof {
                    assert(nodes_view(self.nodes@) =~= spec_upsert_attr(
                        old(self)@.nodes,
                        id@,
                        kind,
                        key@,
                        val@,
                        ts,
                    ));
                }
            },
            Some(i) => {
                proof {
                    lemma_find_from(nodes_view(self.nodes@), id@, 0);
                }
                let mut md = meta_clone(&self.nodes[i].metadata);
                meta_set(&mut md, key, val.as_str());
                let node = Node {
                    id: id.clone(),
                    node_type: self.nodes[i].node_type,
                    last_update: ts,
                    metadata: md,
                };
                self.nodes.set(i, node);
                proof {
                    assert(nodes_view(self.nodes@) =~= spec_upsert_attr(
                        old(self)@.nodes,
                        id@,
                        kind,
                        key@,
                        val@,
                        ts,
                    ));
                }
            },
        }
    }

    /// Appends a bare node when none with this id exists yet.
    fn ensure_node(&mut self, id: &String, kind: NodeType, ts: u64)
        ensures
            final(self)@.nodes == spec_ensure_node(old(self)@.nodes, id@, kind, ts, Seq::empty()),
            final(self)@.edges == old(self)@.edges,
            final(self)@.error_window_ms == old(self)@.error_window_ms,
    {
        let found = find_node_idx(&self.nodes, id.as_str());
        match found {
            Some(_) => {},
            None => {
                let node = Node {
                    id: id.clone(),
                    node_type: kind,
                    last_update: ts,
                    metadata: Vec::new(),
                };
                proof {
                    assert(node@.metadata =~= Seq::<(Seq<char>, Seq<char>)>::empty());
                }
                self.nodes.push(node);
                proof {
                    assert(nodes_view(self.nodes@) =~= spec_ensure_node(
                        old(self)@.nodes,
                        id@,
                        kind,
                        ts,
                        Seq::empty(),
                    ));
                }
            },
        }
    }

    /// Whether an equal `(kind, from, to)` edge is already present.
    fn edge_present(&self, kind: EdgeType, from: &String, to: &String) -> (r: bool)
        ensures
            r == edge_exists(self@.edges, kind, from@, to@),
    {
        let n = self.edges.len();
        let mut i: usize = 0;
        while i < n
            invariant
                0 <= i <= n,
                n == self.edges@.len(),
                edge_exists(self@.edges, kind, from@, to@) == edge_exists_from(
                    self@.edges,
                    kind,
                    from@,
                    to@,
                    i as int,
                ),
            decreases n - i,
        {
            let e = &self.edges[i];
            if e.edge_type == kind && str_eq(e.from.as_str(), from.as_str()) && str_eq(
                e.to.as_str(),
                to.as_str(),
            ) {
                assert(edge_matches(self@.edges[i as int], kind, from@, to@));
                return true;
            }
            assert(!edge_matches(self@.edges[i as int], kind, from@, to@));
            i = i + 1;
        }
        false
    }

    /// Handles a `process.state` event.
    fn handle_process_state(&mut self, event: &Event)
        requires
            event@.event_type == EventType::ProcessState,
        ensures
            final(self)@ == spec_process_state(old(self)@, event@),
    {
        let p = match event.pid {
            None => {
                return ;
            },
            Some(p) => p,
        };
        let pid_str = make_pid_id(&event.node_id, p);
        if str_eq(event.value.as_str(), "start") {
            let mut md: Vec<(String, String)> = Vec::new();
            match &event.job_id {
                Some(j) => {
                    md.push((String::from_str("job_id"), j.clone()));
                },
                None => {},
            }
            md.push((String::from_str("state"), String::from_str("running")));
            let node = Node {
                id: pid_str,
                node_type: NodeType::Process,
                last_update: event.ts,
                metadata: md,
            };
            proof {
                assert(node@.metadata =~= start_metadata(event@));
            }
            self.put_node(node);
        } else if str_eq(event.value.as_str(), "exit") || str_eq(event.value.as_str(), "zombie") {
            let found = find_node_idx(&self.nodes, pid_str.as_str());
            match found {
                None => {},
                Some(i) => {
                    proof {
                        lemma_find_from(nodes_view(self.nodes@), pid_str@, 0);
                    }
                    let mut md = meta_clone(&self.nodes[i].metadata);
                    meta_set(&mut md, "state", event.value.as_str());
                    let node = Node {
                        id: pid_str,
                        node_type: self.nodes[i].node_type,
                        last_update: event.ts,
                        metadata: md,
                    };
                    self.nodes.set(i, node);
                    proof {
                        assert(nodes_view(self.nodes@) =~= spec_process_state(
                            old(self)@,
                            event@,
                        ).nodes);
                    }
                },
            }
        }
    }

    /// Handles a compute, transport or storage metric event.
    fn handle_metric_event(&mut self, event: &Event)
        requires
            event@.event_type == EventType::ComputeUtil || event@.event_type
                == EventType::ComputeMem || event@.event_type == EventType::TransportBw
                || event@.event_type == EventType::TransportDrop || event@.event_type
                == EventType::StorageIops || event@.event_type == EventType::StorageQDepth,
        ensures
            final(self)@ == spec_metric_event(old(self)@, event@),
    {
        let ent = make_scoped(&event.node_id, event.entity_id.clone());
        let key: &str = match event.event_type {
            EventType::ComputeUtil => "util",
            EventType::ComputeMem => "mem",
            EventType::TransportBw => "bw",
            EventType::TransportDrop => "drop",
            EventType::StorageIops => "iops",
            EventType::StorageQDepth => "qdepth",
            _ => "value",
        };
        assert(key@ == metric_key(event@.event_type));
        self.upsert_attr(&ent, NodeType::Resource, key, &event.value, event.ts);
        let p = match event.pid {
            None => {
                return ;
            },
            Some(p) => p,
        };
        let pid_str = make_pid_id(&event.node_id, p);
        self.ensure_node(&pid_str, NodeType::Process, event.ts);
        self.add_edge(EdgeType::Consumes, &pid_str, &ent, event.ts);
        let stall: bool = match event.event_type {
            EventType::TransportDrop => true,
            EventType::TransportBw | EventType::StorageIops | EventType::StorageQDepth => {
                if str_contains(event.value.as_str(), "IO_WAIT") {
                    true
                } else {
                    match parse_decimal_milli(event.value.as_str()) {
                        Some(v) => v < 1000,
                        None => false,
                    }
                }
            },
            _ => false,
        };
        assert(stall == wants_waits_on(event@));
        if stall {
            self.add_edge(EdgeType::WaitsOn, &pid_str, &ent, event.ts);
        }
    }

    /// Handles an error or topology event.
    fn handle_error_event(&mut self, event: &Event)
        requires
            event@.event_type == EventType::ErrorHw || event@.event_type == EventType::ErrorNet
                || event@.event_type == EventType::TopoLinkDown,
        ensures
            final(self)@ == spec_error_event(old(self)@, event@),
    {
        let ent = make_scoped(&event.node_id, event.entity_id.clone());
        let err_id = make_error_id(&event.node_id, &event.entity_id);
        proof {
            assert(ent@ =~= entity_node_id(event@));
            assert(err_id@ =~= error_node_id(event@));
        }
        let found = find_node_idx(&self.nodes, err_id.as_str());
        match found {
            Some(_) => {},
            None => {
                let mut md: Vec<(String, String)> = Vec::new();
                md.push((String::from_str("error_type"), event.value.clone()));
                let node = Node {
                    id: err_id.clone(),
                    node_type: NodeType::Error,
                    last_update: event.ts,
                    metadata: md,
                };
                proof {
                    assert(node@.metadata =~= seq![("error_type"@, event@.value)]);
                }
                self.nodes.push(node);
            },
        }
        proof {
            assert(nodes_view(self.nodes@) =~= spec_ensure_node(
                old(self)@.nodes,
                error_node_id(event@),
                NodeType::Error,
                event@.ts,
                seq![("error_type"@, event@.value)],
            ));
        }

        // Gather the processes consuming the entity, in edge order.
        let n = self.edges.len();
        let mut affected: Vec<String> = Vec::new();
        let mut i: usize = 0;
        while i < n
            invariant
                0 <= i <= n,
                n == self.edges@.len(),
                consumers_of(self@.edges, ent@) == ids_view(affected@) + consumers_from(
                    self@.edges,
                    ent@,
                    i as int,
                ),
            decreases n - i,
        {
            let e = &self.edges[i];
            let ghost before = ids_view(affected@);
            if e.edge_type == EdgeType::Consumes && str_eq(e.to.as_str(), ent.as_str()) {
                affected.push(e.from.clone());
                proof {
                    assert(ids_view(affected@) =~= before.push(self@.edges[i as int].from));
                    assert(before + (seq![self@.edges[i as int].from] + consumers_from(
                        self@.edges,
                        ent@,
                        i + 1,
                    )) =~= ids_view(affected@) + consumers_from(self@.edges, ent@, i + 1));
                }
            }
            i = i + 1;
        }
        proof {
            assert(consumers_of(self@.edges, ent@) =~= ids_view(affected@));
        }

        // One BlockedBy edge per consumer, de-duplicated.
        let m = affected.len();
        let ghost froms = ids_view(affected@);
        let ghost edges0 = self@.edges;
        let mut k: usize = 0;
        while k < m
            invariant
                0 <= k <= m,
                m == affected@.len(),
                froms == ids_view(affected@),
                err_id@ == error_node_id(event@),
                event@.ts == event.ts,
                add_blocked_from(edges0, froms, err_id@, event.ts, 0) == add_blocked_from(
                    self@.edges,
                    froms,
                    err_id@,
                    event.ts,
                    k as int,
                ),
                self@.error_window_ms == old(self)@.error_window_ms,
                self@.nodes == spec_error_event(old(self)@, event@).nodes,
                froms == consumers_of(old(self)@.edges, entity_node_id(event@)),
            decreases m - k,
        {
            let target = &affected[k];
            assert(target@ == froms[k as int]);
            self.add_edge(EdgeType::BlockedBy, target, &err_id, event.ts);
            k = k + 1;
        }
        proof {
            assert(self@.edges == add_blocked_from(edges0, froms, err_id@, event.ts, 0));
            assert(self@ == spec_error_event(old(self)@, event@));
        }
    }

    /// Collects the ids of expired error nodes.
    fn collect_expired_ids(&self, cutoff: u64) -> (r: Vec<String>)
        ensures
            ids_view(r@) == expired_ids_from(self@.nodes, cutoff as int, 0),
    {
        let n = self.nodes.len();
        let mut r: Vec<String> = Vec::new();
        let mut i: usize = 0;
        while i < n
            invariant
                0 <= i <= n,
                n == self.nodes@.len(),
                expired_ids_from(self@.nodes, cutoff as int, 0) == ids_view(r@)
                    + expired_ids_from(self@.nodes, cutoff as int, i as int),
            decreases n - i,
        {
            let node = &self.nodes[i];
            let ghost before = ids_view(r@);
            if node.node_type == NodeType::Error && node.last_update < cutoff {
                assert(expired_error(self@.nodes[i as int], cutoff as int));
                r.push(node.id.clone());
                proof {
                    assert(ids_view(r@) =~= before.push(self@.nodes[i as int].id));
                    assert(before + (seq![self@.nodes[i as int].id] + expired_ids_from(
                        self@.nodes,
                        cutoff as int,
                        i + 1,
                    )) =~= ids_view(r@) + expired_ids_from(self@.nodes, cutoff as int, i + 1));
                }
            } else {
                assert(!expired_error(self@.nodes[i as int], cutoff as int));
            }
            i = i + 1;
        }
        proof {
            assert(ids_view(r@) =~= expired_ids_from(self@.nodes, cutoff as int, 0));
        }
        r
    }

    /// Collects the ids of dead process nodes.
    fn collect_dead_ids(&self, cutoff: u64) -> (r: Vec<String>)
        ensures
            ids_view(r@) == dead_ids_from(self@.nodes, cutoff as int, 0),
    {
        let n = self.nodes.len();
        let mut r: Vec<String> = Vec::new();
        let mut i: usize = 0;
        while i < n
            invariant
                0 <= i <= n,
                n == self.nodes@.len(),
                dead_ids_from(self@.nodes, cutoff as int, 0) == ids_view(r@) + dead_ids_from(
                    self@.nodes,
                    cutoff as int,
                    i as int,
                ),
            decreases n - i,
        {
            let node = &self.nodes[i];
            let ghost before = ids_view(r@);
            if self.node_is_dead(i, cutoff) {
                r.push(node.id.clone());
                proof {
                    assert(ids_view(r@) =~= before.push(self@.nodes[i as int].id));
                    assert(before + (seq![self@.nodes[i as int].id] + dead_ids_from(
                        self@.nodes,
                        cutoff as int,
                        i + 1,
                    )) =~= ids_view(r@) + dead_ids_from(self@.nodes, cutoff as int, i + 1));
                }
            }
            i = i + 1;
        }
        proof {
            assert(ids_view(r@) =~= dead_ids_from(self@.nodes, cutoff as int, 0));
        }
        r
    }

    /// Decides whether the node at `i` counts as a dead process.
    fn node_is_dead(&self, i: usize, cutoff: u64) -> (r: bool)
        requires
            i < self@.nodes.len(),
        ensures
            r == dead_process(self@.nodes[i as int], cutoff as int),
    {
        let node = &self.nodes[i];
        if !(node.node_type == NodeType::Process) {
            return false;
        }
        let st = meta_get(&node.metadata, "state");
        match st {
            Some(v) => {
                if str_eq(v.as_str(), "exit") || str_eq(v.as_str(), "zombie") {
                    true
                } else if node.last_update < cutoff && !str_eq(v.as_str(), "running") {
                    true
                } else {
                    false
                }
            },
            None => node.last_update < cutoff,
        }
    }

    /// Drops the expired error nodes.
    fn retain_nodes_unexpired(&mut self, cutoff: u64)
        ensures
            final(self)@.nodes == keep_unexpired_from(old(self)@.nodes, cutoff as int, 0),
            final(self)@.edges == old(self)@.edges,
            final(self)@.error_window_ms == old(self)@.error_window_ms,
    {
        let n = self.nodes.len();
        let mut kept: Vec<Node> = Vec::new();
        let mut i: usize = 0;
        while i < n
            invariant
                0 <= i <= n,
                n == self.nodes@.len(),
                keep_unexpired_from(nodes_view(self.nodes@), cutoff as int, 0) == nodes_view(
                    kept@,
                ) + keep_unexpired_from(nodes_view(self.nodes@), cutoff as int, i as int),
            decreases n - i,
        {
            let node = &self.nodes[i];
            let ghost before = nodes_view(kept@);
            if node.node_type == NodeType::Error && node.last_update < cutoff {
                assert(expired_error(nodes_view(self.nodes@)[i as int], cutoff as int));
            } else {
                assert(!expired_error(nodes_view(self.nodes@)[i as int], cutoff as int));
                kept.push(node_dup(node));
                proof {
                    assert(nodes_view(kept@) =~= before.push(nodes_view(self.nodes@)[i as int]));
                    assert(before + (seq![nodes_view(self.nodes@)[i as int]]
                        + keep_unexpired_from(nodes_view(self.nodes@), cutoff as int, i + 1))
                        =~= nodes_view(kept@) + keep_unexpired_from(
                        nodes_view(self.nodes@),
                        cutoff as int,
                        i + 1,
                    ));
                }
            }
            i = i + 1;
        }
        self.nodes = kept;
        proof {
            assert(nodes_view(self.nodes@) =~= keep_unexpired_from(
                old(self)@.nodes,
                cutoff as int,
                0,
            ));
        }
    }

    /// Drops dead process nodes.
    fn retain_nodes_alive(&mut self, cutoff: u64)
        ensures
            final(self)@.nodes == keep_alive_from(old(self)@.nodes, cutoff as int, 0),
            final(self)@.edges == old(self)@.edges,
            final(self)@.error_window_ms == old(self)@.error_window_ms,
    {
        let n = self.nodes.len();
        let mut kept: Vec<Node> = Vec::new();
        let mut i: usize = 0;
        while i < n
            invariant
                0 <= i <= n,
                n == self.nodes@.len(),
                keep_alive_from(nodes_view(self.nodes@), cutoff as int, 0) == nodes_view(kept@)
                    + keep_alive_from(nodes_view(self.nodes@), cutoff as int, i as int),
            decreases n - i,
        {
            let ghost before = nodes_view(kept@);
            if !self.node_is_dead(i, cutoff) {
                kept.push(node_dup(&self.nodes[i]));
                proof {
                    assert(nodes_view(kept@) =~= before.push(nodes_view(self.nodes@)[i as int]));
                    assert(before + (seq![nodes_view(self.nodes@)[i as int]] + keep_alive_from(
                        nodes_view(self.nodes@),
                        cutoff as int,
                        i + 1,
                    )) =~= nodes_view(kept@) + keep_alive_from(
                        nodes_view(self.nodes@),
                        cutoff as int,
                        i + 1,
                    ));
                }
            }
            i = i + 1;
        }
        self.nodes = kept;
        proof {
            assert(nodes_view(self.nodes@) =~= keep_alive_from(old(self)@.nodes, cutoff as int, 0));
        }
    }

    /// Drops every edge with an endpoint among `ids`.
    fn retain_edges_not_ref(&mut self, ids: &Vec<String>)
        ensures
            final(self)@.edges == keep_edges_not_ref(old(self)@.edges, ids_view(ids@), 0),
            final(self)@.nodes == old(self)@.nodes,
            final(self)@.error_window_ms == old(self)@.error_window_ms,
    {
        let n = self.edges.len();
        let mut kept: Vec<Edge> = Vec::new();
        let mut i: usize = 0;
        while i < n
            invariant
                0 <= i <= n,
                n == self.edges@.len(),
                keep_edges_not_ref(edges_view(self.edges@), ids_view(ids@), 0) == edges_view(
                    kept@,
                ) + keep_edges_not_ref(edges_view(self.edges@), ids_view(ids@), i as int),
            decreases n - i,
        {
            let e = &self.edges[i];
            let ghost before = edges_view(kept@);
            let hit = vec_contains_str(ids, &e.from) || vec_contains_str(ids, &e.to);
            if !hit {
                kept.push(edge_dup(e));
                proof {
                    assert(edges_view(kept@) =~= before.push(edges_view(self.edges@)[i as int]));
                    assert(before + (seq![edges_view(self.edges@)[i as int]]
                        + keep_edges_not_ref(edges_view(self.edges@), ids_view(ids@), i + 1))
                        =~= edges_view(kept@) + keep_edges_not_ref(
                        edges_view(self.edges@),
                        ids_view(ids@),
                        i + 1,
                    ));
                }
            }
            i = i + 1;
        }
        self.edges = kept;
        proof {
            assert(edges_view(self.edges@) =~= keep_edges_not_ref(
                old(self)@.edges,
                ids_view(ids@),
                0,
            ));
        }
    }

    /// The expiry pass: drops expired errors, then dead processes, each
    /// together with every incident edge.
    fn cleanup(&mut self, now: u64)
        ensures
            final(self)@ == spec_cleanup(old(self)@, now),
    {
        let ecut: u64 = if now >= self.error_window_ms {
            now - self.error_window_ms
        } else {
            0
        };
        assert(ecut as int == cutoff_at(now, self@.error_window_ms));
        let eids = self.collect_expired_ids(ecut);
        self.retain_nodes_unexpired(ecut);
        self.retain_edges_not_ref(&eids);
        let pcut: u64 = if now >= 600000 {
            now - 600000
        } else {
            0
        };
        assert(pcut as int == cutoff_at(now, 600000));
        let dids = self.collect_dead_ids(pcut);
        self.retain_nodes_alive(pcut);
        self.retain_edges_not_ref(&dids);
    }

    /// Ingests one event: updates nodes and edges for its family, then runs
    /// the expiry pass against the event's timestamp.  Never fails; the
    /// `Result` mirrors the ingest interface the daemon loop consumes.
    pub fn process_event(&mut self, event: &Event) -> (r: Result<(), String>)
        ensures
            r is Ok,
            final(self)@ == spec_ingest(old(self)@, event@),
    {
        match event.event_type {
            EventType::ProcessState => self.handle_process_state(event),
            EventType::ComputeUtil | EventType::ComputeMem | EventType::TransportBw
                | EventType::TransportDrop | EventType::StorageIops | EventType::StorageQDepth => {
                self.handle_metric_event(event);
            },
            EventType::ErrorHw | EventType::ErrorNet | EventType::TopoLinkDown => {
                self.handle_error_event(event);
            },
            EventType::IntentRun | EventType::ActionExec => {},
        }
        self.cleanup(event.ts);
        Ok(())
    }

    /// Reverse depth-first search along `BlockedBy` edges, collecting human
    /// readable cause strings.  Each node is visited at most once: a visited
    /// id is pushed exactly once and the search returns at once on a repeat.
    fn dfs_backward(&self, cur: &String, visited: &mut Vec<String>, causes: &mut Vec<String>)
        requires
            ids_view(old(visited)@).no_duplicates(),
        ensures
            ids_view(final(visited)@).no_duplicates(),
            ids_view(old(visited)@).to_set().subset_of(ids_view(final(visited)@).to_set()),
            ids_view(final(visited)@).to_set().contains(cur@),
            final(causes)@.len() >= old(causes)@.len(),
            forall|j: int| 0 <= j < old(causes)@.len() ==> final(causes)@[j] == old(causes)@[j],
            forall|j: int|
                old(causes)@.len() <= j < final(causes)@.len() ==> valid_cause(
                    self@,
                    ids_view(final(causes)@)[j],
                ),
            !ids_view(old(visited)@).to_set().contains(cur@) ==> direct_causes_in(
                self@,
                cur@,
                ids_view(final(causes)@),
            ),
            forall|x: Seq<char>|
                ids_view(final(visited)@).to_set().contains(x) && !ids_view(
                    old(visited)@,
                ).to_set().contains(x) ==> direct_causes_in(self@, x, ids_view(final(causes)@)),
            forall|j: int|
                0 <= j < self@.edges.len() && (#[trigger] self@.edges[j]).edge_type
                    == EdgeType::BlockedBy && ids_view(final(visited)@).to_set().contains(
                    self@.edges[j].from,
                ) && !ids_view(old(visited)@).to_set().contains(self@.edges[j].from) && has_node(
                    self@.nodes,
                    self@.edges[j].to,
                ) ==> ids_view(final(visited)@).to_set().contains(self@.edges[j].to),
        decreases node_id_set(self@.nodes).insert(cur@).difference(
            ids_view(old(visited)@).to_set(),
        ).len(),
    {
        proof {
            broadcast use vstd::seq_lib::seq_to_set_is_finite;

        }
        if vec_contains_str(visited, cur) {
            proof {
                assert(ids_view(visited@).to_set().contains(cur@));
            }
            return ;
        }
        let ghost v0 = ids_view(visited@);
        visited.push(cur.clone());
        proof {
            broadcast use vstd::set::group_set_axioms;

            assert(ids_view(visited@) =~= v0.push(cur@));
            lemma_push_to_set(v0, cur@);
            assert(ids_view(visited@).to_set() =~= v0.to_set().insert(cur@));
            assert forall|a: int, b: int|
                0 <= a < b < ids_view(visited@).len() implies ids_view(visited@)[a] != ids_view(
                visited@,
            )[b] by {
                if b == ids_view(visited@).len() - 1 {
                    assert(v0.contains(v0[a]));
                }
            }
        }
        let ghost cstart = causes@;
        let ghost g = self@;

        let n = self.edges.len();
        let mut i: usize = 0;
        while i < n
            invariant
                n == self.edges@.len(),
                0 <= i <= n,
                g == self@,
                ids_view(visited@).no_duplicates(),
                ids_view(old(visited)@).to_set().subset_of(ids_view(visited@).to_set()),
                ids_view(visited@).to_set().contains(cur@),
                !ids_view(old(visited)@).to_set().contains(cur@),
                causes@.len() >= cstart.len(),
                cstart == old(causes)@,
                forall|j: int| 0 <= j < cstart.len() ==> causes@[j] == cstart[j],
                forall|j: int|
                    cstart.len() <= j < causes@.len() ==> valid_cause(g, ids_view(causes@)[j]),
                forall|j: int|
                    0 <= j < i ==> {
                        let e = #[trigger] g.edges[j];
                        e.from == cur@ && e.edge_type == EdgeType::BlockedBy && error_target(
                            g.nodes,
                            e.to,
                        ) ==> ids_view(causes@).contains(blocked_cause(g.nodes, e))
                    },
                forall|x: Seq<char>|
                    ids_view(visited@).to_set().contains(x) && !ids_view(
                        old(visited)@,
                    ).to_set().contains(x) && x != cur@ ==> direct_causes_in(
                        g,
                        x,
                        ids_view(causes@),
                    ),
                forall|j: int|
                    0 <= j < i && (#[trigger] g.edges[j]).edge_type == EdgeType::BlockedBy
                        && g.edges[j].from == cur@ && has_node(g.nodes, g.edges[j].to)
                        ==> ids_view(visited@).to_set().contains(g.edges[j].to),
                forall|j: int|
                    0 <= j < g.edges.len() && (#[trigger] g.edges[j]).edge_type
                        == EdgeType::BlockedBy && ids_view(visited@).to_set().contains(
                        g.edges[j].from,
                    ) && !ids_view(old(visited)@).to_set().contains(g.edges[j].from)
                        && g.edges[j].from != cur@ && has_node(g.nodes, g.edges[j].to)
                        ==> ids_view(visited@).to_set().contains(g.edges[j].to),
            decreases n - i,
        {
            let ghost cs_before = ids_view(causes@);
            let ghost v_entry = ids_view(visited@).to_set();
            let e = &self.edges[i];
            if e.edge_type == EdgeType::BlockedBy && str_eq(e.from.as_str(), cur.as_str()) {
                let found = find_node_idx(&self.nodes, e.to.as_str());
                match found {
                    Some(idx) => {
                        proof {
                            lemma_find_from(g.nodes, g.edges[i as int].to, 0);
                        }
                        if self.nodes[idx].node_type == NodeType::Error {
                            let label: String = match meta_get(
                                &self.nodes[idx].metadata,
                                "error_type",
                            ) {
                                Some(v) => v.clone(),
                                None => String::from_str("unknown"),
                            };
                            let c = e.to.clone().concat(": ").concat(label.as_str());
                            proof {
                                assert(c@ =~= blocked_cause(g.nodes, g.edges[i as int]));
                            }
                            causes.push(c);
                            proof {
                                assert(ids_view(causes@) =~= cs_before.push(blocked_cause(
                                    g.nodes,
                                    g.edges[i as int],
                                )));
                                assert(valid_cause(g, blocked_cause(g.nodes, g.edges[i as int])));
                                assert forall|x: Seq<char>| cs_before.contains(x) implies ids_view(
                                    causes@,
                                ).contains(x) by {
                                    lemma_contains_push(
                                        cs_before,
                                        blocked_cause(g.nodes, g.edges[i as int]),
                                        x,
                                    );
                                }
                            }
                        }
                        // Walk on into the blocking node.
                        let ghost v_now = ids_view(visited@).to_set();
                        let ghost mid_causes = causes@;
                        let ghost cs_mid = ids_view(causes@);
                        proof {
                            let ids = node_id_set(g.nodes);
                            let s_caller = ids.insert(cur@).difference(
                                ids_view(old(visited)@).to_set(),
                            );
                            let s_callee = ids.insert(g.edges[i as int].to).difference(v_now);
                            assert(g.nodes.map_values(|nd: NodeModel| nd.id)[idx as int]
                                == g.nodes[idx as int].id);
                            assert(g.nodes.map_values(|nd: NodeModel| nd.id).contains(
                                g.edges[i as int].to,
                            ));
                            assert(ids.contains(g.edges[i as int].to));
                            assert(ids.insert(g.edges[i as int].to) =~= ids);
                            assert(s_callee.subset_of(s_caller));
                            assert(s_caller.finite()) by {
                                assert(ids.finite());
                            }
                            assert(!s_callee.contains(cur@));
                            assert(s_caller.contains(cur@));
                            s_callee.lemma_subset_not_in_lt(s_caller, cur@);
                        }
                        self.dfs_backward(&e.to, visited, causes);
                        proof {
                            // Entries recorded before the recursion are
                            // still there, at their old indices.
                            assert forall|j: int| 0 <= j < cs_mid.len() implies ids_view(
                                causes@,
                            )[j] == cs_mid[j] by {
                                assert(causes@[j] == mid_causes[j]);
                            }
                            assert forall|x: Seq<char>| cs_mid.contains(x) implies ids_view(
                                causes@,
                            ).contains(x) by {
                                let k = choose|k: int| 0 <= k < cs_mid.len() && cs_mid[k] == x;
                                assert(ids_view(causes@)[k] == x);
                            }
                            // Earlier recorded causes survive the recursion.
                            assert forall|j: int| 0 <= j <= i implies {
                                let e2 = #[trigger] g.edges[j];
                                e2.from == cur@ && e2.edge_type == EdgeType::BlockedBy
                                    && error_target(g.nodes, e2.to) ==> ids_view(
                                    causes@,
                                ).contains(blocked_cause(g.nodes, e2))
                            } by {
                                let e2 = g.edges[j];
                                if e2.from == cur@ && e2.edge_type == EdgeType::BlockedBy
                                    && error_target(g.nodes, e2.to) {
                                    if j < i {
                                        assert(cs_before.contains(blocked_cause(g.nodes, e2)));
                                        let k = choose|k: int|
                                            0 <= k < cs_before.len() && cs_before[k]
                                                == blocked_cause(g.nodes, e2);
                                        assert(cs_mid[k] == blocked_cause(g.nodes, e2));
                                        assert(cs_mid.contains(blocked_cause(g.nodes, e2)));
                                    } else {
                                        let c2 = blocked_cause(g.nodes, e2);
                                        let k = cs_mid.len() - 1;
                                        assert(cs_mid[k] == c2);
                                        assert(cs_mid.contains(c2));
                                    }
                                }
                            }
                            // New entries from the recursion are valid, old
                            // ones stay valid.
                            assert forall|j: int|
                                cstart.len() <= j < causes@.len() implies valid_cause(
                                g,
                                ids_view(causes@)[j],
                            ) by {
                                if j < cs_mid.len() {
                                    assert(ids_view(causes@)[j] == cs_mid[j]);
                                } else {
                                    assert(valid_cause(g, ids_view(causes@)[j]));
                                }
                            }
                            // Coverage of every node visited so far, except
                            // the current one, survives or comes from the
                            // recursion.
                            let now = ids_view(visited@).to_set();
                            assert forall|x: Seq<char>|
                                now.contains(x) && !ids_view(old(visited)@).to_set().contains(x)
                                    && x != cur@ implies direct_causes_in(
                                g,
                                x,
                                ids_view(causes@),
                            ) by {
                                if v_now.contains(x) {
                                    lemma_direct_monotone(g, x, cs_mid, ids_view(causes@));
                                }
                            }
                            // The recursion visited this edge's target, and
                            // closure holds for everything visited so far.
                            assert(now.contains(g.edges[i as int].to));
                            assert forall|j: int|
                                0 <= j < g.edges.len() && (#[trigger] g.edges[j]).edge_type
                                    == EdgeType::BlockedBy && now.contains(g.edges[j].from)
                                    && !ids_view(old(visited)@).to_set().contains(g.edges[j].from)
                                    && g.edges[j].from != cur@ && has_node(g.nodes, g.edges[j].to)
                                    implies now.contains(g.edges[j].to) by {
                                if v_now.contains(g.edges[j].from) {
                                    assert(v_now.subset_of(now));
                                }
                            }
                        }
                    },
                    None => {},
                }
            }
            i = i + 1;
        }

        // Waits-on edges are leaves: record them without recursing.
        let ghost cs_loop2 = ids_view(causes@);
        let mut k: usize = 0;
        while k < n
            invariant
                n == self.edges@.len(),
                0 <= k <= n,
                g == self@,
                ids_view(visited@).no_duplicates(),
                ids_view(old(visited)@).to_set().subset_of(ids_view(visited@).to_set()),
                ids_view(visited@).to_set().contains(cur@),
                causes@.len() >= cstart.len(),
                cstart == old(causes)@,
                forall|j: int| 0 <= j < cstart.len() ==> causes@[j] == cstart[j],
                forall|j: int|
                    cstart.len() <= j < causes@.len() ==> valid_cause(g, ids_view(causes@)[j]),
                forall|j: int|
                    0 <= j < g.edges.len() ==> {
                        let e = #[trigger] g.edges[j];
                        e.from == cur@ && e.edge_type == EdgeType::BlockedBy && error_target(
                            g.nodes,
                            e.to,
                        ) ==> ids_view(causes@).contains(blocked_cause(g.nodes, e))
                    },
                forall|j: int|
                    0 <= j < k ==> {
                        let e = #[trigger] g.edges[j];
                        e.from == cur@ && e.edge_type == EdgeType::WaitsOn ==> ids_view(
                            causes@,
                        ).contains(waits_cause(e))
                    },
                !ids_view(old(visited)@).to_set().contains(cur@),
                forall|x: Seq<char>|
                    ids_view(visited@).to_set().contains(x) && !ids_view(
                        old(visited)@,
                    ).to_set().contains(x) && x != cur@ ==> direct_causes_in(
                        g,
                        x,
                        ids_view(causes@),
                    ),
                forall|j: int|
                    0 <= j < g.edges.len() && (#[trigger] g.edges[j]).edge_type
                        == EdgeType::BlockedBy && g.edges[j].from == cur@ && has_node(
                        g.nodes,
                        g.edges[j].to,
                    ) ==> ids_view(visited@).to_set().contains(g.edges[j].to),
                forall|j: int|
                    0 <= j < g.edges.len() && (#[trigger] g.edges[j]).edge_type
                        == EdgeType::BlockedBy && ids_view(visited@).to_set().contains(
                        g.edges[j].from,
                    ) && !ids_view(old(visited)@).to_set().contains(g.edges[j].from)
                        && g.edges[j].from != cur@ && has_node(g.nodes, g.edges[j].to)
                        ==> ids_view(visited@).to_set().contains(g.edges[j].to),
            decreases n - k,
        {
            let ghost cs_before = ids_view(causes@);
            let e = &self.edges[k];
            if e.edge_type == EdgeType::WaitsOn && str_eq(e.from.as_str(), cur.as_str()) {
                let c = String::from_str("waiting on resource: ").concat(e.to.as_str());
                proof {
                    assert(c@ =~= waits_cause(g.edges[k as int]));
                }
                causes.push(c);
                proof {
                    assert(ids_view(causes@) =~= cs_before.push(waits_cause(g.edges[k as int])));
                    assert(ids_view(causes@)[cs_before.len() as int] == waits_cause(
                        g.edges[k as int],
                    ));
                    assert(ids_view(causes@).contains(waits_cause(g.edges[k as int])));
                    assert(valid_cause(g, waits_cause(g.edges[k as int])));
                    assert forall|x: Seq<char>| cs_before.contains(x) implies ids_view(
                        causes@,
                    ).contains(x) by {
                        lemma_contains_push(cs_before, waits_cause(g.edges[k as int]), x);
                    }
                    assert forall|x: Seq<char>|
                        ids_view(visited@).to_set().contains(x) && !ids_view(
                            old(visited)@,
                        ).to_set().contains(x) && x != cur@ implies direct_causes_in(
                        g,
                        x,
                        ids_view(causes@),
                    ) by {
                        lemma_direct_monotone(g, x, cs_before, ids_view(causes@));
                    }
                }
            }
            k = k + 1;
        }

        // At exit the current node's causes are all listed, so every node
        // visited by this call is covered, and the closure holds.
        proof {
            assert(direct_causes_in(g, cur@, ids_view(causes@)));
            assert forall|x: Seq<char>|
                ids_view(visited@).to_set().contains(x) && !ids_view(
                    old(visited)@,
                ).to_set().contains(x) implies direct_causes_in(g, x, ids_view(causes@)) by {
                if x != cur@ {
                    assert(direct_causes_in(g, x, ids_view(causes@)));
                }
            }
        }
    }

    /// All blocking causes reachable from the process `pid`, each one
    /// justified by an edge of the graph.  Every cause one hop away from
    /// the process appears, and, through [`transitive_causes_in`], so do
    /// the causes of every error reachable over further `BlockedBy` hops.
    /// The search always terminates — its measure is the set of node ids
    /// not yet visited — and the visited list never takes an id twice.
    pub fn find_root_cause(&self, pid: u32) -> (r: Vec<String>)
        ensures
            forall|j: int| 0 <= j < r@.len() ==> valid_cause(self@, ids_view(r@)[j]),
            direct_causes_in(self@, pid_node_id(None, pid), ids_view(r@)),
            transitive_causes_in(self@, pid_node_id(None, pid), ids_view(r@)),
    {
        let scope: Option<String> = None;
        let pid_str = make_pid_id(&scope, pid);
        self.root_cause_from(&pid_str)
    }

    /// Root-cause search from a full (possibly namespaced) node id, with
    /// the same transitive coverage as [`StateGraph::find_root_cause`].
    pub fn find_root_cause_by_id(&self, id: &String) -> (r: Vec<String>)
        ensures
            forall|j: int| 0 <= j < r@.len() ==> valid_cause(self@, ids_view(r@)[j]),
            direct_causes_in(self@, id@, ids_view(r@)),
            transitive_causes_in(self@, id@, ids_view(r@)),
    {
        self.root_cause_from(id)
    }

    /// Shared body of the two root-cause entry points.
    fn root_cause_from(&self, start: &String) -> (r: Vec<String>)
        ensures
            forall|j: int| 0 <= j < r@.len() ==> valid_cause(self@, ids_view(r@)[j]),
            direct_causes_in(self@, start@, ids_view(r@)),
            transitive_causes_in(self@, start@, ids_view(r@)),
    {
        let mut visited: Vec<String> = Vec::new();
        let mut causes: Vec<String> = Vec::new();
        proof {
            assert(ids_view(visited@) =~= Seq::<Seq<char>>::empty());
            assert(ids_view(causes@) =~= Seq::<Seq<char>>::empty());
        }
        let ghost empty_set = ids_view(visited@).to_set();
        proof {
            assert(forall|x: Seq<char>| !(#[trigger] empty_set.contains(x)));
        }
        self.dfs_backward(start, &mut visited, &mut causes);
        proof {
            assert(forall|j: int|
                0 <= j < causes@.len() ==> valid_cause(self@, ids_view(causes@)[j]));
            // The visited ids witness the transitive coverage.
            let reached = ids_view(visited@).to_set();
            assert(reached.contains(start@));
            assert forall|j: int|
                0 <= j < self@.edges.len() && (#[trigger] self@.edges[j]).edge_type
                    == EdgeType::BlockedBy && reached.contains(self@.edges[j].from) && has_node(
                self@.nodes,
                self@.edges[j].to,
            ) implies reached.contains(self@.edges[j].to) by {
                assert(!empty_set.contains(self@.edges[j].from));
            }
            assert forall|x: Seq<char>| #[trigger]
                reached.contains(x) implies direct_causes_in(self@, x, ids_view(causes@)) by {
                assert(!empty_set.contains(x));
            }
            assert(reach_witness_ok(self@, start@, ids_view(causes@), reached));
            assert(transitive_causes_in(self@, start@, ids_view(causes@)));
        }
        causes
    }

    /// The processes that have not exited: every node that is a process and
    /// has not reported `exit` or `zombie`, in insertion order.
    pub fn get_active_processes(&self) -> (r: Vec<Node>)
        ensures
            nodes_view(r@) == active_from(self@.nodes, 0),
    {
        let n = self.nodes.len();
        let mut r: Vec<Node> = Vec::new();
        let mut i: usize = 0;
        while i < n
            invariant
                0 <= i <= n,
                n == self.nodes@.len(),
                active_from(self@.nodes, 0) == nodes_view(r@) + active_from(
                    self@.nodes,
                    i as int,
                ),
            decreases n - i,
        {
            let node = &self.nodes[i];
            let ghost before = nodes_view(r@);
            let is_active: bool = if node.node_type == NodeType::Process {
                match meta_get(&node.metadata, "state") {
                    Some(v) => !str_eq(v.as_str(), "exit") && !str_eq(v.as_str(), "zombie"),
                    None => true,
                }
            } else {
                false
            };
            assert(is_active == active_process(self@.nodes[i as int]));
            if is_active {
                r.push(node_dup(node));
                proof {
                    assert(nodes_view(r@) =~= before.push(self@.nodes[i as int]));
                    assert(before + (seq![self@.nodes[i as int]] + active_from(
                        self@.nodes,
                        i + 1,
                    )) =~= nodes_view(r@) + active_from(self@.nodes, i + 1));
                }
            }
            i = i + 1;
        }
        proof {
            assert(nodes_view(r@) =~= active_from(self@.nodes, 0));
        }
        r
    }

    /// The entities the process consumes, in edge insertion order.
    pub fn get_process_resources(&self, pid: u32) -> (r: Vec<String>)
        ensures
            ids_view(r@) == resources_from(self@.edges, pid_node_id(None, pid), 0),
    {
        let scope: Option<String> = None;
        let pid_str = make_pid_id(&scope, pid);
        let n = self.edges.len();
        let mut r: Vec<String> = Vec::new();
        let mut i: usize = 0;
        while i < n
            invariant
                0 <= i <= n,
                n == self.edges@.len(),
                pid_str@ == pid_node_id(None, pid),
                resources_from(self@.edges, pid_str@, 0) == ids_view(r@) + resources_from(
                    self@.edges,
                    pid_str@,
                    i as int,
                ),
            decreases n - i,
        {
            let e = &self.edges[i];
            let ghost before = ids_view(r@);
            if e.edge_type == EdgeType::Consumes && str_eq(e.from.as_str(), pid_str.as_str()) {
                r.push(e.to.clone());
                proof {
                    assert(ids_view(r@) =~= before.push(self@.edges[i as int].to));
                    assert(before + (seq![self@.edges[i as int].to] + resources_from(
                        self@.edges,
                        pid_str@,
                        i + 1,
                    )) =~= ids_view(r@) + resources_from(self@.edges, pid_str@, i + 1));
                }
            }
            i = i + 1;
        }
        proof {
            assert(ids_view(r@) =~= resources_from(self@.edges, pid_str@, 0));
        }
        r
    }

    /// A borrowed view of every edge.
    pub fn all_edges(&self) -> (r: &Vec<Edge>)
        ensures
            edges_view(r@) == self@.edges,
    {
        &self.edges
    }

    /// A borrowed view of every node.
    pub fn all_nodes(&self) -> (r: &Vec<Node>)
        ensures
            nodes_view(r@) == self@.nodes,
    {
        &self.nodes
    }

    /// Appends an edge unless an equal one exists.
    fn add_edge(&mut self, kind: EdgeType, from: &String, to: &String, ts: u64)
        ensures
            final(self)@.edges == spec_add_edge(old(self)@.edges, kind, from@, to@, ts),
            final(self)@.nodes == old(self)@.nodes,
            final(self)@.error_window_ms == old(self)@.error_window_ms,
    {
        if !self.edge_present(kind, from, to) {
            self.edges.push(Edge { edge_type: kind, from: from.clone(), to: to.clone(), ts });
            proof {
                assert(edges_view(self.edges@) =~= spec_add_edge(
                    old(self)@.edges,
                    kind,
                    from@,
                    to@,
                    ts,
                ));
            }
        }
    }
}

} // verus!
