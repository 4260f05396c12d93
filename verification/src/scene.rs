//! Scene identification and analysis: reading the causal graph around a
//! process to name the failure scene it is in, and producing the analysis
//! a remediation plan starts from.

use vstd::prelude::*;

use crate::graph::{
    find_node, has_node, ids_view, kv_get, meta_get, pid_node_id, EdgeModel, EdgeType, GraphModel,
    NodeType, StateGraph,
};
use crate::strutil::{
    contains_seq, lower_seq, spec_parse_milli, starts_with_seq, parse_decimal_milli, str_contains,
    str_contains_ci, str_eq, str_starts_with,
};

verus! {

/// The closed set of failure scenes.
#[derive(Clone, Copy, PartialEq, Eq, Structural, Debug)]
pub enum SceneType {
    GpuOom,
    GpuUtilLow,
    GpuError,
    NpuSubhealth,
    WorkloadStalled,
    NetworkStall,
    NetworkDrop,
    StorageIoError,
    StorageSlow,
    ProcessBlocked,
    ProcessCrash,
}

/// The tag each scene carries in rule files and reports.
pub open spec fn spec_scene_tag(s: SceneType) -> Seq<char> {
    match s {
        SceneType::GpuOom => "gpu_oom"@,
        SceneType::GpuUtilLow => "gpu_util_low"@,
        SceneType::GpuError => "gpu_error"@,
        SceneType::NpuSubhealth => "npu_subhealth"@,
        SceneType::WorkloadStalled => "workload_stalled"@,
        SceneType::NetworkStall => "network_stall"@,
        SceneType::NetworkDrop => "network_drop"@,
        SceneType::StorageIoError => "storage_io_error"@,
        SceneType::StorageSlow => "storage_slow"@,
        SceneType::ProcessBlocked => "process_blocked"@,
        SceneType::ProcessCrash => "process_crash"@,
    }
}

impl SceneType {
    /// The scene's tag.
    pub fn as_str(&self) -> (r: &'static str)
        ensures
            r@ == spec_scene_tag(*self),
    {
        match self {
            SceneType::GpuOom => "gpu_oom",
            SceneType::GpuUtilLow => "gpu_util_low",
            SceneType::GpuError => "gpu_error",
            SceneType::NpuSubhealth => "npu_subhealth",
            SceneType::WorkloadStalled => "workload_stalled",
            SceneType::NetworkStall => "network_stall",
            SceneType::NetworkDrop => "network_drop",
            SceneType::StorageIoError => "storage_io_error",
            SceneType::StorageSlow => "storage_slow",
            SceneType::ProcessBlocked => "process_blocked",
            SceneType::ProcessCrash => "process_crash",
        }
    }
}

/// How grave a scene is.
#[derive(Clone, Copy, PartialEq, Eq, Structural, Debug)]
pub enum Severity {
    Critical,
    Warning,
    Info,
}

/// The outcome of analysing one scene; confidence in thousandths.
pub struct AnalysisResult {
    pub scene: SceneType,
    pub root_causes: Vec<String>,
    pub confidence: i64,
    pub recommendations: Vec<String>,
    pub recommended_actions: Vec<String>,
    pub severity: Severity,
}

// ---------------------------------------------------------------------------
// Scene identification from the graph.
// ---------------------------------------------------------------------------

/// What one `BlockedBy` edge out of the process says about the scene.
pub open spec fn edge_blocked_scene(g: GraphModel, e: EdgeModel, pid_id: Seq<char>) -> Option<SceneType> {
    if e.edge_type == EdgeType::BlockedBy && e.from == pid_id && has_node(g.nodes, e.to) {
        let n = g.nodes[find_node(g.nodes, e.to)];
        if contains_seq(n.id, "gpu"@) {
            match kv_get(n.metadata, "error_type"@) {
                Some(et) => {
                    if contains_seq(et, "OOM"@) || contains_seq(et, "out of memory"@) {
                        Some(SceneType::GpuOom)
                    } else if contains_seq(et, "error"@) || contains_seq(et, "XID"@) {
                        Some(SceneType::GpuError)
                    } else {
                        npu_check(n)
                    }
                },
                None => npu_check(n),
            }
        } else {
            npu_check(n)
        }
    } else {
        None
    }
}

/// The accelerator sub-health check on a blocking node.
pub open spec fn npu_check(n: crate::graph::NodeModel) -> Option<SceneType> {
    if contains_seq(n.id, "npu"@) || contains_seq(n.id, "ascend"@) {
        if (kv_get(n.metadata, "temperature"@) matches Some(t) && spec_parse_milli(t) matches Some(
            v,
        ) && v > 85000) || kv_get(n.metadata, "hccs_lane_status"@) == Some("degraded"@) {
            Some(SceneType::NpuSubhealth)
        } else {
            None
        }
    } else {
        None
    }
}

/// The first scene a `BlockedBy` edge names, scanning from `j`.
pub open spec fn scene_from_blocked(g: GraphModel, pid_id: Seq<char>, j: int) -> Option<SceneType>
    decreases g.edges.len() - j,
{
    if j < 0 || j >= g.edges.len() {
        None
    } else {
        match edge_blocked_scene(g, g.edges[j], pid_id) {
            Some(s) => Some(s),
            None => scene_from_blocked(g, pid_id, j + 1),
        }
    }
}

/// What one `WaitsOn` edge says: a wait on anything network-like is a
/// network stall.
pub open spec fn edge_waits_scene(e: EdgeModel, pid_id: Seq<char>) -> Option<SceneType> {
    if e.edge_type == EdgeType::WaitsOn && e.from == pid_id && (starts_with_seq(e.to, "network-"@)
        || contains_seq(e.to, "net"@)) {
        Some(SceneType::NetworkStall)
    } else {
        None
    }
}

/// The first scene a `WaitsOn` edge names, scanning from `j`.
pub open spec fn scene_from_waits(g: GraphModel, pid_id: Seq<char>, j: int) -> Option<SceneType>
    decreases g.edges.len() - j,
{
    if j < 0 || j >= g.edges.len() {
        None
    } else {
        match edge_waits_scene(g.edges[j], pid_id) {
            Some(s) => Some(s),
            None => scene_from_waits(g, pid_id, j + 1),
        }
    }
}

/// How many `Consumes` edges leave the process, scanning from `j`.
pub open spec fn consumes_count(g: GraphModel, pid_id: Seq<char>, j: int) -> int
    decreases g.edges.len() - j,
{
    if j < 0 || j >= g.edges.len() {
        0
    } else if g.edges[j].edge_type == EdgeType::Consumes && g.edges[j].from == pid_id {
        1 + consumes_count(g, pid_id, j + 1)
    } else {
        consumes_count(g, pid_id, j + 1)
    }
}

/// A consumed resource reads as idle: its node exists and its `util`
/// parses below one percent.
pub open spec fn edge_low_util(g: GraphModel, e: EdgeModel, pid_id: Seq<char>) -> bool {
    e.edge_type == EdgeType::Consumes && e.from == pid_id && has_node(g.nodes, e.to) && (kv_get(
        g.nodes[find_node(g.nodes, e.to)].metadata,
        "util"@,
    ) matches Some(u) && spec_parse_milli(u) matches Some(v) && v < 1000)
}

/// How many consumed resources read as idle, scanning from `j`.
pub open spec fn low_util_count(g: GraphModel, pid_id: Seq<char>, j: int) -> int
    decreases g.edges.len() - j,
{
    if j < 0 || j >= g.edges.len() {
        0
    } else if edge_low_util(g, g.edges[j], pid_id) {
        1 + low_util_count(g, pid_id, j + 1)
    } else {
        low_util_count(g, pid_id, j + 1)
    }
}

/// The process waits on network or storage somewhere.
pub open spec fn has_io_wait(g: GraphModel, pid_id: Seq<char>) -> bool {
    exists|j: int|
        0 <= j < g.edges.len() && (#[trigger] g.edges[j]).edge_type == EdgeType::WaitsOn
            && g.edges[j].from == pid_id && (contains_seq(g.edges[j].to, "network"@) || contains_seq(
            g.edges[j].to,
            "storage"@,
        ))
}

/// What the process node's own state says.
pub open spec fn state_scene(g: GraphModel, pid_id: Seq<char>) -> Option<SceneType> {
    if has_node(g.nodes, pid_id) {
        let n = g.nodes[find_node(g.nodes, pid_id)];
        match kv_get(n.metadata, "state"@) {
            Some(st) => {
                if st == "exit"@ || st == "crash"@ || st == "failed"@ {
                    Some(SceneType::ProcessCrash)
                } else if st == "blocked"@ || st == "waiting"@ {
                    Some(SceneType::ProcessBlocked)
                } else if st == "running"@ {
                    if consumes_count(g, pid_id, 0) > 0 && low_util_count(g, pid_id, 0)
                        == consumes_count(g, pid_id, 0) && !has_io_wait(g, pid_id) {
                        Some(SceneType::WorkloadStalled)
                    } else {
                        None
                    }
                } else {
                    None
                }
            },
            None => None,
        }
    } else {
        None
    }
}

/// The scene the graph names for a process: a blocking error first, then
/// a network wait, then what the process state itself shows.
pub open spec fn spec_identify_scene(g: GraphModel, pid_id: Seq<char>) -> Option<SceneType> {
    match scene_from_blocked(g, pid_id, 0) {
        Some(s) => Some(s),
        None => match scene_from_waits(g, pid_id, 0) {
            Some(s) => Some(s),
            None => state_scene(g, pid_id),
        },
    }
}

/// Identifies scenes and produces analyses from the graph.
pub struct SceneIdentifier;

impl SceneIdentifier {
    pub fn new() -> (r: SceneIdentifier) {
        SceneIdentifier
    }

    /// Decides what `edge_blocked_scene` decides for the edge at `j`.
    #[verifier::loop_isolation(false)]
    fn blocked_scene_at(&self, graph: &StateGraph, j: usize, pid_str: &String) -> (r: Option<
        SceneType,
    >)
        requires
            j < graph@.edges.len(),
        ensures
            r == edge_blocked_scene(graph@, graph@.edges[j as int], pid_str@),
    {
        let edges = graph.all_edges();
        let nodes = graph.all_nodes();
        let e = &edges[j];
        proof {
            assert(graph@.edges[j as int] == edges@[j as int]@);
        }
        if !(e.edge_type == EdgeType::BlockedBy && str_eq(e.from.as_str(), pid_str.as_str())) {
            return None;
        }
        let idx = match crate::graph::find_node_idx(graph.all_nodes(), e.to.as_str()) {
            Some(idx) => idx,
            None => {
                return None;
            },
        };
        proof {
            crate::graph::lemma_find_from(graph@.nodes, graph@.edges[j as int].to, 0);
        }
        let node = &nodes[idx];
        proof {
            assert(graph@.nodes[idx as int] == nodes@[idx as int]@);
        }
        if str_contains(node.id.as_str(), "gpu") {
            match meta_get(&node.metadata, "error_type") {
                Some(et) => {
                    if str_contains(et.as_str(), "OOM") || str_contains(
                        et.as_str(),
                        "out of memory",
                    ) {
                        return Some(SceneType::GpuOom);
                    } else if str_contains(et.as_str(), "error") || str_contains(
                        et.as_str(),
                        "XID",
                    ) {
                        return Some(SceneType::GpuError);
                    }
                },
                None => {},
            }
        }
        // Accelerator sub-health.
        if str_contains(node.id.as_str(), "npu") || str_contains(node.id.as_str(), "ascend") {
            let hot: bool = match meta_get(&node.metadata, "temperature") {
                Some(t) => match parse_decimal_milli(t.as_str()) {
                    Some(v) => v > 85000,
                    None => false,
                },
                None => false,
            };
            let degraded: bool = match meta_get(&node.metadata, "hccs_lane_status") {
                Some(s) => str_eq(s.as_str(), "degraded"),
                None => false,
            };
            if hot || degraded {
                return Some(SceneType::NpuSubhealth);
            }
        }
        None
    }

    /// Names the scene a process is in, if the graph shows one.
    #[verifier::loop_isolation(false)]
    pub fn identify_scene(&self, graph: &StateGraph, pid: u32) -> (r: Option<SceneType>)
        ensures
            r == spec_identify_scene(graph@, pid_node_id(None, pid)),
    {
        let scope: Option<String> = None;
        let pid_str = crate::graph::make_pid_id(&scope, pid);
        let edges = graph.all_edges();
        let n = edges.len();

        // Blocking errors win.
        let mut j: usize = 0;
        while j < n
            invariant
                0 <= j <= n,
                scene_from_blocked(graph@, pid_str@, 0) == scene_from_blocked(
                    graph@,
                    pid_str@,
                    j as int,
                ),
            decreases n - j,
        {
            match self.blocked_scene_at(graph, j, &pid_str) {
                Some(s) => {
                    return Some(s);
                },
                None => {},
            }
            j = j + 1;
        }

        // Then network waits.
        let mut k: usize = 0;
        while k < n
            invariant
                0 <= k <= n,
                scene_from_blocked(graph@, pid_str@, 0) is None,
                scene_from_waits(graph@, pid_str@, 0) == scene_from_waits(
                    graph@,
                    pid_str@,
                    k as int,
                ),
            decreases n - k,
        {
            let e = &edges[k];
            proof {
                assert(graph@.edges[k as int] == edges@[k as int]@);
            }
            if e.edge_type == EdgeType::WaitsOn && str_eq(e.from.as_str(), pid_str.as_str()) && (
            str_starts_with(e.to.as_str(), "network-") || str_contains(e.to.as_str(), "net")) {
                assert(edge_waits_scene(graph@.edges[k as int], pid_str@) == Some(
                    SceneType::NetworkStall,
                ));
                return Some(SceneType::NetworkStall);
            }
            assert(edge_waits_scene(graph@.edges[k as int], pid_str@) is None);
            k = k + 1;
        }

        // Finally the process state itself.
        let idx = match crate::graph::find_node_idx(graph.all_nodes(), pid_str.as_str()) {
            Some(idx) => idx,
            None => {
                return None;
            },
        };
        proof {
            crate::graph::lemma_find_from(graph@.nodes, pid_str@, 0);
        }
        let nodes = graph.all_nodes();
        let node = &nodes[idx];
        proof {
            assert(graph@.nodes[idx as int] == nodes@[idx as int]@);
        }
        let st = match meta_get(&node.metadata, "state") {
            Some(v) => v,
            None => {
                return None;
            },
        };
        if str_eq(st.as_str(), "exit") || str_eq(st.as_str(), "crash") || str_eq(
            st.as_str(),
            "failed",
        ) {
            return Some(SceneType::ProcessCrash);
        }
        if str_eq(st.as_str(), "blocked") || str_eq(st.as_str(), "waiting") {
            return Some(SceneType::ProcessBlocked);
        }
        if !str_eq(st.as_str(), "running") {
            return None;
        }

        // A running process with every resource idle and no I/O wait has
        // stalled.
        let mut total: u64 = 0;
        let mut low: u64 = 0;
        let mut io_wait = false;
        let mut c: usize = 0;
        while c < n
            invariant
                0 <= c <= n,
                total <= c,
                low <= c,
                consumes_count(graph@, pid_str@, 0) == total + consumes_count(
                    graph@,
                    pid_str@,
                    c as int,
                ),
                low_util_count(graph@, pid_str@, 0) == low + low_util_count(
                    graph@,
                    pid_str@,
                    c as int,
                ),
                io_wait == exists|j2: int|
                    0 <= j2 < c && (#[trigger] graph@.edges[j2]).edge_type == EdgeType::WaitsOn
                        && graph@.edges[j2].from == pid_str@ && (contains_seq(
                        graph@.edges[j2].to,
                        "network"@,
                    ) || contains_seq(graph@.edges[j2].to, "storage"@)),
            decreases n - c,
        {
            let e = &edges[c];
            proof {
                assert(graph@.edges[c as int] == edges@[c as int]@);
            }
            if e.edge_type == EdgeType::Consumes && str_eq(e.from.as_str(), pid_str.as_str()) {
                total = total + 1;
                let is_low: bool = match crate::graph::find_node_idx(graph.all_nodes(), e.to.as_str()) {
                    Some(ti) => {
                        proof {
                            crate::graph::lemma_find_from(graph@.nodes, graph@.edges[c as int].to, 0);
                            assert(graph@.nodes[ti as int] == nodes@[ti as int]@);
                        }
                        match meta_get(&nodes[ti].metadata, "util") {
                            Some(u) => match parse_decimal_milli(u.as_str()) {
                                Some(v) => v < 1000,
                                None => false,
                            },
                            None => false,
                        }
                    },
                    None => false,
                };
                assert(is_low == edge_low_util(graph@, graph@.edges[c as int], pid_str@));
                if is_low {
                    low = low + 1;
                }
            } else {
                assert(!edge_low_util(graph@, graph@.edges[c as int], pid_str@));
            }
            if e.edge_type == EdgeType::WaitsOn && str_eq(e.from.as_str(), pid_str.as_str()) && (
            str_contains(e.to.as_str(), "network") || str_contains(e.to.as_str(), "storage")) {
                io_wait = true;
            }
            c = c + 1;
        }
        assert(io_wait == has_io_wait(graph@, pid_str@));
        if total > 0 && low == total && !io_wait {
            Some(SceneType::WorkloadStalled)
        } else {
            None
        }
    }
}

} // verus!

// ---------------------------------------------------------------------------
// Scene analysis.
// ---------------------------------------------------------------------------

verus! {

/// How grave each scene is taken to be.
pub open spec fn scene_severity(s: SceneType) -> Severity {
    match s {
        SceneType::GpuOom => Severity::Critical,
        SceneType::GpuError => Severity::Critical,
        SceneType::ProcessCrash => Severity::Critical,
        SceneType::StorageIoError => Severity::Critical,
        _ => Severity::Warning,
    }
}

/// The fixed advice shown for each scene.
pub open spec fn scene_recommendations(s: SceneType) -> Seq<Seq<char>> {
    match s {
        SceneType::GpuOom => seq![
            "check accelerator memory usage"@,
            "consider a smaller batch size or lower precision"@,
        ],
        SceneType::NetworkStall => seq![
            "check network bandwidth usage"@,
            "check drop and retransmit counters"@,
        ],
        SceneType::StorageIoError | SceneType::StorageSlow => seq![
            "check device health counters"@,
            "check queue depth and latency"@,
        ],
        SceneType::ProcessCrash => seq!["inspect the exit status and recent logs"@],
        _ => seq!["inspect the process and its resources"@],
    }
}

/// The remediation texts each scene recommends; these feed the keyword
/// table of the plan builder.
pub open spec fn scene_actions(s: SceneType) -> Seq<Seq<char>> {
    match s {
        SceneType::GpuOom => seq![
            "trigger a checkpoint dump signal (SIGUSR1)"@,
            "isolate the node and zap the leftover process tree"@,
        ],
        SceneType::NetworkStall => seq![
            "check switch flow-control configuration"@,
            "check fabric link state"@,
        ],
        SceneType::WorkloadStalled => seq![
            "zap the process if it is confirmed stuck"@,
            "check whether a usable checkpoint exists"@,
        ],
        _ => seq!["zap the process"@],
    }
}

/// The fallback cause named when the graph shows nothing direct.
pub open spec fn scene_default_cause(s: SceneType) -> Seq<char> {
    match s {
        SceneType::GpuOom => "accelerator memory is likely exhausted"@,
        SceneType::NetworkStall => "the network path is likely congested"@,
        SceneType::StorageIoError => "the storage device is likely failing"@,
        SceneType::StorageSlow => "the storage device is likely saturated"@,
        SceneType::ProcessCrash => "the process ended abnormally"@,
        _ => "no direct cause recorded in the graph"@,
    }
}

/// The cause lines the graph yields for a target, scanning from `j`:
/// one per edge leaving it, blocking errors and waits alike.
pub open spec fn analysis_causes_from(g: GraphModel, target: Seq<char>, j: int) -> Seq<Seq<char>>
    decreases g.edges.len() - j,
{
    if j < 0 || j >= g.edges.len() {
        Seq::empty()
    } else if g.edges[j].edge_type == EdgeType::BlockedBy && g.edges[j].from == target {
        seq!["blocked by "@ + g.edges[j].to] + analysis_causes_from(g, target, j + 1)
    } else if g.edges[j].edge_type == EdgeType::WaitsOn && g.edges[j].from == target {
        seq!["waiting on resource: "@ + g.edges[j].to] + analysis_causes_from(g, target, j + 1)
    } else {
        analysis_causes_from(g, target, j + 1)
    }
}

/// What every analysis of a scene must report: its scene and severity,
/// the fixed advice, the causes the graph shows (or the scene's fallback),
/// and a confidence that reflects whether the graph showed anything.
pub open spec fn analysis_matches(r: AnalysisResult, g: GraphModel, target: Seq<char>, s: SceneType) -> bool {
    let cs = analysis_causes_from(g, target, 0);
    &&& r.scene == s
    &&& r.severity == scene_severity(s)
    &&& ids_view(r.recommendations@) == scene_recommendations(s)
    &&& ids_view(r.recommended_actions@) == scene_actions(s)
    &&& ids_view(r.root_causes@) == (if cs.len() > 0 {
        cs
    } else {
        seq![scene_default_cause(s)]
    })
    &&& r.confidence == (if cs.len() > 0 {
        850int
    } else {
        600int
    })
}

/// Pushes each literal of a fixed advice list.
fn push_texts(dst: &mut Vec<String>, a: &str, b: Option<&str>)
    ensures
        ids_view(final(dst)@) == (match b {
            Some(bs) => old(dst)@.map_values(|s: String| s@).push(a@).push(bs@),
            None => old(dst)@.map_values(|s: String| s@).push(a@),
        }),
{
    let ghost before = ids_view(dst@);
    dst.push(a.to_owned());
    proof {
        assert(ids_view(dst@) =~= before.push(a@));
    }
    match b {
        Some(bs) => {
            let ghost mid = ids_view(dst@);
            dst.push(bs.to_owned());
            proof {
                assert(ids_view(dst@) =~= mid.push(bs@));
            }
        },
        None => {},
    }
}

/// Builds the analysis of a scene from the graph.
#[verifier::loop_isolation(false)]
pub fn analysis_for(scene: SceneType, graph: &StateGraph, target: &String) -> (r: AnalysisResult)
    ensures
        analysis_matches(r, graph@, target@, scene),
{
    let edges = graph.all_edges();
    let n = edges.len();
    let ghost cs = analysis_causes_from(graph@, target@, 0);

    let mut causes: Vec<String> = Vec::new();
    let mut j: usize = 0;
    while j < n
        invariant
            0 <= j <= n,
            cs == ids_view(causes@) + analysis_causes_from(graph@, target@, j as int),
        decreases n - j,
    {
        let e = &edges[j];
        proof {
            assert(graph@.edges[j as int] == edges@[j as int]@);
        }
        let ghost before = ids_view(causes@);
        if e.edge_type == EdgeType::BlockedBy && str_eq(e.from.as_str(), target.as_str()) {
            let line = String::from_str("blocked by ").concat(e.to.as_str());
            proof {
                assert(line@ =~= "blocked by "@ + graph@.edges[j as int].to);
            }
            causes.push(line);
            proof {
                assert(ids_view(causes@) =~= before.push("blocked by "@ + graph@.edges[j as int].to));
                assert(before + (seq!["blocked by "@ + graph@.edges[j as int].to]
                    + analysis_causes_from(graph@, target@, j + 1)) =~= ids_view(causes@)
                    + analysis_causes_from(graph@, target@, j + 1));
            }
        } else if e.edge_type == EdgeType::WaitsOn && str_eq(e.from.as_str(), target.as_str()) {
            let line = String::from_str("waiting on resource: ").concat(e.to.as_str());
            proof {
                assert(line@ =~= "waiting on resource: "@ + graph@.edges[j as int].to);
            }
            causes.push(line);
            proof {
                assert(ids_view(causes@) =~= before.push(
                    "waiting on resource: "@ + graph@.edges[j as int].to,
                ));
                assert(before + (seq!["waiting on resource: "@ + graph@.edges[j as int].to]
                    + analysis_causes_from(graph@, target@, j + 1)) =~= ids_view(causes@)
                    + analysis_causes_from(graph@, target@, j + 1));
            }
        }
        j = j + 1;
    }
    proof {
        assert(cs =~= ids_view(causes@));
    }

    let found = causes.len() > 0;
    let confidence: i64 = if found {
        850
    } else {
        600
    };
    if !found {
        let fallback: &str = match scene {
            SceneType::GpuOom => "accelerator memory is likely exhausted",
            SceneType::NetworkStall => "the network path is likely congested",
            SceneType::StorageIoError => "the storage device is likely failing",
            SceneType::StorageSlow => "the storage device is likely saturated",
            SceneType::ProcessCrash => "the process ended abnormally",
            _ => "no direct cause recorded in the graph",
        };
        assert(fallback@ == scene_default_cause(scene));
        let ghost before = ids_view(causes@);
        causes.push(fallback.to_owned());
        proof {
            assert(ids_view(causes@) =~= before.push(scene_default_cause(scene)));
            assert(ids_view(causes@) =~= seq![scene_default_cause(scene)]);
        }
    }

    let mut recommendations: Vec<String> = Vec::new();
    match scene {
        SceneType::GpuOom => push_texts(
            &mut recommendations,
            "check accelerator memory usage",
            Some("consider a smaller batch size or lower precision"),
        ),
        SceneType::NetworkStall => push_texts(
            &mut recommendations,
            "check network bandwidth usage",
            Some("check drop and retransmit counters"),
        ),
        SceneType::StorageIoError | SceneType::StorageSlow => push_texts(
            &mut recommendations,
            "check device health counters",
            Some("check queue depth and latency"),
        ),
        SceneType::ProcessCrash => push_texts(
            &mut recommendations,
            "inspect the exit status and recent logs",
            None,
        ),
        _ => push_texts(&mut recommendations, "inspect the process and its resources", None),
    }
    proof {
        assert(ids_view(recommendations@) =~= scene_recommendations(scene));
    }

    let mut actions: Vec<String> = Vec::new();
    match scene {
        SceneType::GpuOom => push_texts(
            &mut actions,
            "trigger a checkpoint dump signal (SIGUSR1)",
            Some("isolate the node and zap the leftover process tree"),
        ),
        SceneType::NetworkStall => push_texts(
            &mut actions,
            "check switch flow-control configuration",
            Some("check fabric link state"),
        ),
        SceneType::WorkloadStalled => push_texts(
            &mut actions,
            "zap the process if it is confirmed stuck",
            Some("check whether a usable checkpoint exists"),
        ),
        _ => push_texts(&mut actions, "zap the process", None),
    }
    proof {
        assert(ids_view(actions@) =~= scene_actions(scene));
    }

    AnalysisResult {
        scene,
        root_causes: causes,
        confidence,
        recommendations,
        recommended_actions: actions,
        severity: match scene {
            SceneType::GpuOom | SceneType::GpuError | SceneType::ProcessCrash
                | SceneType::StorageIoError => Severity::Critical,
            _ => Severity::Warning,
        },
    }
}

impl SceneIdentifier {
    /// Analyses a scene for a process; scenes without an analyser yield
    /// nothing.
    pub fn analyze_scene(&self, scene: SceneType, graph: &StateGraph, pid: u32) -> (r: Option<
        AnalysisResult,
    >)
        ensures
            match r {
                Some(a) => analysis_matches(a, graph@, pid_node_id(None, pid), scene),
                None => scene == SceneType::GpuError || scene == SceneType::NetworkDrop || scene
                    == SceneType::ProcessBlocked,
            },
    {
        let scope: Option<String> = None;
        let pid_str = crate::graph::make_pid_id(&scope, pid);
        match scene {
            SceneType::GpuError | SceneType::NetworkDrop | SceneType::ProcessBlocked => None,
            _ => Some(analysis_for(scene, graph, &pid_str)),
        }
    }
}

/// The analyser of accelerator out-of-memory scenes.
pub struct GpuOomAnalyzer;

/// The analyser of idle-accelerator scenes.
pub struct GpuUtilLowAnalyzer;

/// The analyser of network stalls.
pub struct NetworkStallAnalyzer;

/// The analyser of storage failures.
pub struct StorageIoErrorAnalyzer;

/// The analyser of saturated storage.
pub struct StorageSlowAnalyzer;

/// The analyser of accelerator sub-health.
pub struct NpuSubhealthAnalyzer;

/// The analyser of crashed processes.
pub struct ProcessCrashAnalyzer;

/// The analyser of silent checkpoints; a stalled workload in disguise.
pub struct CheckpointTimeoutAnalyzer;

/// The analyser of stalled workloads.
pub struct WorkloadStalledAnalyzer;

impl GpuOomAnalyzer {
    pub fn analyze(&self, graph: &StateGraph, target: &String) -> (r: AnalysisResult)
        ensures
            analysis_matches(r, graph@, target@, SceneType::GpuOom),
    {
        analysis_for(SceneType::GpuOom, graph, target)
    }
}

impl GpuUtilLowAnalyzer {
    pub fn analyze(&self, graph: &StateGraph, target: &String) -> (r: AnalysisResult)
        ensures
            analysis_matches(r, graph@, target@, SceneType::GpuUtilLow),
    {
        analysis_for(SceneType::GpuUtilLow, graph, target)
    }
}

impl NetworkStallAnalyzer {
    pub fn analyze(&self, graph: &StateGraph, target: &String) -> (r: AnalysisResult)
        ensures
            analysis_matches(r, graph@, target@, SceneType::NetworkStall),
    {
        analysis_for(SceneType::NetworkStall, graph, target)
    }
}

impl StorageIoErrorAnalyzer {
    pub fn analyze(&self, graph: &StateGraph, target: &String) -> (r: AnalysisResult)
        ensures
            analysis_matches(r, graph@, target@, SceneType::StorageIoError),
    {
        analysis_for(SceneType::StorageIoError, graph, target)
    }
}

impl StorageSlowAnalyzer {
    pub fn analyze(&self, graph: &StateGraph, target: &String) -> (r: AnalysisResult)
        ensures
            analysis_matches(r, graph@, target@, SceneType::StorageSlow),
    {
        analysis_for(SceneType::StorageSlow, graph, target)
    }
}

impl NpuSubhealthAnalyzer {
    pub fn analyze(&self, graph: &StateGraph, target: &String) -> (r: AnalysisResult)
        ensures
            analysis_matches(r, graph@, target@, SceneType::NpuSubhealth),
    {
        analysis_for(SceneType::NpuSubhealth, graph, target)
    }
}

impl ProcessCrashAnalyzer {
    pub fn analyze(&self, graph: &StateGraph, target: &String) -> (r: AnalysisResult)
        ensures
            analysis_matches(r, graph@, target@, SceneType::ProcessCrash),
    {
        analysis_for(SceneType::ProcessCrash, graph, target)
    }
}

impl CheckpointTimeoutAnalyzer {
    pub fn analyze(&self, graph: &StateGraph, target: &String) -> (r: AnalysisResult)
        ensures
            analysis_matches(r, graph@, target@, SceneType::WorkloadStalled),
    {
        analysis_for(SceneType::WorkloadStalled, graph, target)
    }
}

impl WorkloadStalledAnalyzer {
    pub fn analyze(&self, graph: &StateGraph, target: &String) -> (r: AnalysisResult)
        ensures
            analysis_matches(r, graph@, target@, SceneType::WorkloadStalled),
    {
        analysis_for(SceneType::WorkloadStalled, graph, target)
    }
}

// ---------------------------------------------------------------------------
// Scene identification from cause texts alone.
// ---------------------------------------------------------------------------

/// What one cause line suggests.
pub open spec fn cause_scene(c: Seq<char>) -> Option<SceneType> {
    let l = lower_seq(c);
    if contains_seq(l, lower_seq("gpu"@)) && contains_seq(l, lower_seq("oom"@)) {
        Some(SceneType::GpuOom)
    } else if contains_seq(l, lower_seq("network"@)) {
        Some(SceneType::NetworkStall)
    } else if contains_seq(l, lower_seq("storage"@)) {
        Some(SceneType::StorageIoError)
    } else if contains_seq(l, lower_seq("crash"@)) {
        Some(SceneType::ProcessCrash)
    } else {
        None
    }
}

/// The scene the first conclusive cause line names, scanning from `i`.
pub open spec fn scene_from_causes(cs: Seq<Seq<char>>, i: int) -> Option<SceneType>
    decreases cs.len() - i,
{
    if i < 0 || i >= cs.len() {
        None
    } else {
        match cause_scene(cs[i]) {
            Some(s) => Some(s),
            None => scene_from_causes(cs, i + 1),
        }
    }
}

/// Names a scene from root-cause texts alone; inconclusive causes fall
/// back to a stalled workload.
pub fn identify_scene_from_causes(causes: &Vec<String>) -> (r: Option<SceneType>)
    ensures
        r == Some(
            match scene_from_causes(causes@.map_values(|s: String| s@), 0) {
                Some(s) => s,
                None => SceneType::WorkloadStalled,
            },
        ),
{
    let ghost cs = causes@.map_values(|s: String| s@);
    let n = causes.len();
    let mut i: usize = 0;
    while i < n
        invariant
            0 <= i <= n,
            n == causes@.len(),
            cs == causes@.map_values(|s: String| s@),
            scene_from_causes(cs, 0) == scene_from_causes(cs, i as int),
        decreases n - i,
    {
        let c = causes[i].as_str();
        let hit: Option<SceneType> = if str_contains_ci(c, "gpu") && str_contains_ci(c, "oom") {
            Some(SceneType::GpuOom)
        } else if str_contains_ci(c, "network") {
            Some(SceneType::NetworkStall)
        } else if str_contains_ci(c, "storage") {
            Some(SceneType::StorageIoError)
        } else if str_contains_ci(c, "crash") {
            Some(SceneType::ProcessCrash)
        } else {
            None
        };
        assert(hit == cause_scene(cs[i as int]));
        match hit {
            Some(s) => {
                return Some(s);
            },
            None => {},
        }
        i = i + 1;
    }
    Some(SceneType::WorkloadStalled)
}

/// Wraps cause texts into an analysis for a scene named without graph
/// access: the causes stand as given, the scene's actions are attached,
/// and the confidence is the fixed seven tenths such a guess carries.
pub fn create_analysis_from_causes(scene: SceneType, causes: &Vec<String>) -> (r: AnalysisResult)
    ensures
        r.scene == scene,
        ids_view(r.root_causes@) == causes@.map_values(|s: String| s@),
        ids_view(r.recommended_actions@) == scene_actions(scene),
        r.confidence == 700,
        r.severity == Severity::Warning,
{
    let n = causes.len();
    let mut rc: Vec<String> = Vec::new();
    let mut i: usize = 0;
    while i < n
        invariant
            0 <= i <= n,
            n == causes@.len(),
            rc@.len() == i,
            forall|j: int| 0 <= j < i ==> ids_view(rc@)[j] == causes@.map_values(
                |s: String| s@,
            )[j],
        decreases n - i,
    {
        let ghost before = ids_view(rc@);
        rc.push(causes[i].clone());
        proof {
            assert(ids_view(rc@) =~= before.push(causes@[i as int]@));
        }
        i = i + 1;
    }
    proof {
        assert(ids_view(rc@) =~= causes@.map_values(|s: String| s@));
    }
    let mut actions: Vec<String> = Vec::new();
    match scene {
        SceneType::GpuOom => push_texts(
            &mut actions,
            "trigger a checkpoint dump signal (SIGUSR1)",
            Some("isolate the node and zap the leftover process tree"),
        ),
        SceneType::NetworkStall => push_texts(
            &mut actions,
            "check switch flow-control configuration",
            Some("check fabric link state"),
        ),
        SceneType::WorkloadStalled => push_texts(
            &mut actions,
            "zap the process if it is confirmed stuck",
            Some("check whether a usable checkpoint exists"),
        ),
        _ => push_texts(&mut actions, "zap the process", None),
    }
    proof {
        assert(ids_view(actions@) =~= scene_actions(scene));
    }
    let mut recommendations: Vec<String> = Vec::new();
    push_texts(&mut recommendations, "follow the root causes and run the recommended actions", None);
    AnalysisResult {
        scene,
        root_causes: rc,
        confidence: 700,
        recommendations,
        recommended_actions: actions,
        severity: Severity::Warning,
    }
}

} // verus!
