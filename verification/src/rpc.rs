//! The local RPC surface: length-prefixed framing, size limits, the
//! request vocabulary, and the assembly of responses from the graph.  The
//! socket transport and the JSON encoding live outside the crate; this
//! module owns every decision they act on.

use vstd::prelude::*;

use crate::graph::{
    active_from, kv_get, meta_get, resources_from, GraphModel, NodeModel, NodeType, StateGraph,
};
use crate::graph::{ids_view, nodes_view, pid_node_id};
use crate::strutil::{all_digits, digits_val, parse_u32, str_starts_with, starts_with_seq};

verus! {

/// The largest request body the server reads: 10 MiB.
pub const MAX_REQUEST_BYTES: u32 = 10 * 1024 * 1024;

/// The largest response body the client reads: 100 MiB.
pub const MAX_RESPONSE_BYTES: u32 = 100 * 1024 * 1024;

/// A request body of `n` bytes is served exactly when it does not exceed
/// the 10 MiB bound: the bound itself is still accepted, one byte more is
/// refused.
pub fn accepts_request(n: u32) -> (r: bool)
    ensures
        r <==> n <= MAX_REQUEST_BYTES,
{
    n <= MAX_REQUEST_BYTES
}

/// A response body of `n` bytes is read exactly when it does not exceed
/// the 100 MiB bound.
pub fn accepts_response(n: u32) -> (r: bool)
    ensures
        r <==> n <= MAX_RESPONSE_BYTES,
{
    n <= MAX_RESPONSE_BYTES
}

/// The big-endian bytes of a frame length.
pub open spec fn spec_frame_header(len: u32) -> Seq<u8> {
    seq![
        (len as int / 0x1000000 % 0x100) as u8,
        (len as int / 0x10000 % 0x100) as u8,
        (len as int / 0x100 % 0x100) as u8,
        (len as int % 0x100) as u8,
    ]
}

/// Encodes a frame length as its four-byte big-endian prefix.
pub fn encode_frame_header(len: u32) -> (r: Vec<u8>)
    ensures
        r@ == spec_frame_header(len),
{
    let mut r: Vec<u8> = Vec::new();
    r.push((len / 0x1000000 % 0x100) as u8);
    r.push((len / 0x10000 % 0x100) as u8);
    r.push((len / 0x100 % 0x100) as u8);
    r.push((len % 0x100) as u8);
    proof {
        assert(r@ =~= spec_frame_header(len));
    }
    r
}

/// The length a big-endian four-byte prefix encodes.
pub open spec fn spec_frame_len(b: Seq<u8>) -> int {
    b[0] * 0x1000000 + b[1] * 0x10000 + b[2] * 0x100 + b[3]
}

/// Decodes a four-byte big-endian length prefix.
pub fn decode_frame_header(b: &Vec<u8>) -> (r: u32)
    requires
        b@.len() == 4,
    ensures
        r as int == spec_frame_len(b@),
{
    let b0 = b[0] as u32;
    let b1 = b[1] as u32;
    let b2 = b[2] as u32;
    let b3 = b[3] as u32;
    b0 * 0x1000000 + b1 * 0x10000 + b2 * 0x100 + b3
}

/// A length survives the trip through its header unchanged.
pub proof fn lemma_frame_header_round_trip(len: u32)
    ensures
        spec_frame_len(spec_frame_header(len)) == len,
{
    let l = len as int;
    assert(l == (l / 0x1000000 % 0x100) * 0x1000000 + (l / 0x10000 % 0x100) * 0x10000 + (l / 0x100
        % 0x100) * 0x100 + l % 0x100) by (nonlinear_arith)
        requires
            0 <= l < 0x100000000,
    ;
}

/// The request vocabulary of the local RPC.
pub enum RpcRequest {
    ListProcesses,
    WhyProcess { pid: u32 },
    Ping,
}

/// The response envelope; `data` carries the encoded payload.
pub struct RpcResponse {
    pub success: bool,
    pub data: Option<String>,
    pub error: Option<String>,
}

impl RpcResponse {
    /// A successful envelope around a payload.
    pub fn success(data: String) -> (r: RpcResponse)
        ensures
            r.success,
            r.data matches Some(d) && d@ == data@,
            r.error is None,
    {
        RpcResponse { success: true, data: Some(data), error: None }
    }

    /// A failed envelope around a message.
    pub fn error(msg: String) -> (r: RpcResponse)
        ensures
            !r.success,
            r.data is None,
            r.error matches Some(e) && e@ == msg@,
    {
        RpcResponse { success: false, data: None, error: Some(msg) }
    }
}

/// One row of a `list_processes` response.
pub struct ProcessInfo {
    pub pid: u32,
    pub id: String,
    pub job_id: Option<String>,
    pub state: String,
    pub resources: Vec<String>,
    pub last_update: u64,
}

/// The pid a process node id encodes: the digits after `pid-`, or zero
/// when the id has another shape or the number does not fit.
pub open spec fn spec_pid_of_id(id: Seq<char>) -> u32 {
    if starts_with_seq(id, "pid-"@) && all_digits(id.skip(4)) && digits_val(id.skip(4))
        <= u32::MAX {
        digits_val(id.skip(4)) as u32
    } else {
        0
    }
}

/// Reads the pid out of a process node id.
pub fn pid_of_id(id: &String) -> (r: u32)
    ensures
        r == spec_pid_of_id(id@),
{
    if !str_starts_with(id.as_str(), "pid-") {
        return 0;
    }
    let len = id.as_str().unicode_len();
    proof {
        reveal_strlit("pid-");
    }
    let digits = id.as_str().substring_char(4, len);
    proof {
        assert(digits@ =~= id@.skip(4));
    }
    match parse_u32(digits) {
        Some(v) => v,
        None => 0,
    }
}

/// The `state` attribute a row reports: the node's, or `unknown`.
pub open spec fn spec_state_of(n: NodeModel) -> Seq<char> {
    match kv_get(n.metadata, "state"@) {
        Some(v) => v,
        None => "unknown"@,
    }
}

/// The rows of a `list_processes` answer are exactly the active
/// processes, in graph order: each row carries the pid its id encodes,
/// the job, the state, the last update, and the resources the process
/// consumes.
pub open spec fn rows_match(g: GraphModel, rows: Seq<ProcessInfo>) -> bool {
    let act = active_from(g.nodes, 0);
    &&& rows.len() == act.len()
    &&& forall|j: int|
        0 <= j < act.len() ==> {
            let row = #[trigger] rows[j];
            &&& row.id@ == act[j].id
            &&& row.pid == spec_pid_of_id(act[j].id)
            &&& crate::event::opt_string_view(row.job_id) == kv_get(act[j].metadata, "job_id"@)
            &&& row.state@ == spec_state_of(act[j])
            &&& row.last_update == act[j].last_update
            &&& ids_view(row.resources@) == resources_from(
                g.edges,
                pid_node_id(None, spec_pid_of_id(act[j].id)),
                0,
            )
        }
}

/// Builds the rows of a `list_processes` response.
pub fn list_processes(graph: &StateGraph) -> (r: Vec<ProcessInfo>)
    ensures
        rows_match(graph@, r@),
{
    let active = graph.get_active_processes();
    let n = active.len();
    let mut r: Vec<ProcessInfo> = Vec::new();
    let mut i: usize = 0;
    while i < n
        invariant
            0 <= i <= n,
            n == active@.len(),
            nodes_view(active@) == active_from(graph@.nodes, 0),
            r@.len() == i,
            forall|j: int|
                0 <= j < i ==> {
                    let row = #[trigger] r@[j];
                    let act = active_from(graph@.nodes, 0);
                    &&& row.id@ == act[j].id
                    &&& row.pid == spec_pid_of_id(act[j].id)
                    &&& crate::event::opt_string_view(row.job_id) == kv_get(
                        act[j].metadata,
                        "job_id"@,
                    )
                    &&& row.state@ == spec_state_of(act[j])
                    &&& row.last_update == act[j].last_update
                    &&& ids_view(row.resources@) == resources_from(
                        graph@.edges,
                        pid_node_id(None, spec_pid_of_id(act[j].id)),
                        0,
                    )
                },
        decreases n - i,
    {
        let node = &active[i];
        proof {
            assert(active_from(graph@.nodes, 0)[i as int] == active@[i as int]@);
        }
        let pid = pid_of_id(&node.id);
        let job_id = match meta_get(&node.metadata, "job_id") {
            Some(v) => Some(v.clone()),
            None => None,
        };
        let state = match meta_get(&node.metadata, "state") {
            Some(v) => v.clone(),
            None => String::from_str("unknown"),
        };
        let resources = graph.get_process_resources(pid);
        let row = ProcessInfo {
            pid,
            id: node.id.clone(),
            job_id,
            state,
            resources,
            last_update: node.last_update,
        };
        r.push(row);
        i = i + 1;
    }
    r
}

/// The structured outcome of one request, before encoding.
pub enum RpcOutcome {
    Processes { rows: Vec<ProcessInfo> },
    Causes { pid: u32, causes: Vec<String> },
    Pong,
}

/// Serves one parsed request from the graph.  `ping` always answers
/// `Pong`; `list_processes` returns the active rows; `why_process` runs
/// the root-cause search for the pid.
pub fn handle_request(request: &RpcRequest, graph: &StateGraph) -> (r: RpcOutcome)
    ensures
        match request {
            RpcRequest::Ping => r is Pong,
            RpcRequest::ListProcesses => r matches RpcOutcome::Processes { rows } && rows_match(
                graph@,
                rows@,
            ),
            RpcRequest::WhyProcess { pid } => r matches RpcOutcome::Causes {
                pid: p,
                causes,
            } && p == pid && crate::graph::direct_causes_in(
                graph@,
                pid_node_id(None, *pid),
                ids_view(causes@),
            ) && (forall|j: int|
                0 <= j < causes@.len() ==> crate::graph::valid_cause(
                    graph@,
                    #[trigger] ids_view(causes@)[j],
                )),
        },
{
    match request {
        RpcRequest::ListProcesses => RpcOutcome::Processes { rows: list_processes(graph) },
        RpcRequest::WhyProcess { pid } => {
            let causes = graph.find_root_cause(*pid);
            RpcOutcome::Causes { pid: *pid, causes }
        },
        RpcRequest::Ping => RpcOutcome::Pong,
    }
}

} // verus!
