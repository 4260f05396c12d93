//! The causal graph: ingest, fan-out, expiry, root causes.

use xctl::event::{Event, EventType};
use xctl::graph::{EdgeType, StateGraph};

fn ev(
    ts: u64,
    event_type: EventType,
    entity_id: &str,
    value: &str,
    job_id: Option<&str>,
    pid: Option<u32>,
) -> Event {
    Event {
        ts,
        event_type,
        entity_id: entity_id.to_string(),
        job_id: job_id.map(|s| s.to_string()),
        pid,
        value: value.to_string(),
        node_id: None,
    }
}

fn blocked_by_gpu_error() -> StateGraph {
    let mut g = StateGraph::new();
    g.process_event(&ev(1000, EventType::ProcessState, "proc-1", "start", Some("job-A"), Some(1)))
        .unwrap();
    g.process_event(&ev(1010, EventType::ComputeUtil, "gpu-0", "90", None, Some(1))).unwrap();
    g.process_event(&ev(1020, EventType::ErrorHw, "gpu-0", "XID_79", None, None)).unwrap();
    g
}

#[test]
fn blocked_by_gpu_error_names_the_error() {
    let g = blocked_by_gpu_error();
    let causes = g.find_root_cause(1);
    assert!(causes.iter().any(|c| c.as_str() == "error-gpu-0: XID_79"));
}

#[test]
fn network_stall_names_the_resource() {
    let mut g = StateGraph::new();
    g.process_event(&ev(2000, EventType::ProcessState, "proc-2", "start", None, Some(2))).unwrap();
    g.process_event(&ev(2010, EventType::TransportDrop, "mlx5_0", "7", None, Some(2))).unwrap();
    let causes = g.find_root_cause(2);
    assert!(causes.iter().any(|c| c.as_str() == "waiting on resource: mlx5_0"));
}

#[test]
fn exit_cleans_every_edge() {
    let mut g = blocked_by_gpu_error();
    g.process_event(&ev(1100, EventType::ProcessState, "proc-1", "exit", None, Some(1))).unwrap();
    let active = g.get_active_processes();
    assert!(active.iter().all(|n| n.id.as_str() != "pid-1"));
    let edges = g.all_edges();
    assert!(edges.iter().all(|e| e.from.as_str() != "pid-1" && e.to.as_str() != "pid-1"));
}

#[test]
fn errors_expire_after_the_window() {
    let mut g = blocked_by_gpu_error();
    // Five minutes after the error's own timestamp, plus one.
    g.process_event(&ev(1020 + 5 * 60_000 + 1, EventType::ComputeUtil, "gpu-9", "10", None, None))
        .unwrap();
    let nodes = g.all_nodes();
    assert!(nodes.iter().all(|n| n.id.as_str() != "error-gpu-0"));
    let edges = g.all_edges();
    assert!(edges.iter().all(|e| e.to.as_str() != "error-gpu-0"));
}

#[test]
fn repeated_events_never_duplicate_edges() {
    let mut g = StateGraph::new();
    for _ in 0..3 {
        g.process_event(&ev(1000, EventType::ComputeUtil, "gpu-0", "90", None, Some(1))).unwrap();
    }
    let edges = g.all_edges();
    let consumes = edges
        .iter()
        .filter(|e| e.edge_type == EdgeType::Consumes && e.from.as_str() == "pid-1")
        .count();
    assert_eq!(consumes, 1);
    assert_eq!(edges.len(), 1);
}

#[test]
fn error_fanout_reaches_every_consumer() {
    let mut g = StateGraph::new();
    g.process_event(&ev(1000, EventType::ComputeUtil, "gpu-0", "90", None, Some(1))).unwrap();
    g.process_event(&ev(1001, EventType::ComputeUtil, "gpu-0", "80", None, Some(2))).unwrap();
    g.process_event(&ev(1002, EventType::ComputeUtil, "gpu-1", "70", None, Some(3))).unwrap();
    g.process_event(&ev(1010, EventType::ErrorHw, "gpu-0", "XID_79", None, None)).unwrap();
    let edges = g.all_edges();
    let blocked: Vec<_> = edges
        .iter()
        .filter(|e| e.edge_type == EdgeType::BlockedBy && e.to.as_str() == "error-gpu-0")
        .collect();
    assert_eq!(blocked.len(), 2);
    assert!(blocked.iter().any(|e| e.from.as_str() == "pid-1"));
    assert!(blocked.iter().any(|e| e.from.as_str() == "pid-2"));
}

#[test]
fn running_processes_survive_silence() {
    let mut g = StateGraph::new();
    g.process_event(&ev(1000, EventType::ProcessState, "proc-1", "start", None, Some(1))).unwrap();
    // An hour of silence, then an unrelated event.
    g.process_event(&ev(1000 + 3_600_000, EventType::ComputeUtil, "gpu-0", "10", None, None))
        .unwrap();
    let active = g.get_active_processes();
    assert!(active.iter().any(|n| n.id.as_str() == "pid-1"));
}

#[test]
fn stall_values_draw_waits_on_edges() {
    let mut g = StateGraph::new();
    g.process_event(&ev(1000, EventType::TransportBw, "mlx5_0", "0.5", None, Some(4))).unwrap();
    g.process_event(&ev(1001, EventType::StorageIops, "nvme0n1", "IO_WAIT", None, Some(4)))
        .unwrap();
    g.process_event(&ev(1002, EventType::TransportBw, "mlx5_1", "900", None, Some(4))).unwrap();
    let edges = g.all_edges();
    let waits: Vec<_> = edges.iter().filter(|e| e.edge_type == EdgeType::WaitsOn).collect();
    assert_eq!(waits.len(), 2);
    assert!(waits.iter().any(|e| e.to.as_str() == "mlx5_0"));
    assert!(waits.iter().any(|e| e.to.as_str() == "nvme0n1"));
}

#[test]
fn reingesting_an_event_changes_nothing() {
    let mut once = blocked_by_gpu_error();
    let mut twice = blocked_by_gpu_error();
    let again = ev(1020, EventType::ErrorHw, "gpu-0", "XID_79", None, None);
    twice.process_event(&again).unwrap();
    assert_eq!(once.all_nodes().len(), twice.all_nodes().len());
    assert_eq!(once.all_edges().len(), twice.all_edges().len());
    let c1 = once.find_root_cause(1);
    let c2 = twice.find_root_cause(1);
    assert_eq!(c1.len(), c2.len());
}

#[test]
fn list_rows_carry_job_state_and_resources() {
    let g = blocked_by_gpu_error();
    let rows = xctl::rpc::list_processes(&g);
    assert_eq!(rows.len(), 1);
    let row = &rows[0];
    assert_eq!(row.pid, 1);
    assert_eq!(row.id.as_str(), "pid-1");
    assert_eq!(row.job_id.as_ref().unwrap().as_str(), "job-A");
    assert_eq!(row.state.as_str(), "running");
    assert_eq!(row.resources.len(), 1);
    assert_eq!(row.resources[0].as_str(), "gpu-0");
}

#[test]
fn namespaced_events_prefix_every_id() {
    let mut g = StateGraph::new();
    let mut e = ev(1000, EventType::ProcessState, "proc-1", "start", Some("J"), Some(10));
    e.node_id = Some("node-a".to_string());
    g.process_event(&e).unwrap();
    let nodes = g.all_nodes();
    assert!(nodes.iter().any(|n| n.id.as_str() == "node-a::pid-10"));
}
