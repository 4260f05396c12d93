//! Hub decisions, fault translation, scenes, rules, and the rest.

use xctl::action::ActionType;
use xctl::audit::{create_audit_entry, should_rotate};
use xctl::diag::LlmProvider;
use xctl::event::{Event, EventType};
use xctl::graph::StateGraph;
use xctl::hub::{
    action_from_string, cluster_why, extract_node_and_pid, make_fix_command, namespace_event,
    ns_parse, rebind_key,
};
use xctl::probe::{u32_to_ip_string, NativeProbe, ProbeType, SubprocessProbe};
use xctl::quarantine::{detect_irreversible_fault, taint_value, CooldownTable, IrreversibleFault};
use xctl::rules::{
    default_value_type, match_metric_condition, ComparisonOp, Condition, MetricCondition,
    RuleMatcher, ValueType,
};
use xctl::scene::{
    create_analysis_from_causes, identify_scene_from_causes, SceneIdentifier, SceneType,
};

fn ev(ts: u64, event_type: EventType, entity_id: &str, value: &str, pid: Option<u32>) -> Event {
    Event {
        ts,
        event_type,
        entity_id: entity_id.to_string(),
        job_id: None,
        pid,
        value: value.to_string(),
        node_id: None,
    }
}

#[test]
fn fix_commands_carry_pid_and_action() {
    let dflt = make_fix_command(17, &None);
    assert_eq!(
        dflt.as_str(),
        "{\"intent\":\"fix\",\"target_pid\":17,\"action\":\"GracefulShutdown\"}"
    );
    let kill = make_fix_command(8, &Some("KillProcess".to_string()));
    assert_eq!(kill.as_str(), "{\"intent\":\"fix\",\"target_pid\":8,\"action\":\"KillProcess\"}");
}

#[test]
fn action_names_parse_case_insensitively() {
    assert!(matches!(action_from_string("GracefulShutdown"), Some(ActionType::GracefulShutdown { .. })));
    assert!(matches!(action_from_string("kill_process"), Some(ActionType::KillProcess)));
    assert!(matches!(action_from_string("SIGUSR1"), Some(ActionType::Signal { signal: 10 })));
    assert!(action_from_string("dance").is_none());
}

#[test]
fn namespaced_ids_split_into_node_and_pid() {
    let parsed = ns_parse(&"node-a::pid-10".to_string());
    assert!(parsed.is_some());
    let (node, pid) = parsed.unwrap();
    assert_eq!(node.as_str(), "node-a");
    assert_eq!(pid, 10);
    assert!(ns_parse(&"pid-10".to_string()).is_none());
    assert!(ns_parse(&"node-a::gpu-0".to_string()).is_none());
}

#[test]
fn cause_lines_yield_node_and_pid() {
    let got = extract_node_and_pid("node-a::pid-1234: waiting on resource: mlx5_0");
    assert!(got.is_some());
    let (node, pid) = got.unwrap();
    assert_eq!(node.as_str(), "node-a");
    assert_eq!(pid, 1234);
    assert!(extract_node_and_pid("waiting on resource: mlx5_0").is_none());
}

#[test]
fn events_inherit_the_connection_node_id() {
    let e = ev(1, EventType::ProcessState, "p", "start", Some(1));
    let stamped = namespace_event(e, &"node-a".to_string());
    assert_eq!(stamped.node_id.as_ref().unwrap().as_str(), "node-a");
    let mut e2 = ev(1, EventType::ProcessState, "p", "start", Some(1));
    e2.node_id = Some("node-b".to_string());
    let kept = namespace_event(e2, &"node-a".to_string());
    assert_eq!(kept.node_id.as_ref().unwrap().as_str(), "node-b");
    assert!(rebind_key(&kept.node_id, &"node-a".to_string()).is_some());
    assert!(rebind_key(&kept.node_id, &"node-b".to_string()).is_none());
}

#[test]
fn cluster_why_resolves_both_nodes_of_a_job() {
    let mut g = StateGraph::new();
    for (node, pid) in [("node-a", 10u32), ("node-b", 20u32)] {
        let mut start = ev(1000, EventType::ProcessState, "proc", "start", Some(pid));
        start.job_id = Some("J".to_string());
        start.node_id = Some(node.to_string());
        g.process_event(&start).unwrap();
        let mut util = ev(1001, EventType::ComputeUtil, "gpu-0", "90", Some(pid));
        util.node_id = Some(node.to_string());
        g.process_event(&util).unwrap();
        let mut err = ev(1002, EventType::ErrorHw, "gpu-0", "XID_79", None);
        err.node_id = Some(node.to_string());
        g.process_event(&err).unwrap();
    }
    let (causes, procs) = cluster_why(&g, &"J".to_string());
    assert_eq!(procs.len(), 2);
    assert!(procs.iter().any(|p| p.node_id.as_str() == "node-a" && p.pid == 10));
    assert!(procs.iter().any(|p| p.node_id.as_str() == "node-b" && p.pid == 20));
    assert!(causes.iter().any(|c| c.as_str() == "node-a: node-a::error-gpu-0: XID_79"));
    assert!(causes.iter().any(|c| c.as_str() == "node-b: node-b::error-gpu-0: XID_79"));
    // De-duplicated: every line occurs once.
    for c in causes.iter() {
        assert_eq!(causes.iter().filter(|d| d.as_str() == c.as_str()).count(), 1);
    }
}

#[test]
fn xid_errors_translate_to_faults() {
    let mut e = ev(1, EventType::ErrorHw, "gpu-3", "XID_79", None);
    e.node_id = Some("node-a".to_string());
    let f = detect_irreversible_fault(&e).unwrap();
    match &f {
        IrreversibleFault::PersistentXidError { node_id, gpu_id, xid_code } => {
            assert_eq!(node_id.as_str(), "node-a");
            assert_eq!(gpu_id.as_str(), "gpu-3");
            assert_eq!(xid_code.as_str(), "XID_79");
        },
        _ => panic!("expected an XID fault"),
    }
    assert_eq!(taint_value(&f).as_str(), "xid-error:XID_79");
    let net = ev(1, EventType::ErrorNet, "mlx5_0", "LINK_DOWN", None);
    assert!(matches!(
        detect_irreversible_fault(&net),
        Some(IrreversibleFault::RdmaLinkDown { .. })
    ));
    let soft = ev(1, EventType::ErrorNet, "mlx5_0", "retransmits", None);
    assert!(detect_irreversible_fault(&soft).is_none());
    let util = ev(1, EventType::ComputeUtil, "gpu-0", "90", None);
    assert!(detect_irreversible_fault(&util).is_none());
}

#[test]
fn cooldown_suppresses_within_the_window() {
    let mut table = CooldownTable::new(300_000);
    let node = "node-a".to_string();
    assert!(!table.suppressed(&node, 1_000));
    table.arm(&node, 1_000);
    assert!(table.suppressed(&node, 1_000 + 299_999));
    assert!(!table.suppressed(&node, 1_000 + 300_000));
    assert!(!table.suppressed(&"node-b".to_string(), 1_000));
}

#[test]
fn metric_conditions_never_read_garbage_as_zero() {
    let metadata = vec![("util".to_string(), "D".to_string())];
    let cond = MetricCondition {
        key: "util".to_string(),
        op: ComparisonOp::Lt,
        target: "1".to_string(),
        value_type: ValueType::Numeric,
    };
    // "D" does not parse; under a numeric reading nothing matches.
    assert!(!match_metric_condition(&cond, &metadata));
    let text = MetricCondition {
        key: "util".to_string(),
        op: ComparisonOp::Eq,
        target: "D".to_string(),
        value_type: default_value_type(),
    };
    assert!(match_metric_condition(&text, &metadata));
}

#[test]
fn event_thresholds_reject_non_numeric_values() {
    let g = StateGraph::new();
    let cond = Condition::Event {
        event_type: "transport.bw".to_string(),
        entity_id_pattern: None,
        value_pattern: None,
        value_threshold: Some(90_000),
    };
    let numeric = vec![ev(1, EventType::TransportBw, "mlx5_0", "95", None)];
    assert!(RuleMatcher::match_condition(&cond, &numeric, &g));
    let low = vec![ev(1, EventType::TransportBw, "mlx5_0", "85", None)];
    assert!(!RuleMatcher::match_condition(&cond, &low, &g));
    let token = vec![ev(1, EventType::TransportBw, "mlx5_0", "IO_WAIT", None)];
    assert!(!RuleMatcher::match_condition(&cond, &token, &g));
}

#[test]
fn scenes_are_identified_from_the_graph() {
    let mut g = StateGraph::new();
    g.process_event(&ev(1000, EventType::ProcessState, "proc-1", "start", Some(1))).unwrap();
    g.process_event(&ev(1010, EventType::ComputeUtil, "gpu-0", "90", Some(1))).unwrap();
    g.process_event(&ev(1020, EventType::ErrorHw, "gpu-0", "XID_79", None)).unwrap();
    let ident = SceneIdentifier::new();
    assert_eq!(ident.identify_scene(&g, 1), Some(SceneType::GpuError));
    let analysis = ident.analyze_scene(SceneType::GpuError, &g, 1);
    assert!(analysis.is_none());
    let stall = ident.analyze_scene(SceneType::NetworkStall, &g, 1).unwrap();
    assert_eq!(stall.scene, SceneType::NetworkStall);
    assert_eq!(stall.confidence, 850);
}

#[test]
fn scenes_are_identified_from_cause_texts() {
    let causes = vec!["GPU OOM on gpu-3".to_string()];
    assert_eq!(identify_scene_from_causes(&causes), Some(SceneType::GpuOom));
    let network = vec!["waiting on network path".to_string()];
    assert_eq!(identify_scene_from_causes(&network), Some(SceneType::NetworkStall));
    let silent: Vec<String> = Vec::new();
    assert_eq!(identify_scene_from_causes(&silent), Some(SceneType::WorkloadStalled));
    let analysis = create_analysis_from_causes(SceneType::GpuOom, &causes);
    assert_eq!(analysis.scene, SceneType::GpuOom);
    assert_eq!(analysis.confidence, 700);
    assert_eq!(analysis.root_causes.len(), 1);
    assert!(analysis.recommended_actions.iter().any(|a| a.as_str().contains("checkpoint dump")));
}

#[test]
fn scene_tags_are_stable() {
    assert_eq!(SceneType::GpuOom.as_str(), "gpu_oom");
    assert_eq!(SceneType::WorkloadStalled.as_str(), "workload_stalled");
    assert_eq!(SceneType::StorageIoError.as_str(), "storage_io_error");
}

#[test]
fn providers_and_endpoints() {
    assert_eq!(LlmProvider::from_str("OpenAI"), LlmProvider::OpenAI);
    assert_eq!(LlmProvider::from_str("gpt"), LlmProvider::OpenAI);
    assert_eq!(LlmProvider::from_str("whatever"), LlmProvider::OpenAI);
    assert_eq!(
        LlmProvider::Local.api_url(),
        "http://localhost:11434/api/generate"
    );
}

#[test]
fn audit_rotation_is_size_triggered() {
    assert!(!should_rotate(900, 100, 1000));
    assert!(should_rotate(901, 100, 1000));
    assert!(should_rotate(0, 1001, 1000));
    let entry = create_audit_entry(
        "2024-05-01T10:00:00Z".to_string(),
        "operator".to_string(),
        "kill process tree",
        42,
        Some("job-A".to_string()),
        "success",
        "plan of one action",
    );
    assert_eq!(entry.target_pid, 42);
    assert_eq!(entry.result.as_str(), "success");
}

#[test]
fn probe_names_and_addresses() {
    assert_eq!(NativeProbe::new(ProbeType::Nvml).name(), "nvml-native");
    assert_eq!(NativeProbe::new(ProbeType::Cann).name(), "cann-native");
    let p = SubprocessProbe::new("python3".to_string(), vec!["probe.py".to_string()]);
    assert_eq!(p.name(), "subprocess");
    assert_eq!(p.command.as_str(), "python3");
    assert_eq!(u32_to_ip_string(0x7f000001).as_str(), "127.0.0.1");
    assert_eq!(u32_to_ip_string(0).as_str(), "0.0.0.0");
}

#[test]
fn event_wire_names() {
    assert_eq!(EventType::ComputeUtil.wire_name(), "compute.util");
    assert_eq!(EventType::TopoLinkDown.wire_name(), "topo.link_down");
    assert_eq!(EventType::ProcessState.wire_name(), "process.state");
}
