//! The remediation planner, executor decisions, and RPC limits.

use xctl::action::{
    signal_name, ActionExecutor, ActionType, CgroupState, FixEngine,
};
use xctl::rpc::{
    accepts_request, accepts_response, decode_frame_header, encode_frame_header, RpcResponse,
    MAX_REQUEST_BYTES,
};

#[test]
fn recommendation_keywords_map_to_actions() {
    let a = ActionType::from_recommendation("Trigger a checkpoint dump signal (SIGUSR1)");
    assert!(matches!(a, Some(ActionType::Signal { signal: 10 })));
    let b = ActionType::from_recommendation("zap the leftover process tree");
    assert!(matches!(b, Some(ActionType::KillProcess)));
    let c = ActionType::from_recommendation("graceful shutdown please");
    assert!(matches!(c, Some(ActionType::GracefulShutdown { .. })));
    let d = ActionType::from_recommendation("throttle the job");
    assert!(matches!(d, Some(ActionType::CgroupThrottle { .. })));
    let e = ActionType::from_recommendation("nothing to see here");
    assert!(e.is_none());
}

#[test]
fn plans_run_in_priority_order() {
    let engine = FixEngine::new();
    let recs = vec![
        "zap the process tree".to_string(),
        "trigger a checkpoint dump signal (SIGUSR1)".to_string(),
        "throttle the job".to_string(),
    ];
    let plan = engine.parse_recommendations(&recs);
    assert_eq!(plan.len(), 3);
    assert!(matches!(plan[0].0, ActionType::Signal { .. }));
    assert_eq!(plan[0].1, 1);
    assert!(matches!(plan[1].0, ActionType::CgroupThrottle { .. }));
    assert_eq!(plan[1].1, 3);
    assert!(matches!(plan[2].0, ActionType::KillProcess));
    assert_eq!(plan[2].1, 10);
}

#[test]
fn equal_priorities_keep_arrival_order() {
    let engine = FixEngine::new();
    let recs = vec![
        "isolate rack twelve".to_string(),
        "isolate the spare node".to_string(),
    ];
    let plan = engine.parse_recommendations(&recs);
    assert_eq!(plan.len(), 2);
    match (&plan[0].0, &plan[1].0) {
        (ActionType::IsolateNode { reason: first }, ActionType::IsolateNode { reason: second }) => {
            assert_eq!(first.as_str(), "isolate rack twelve");
            assert_eq!(second.as_str(), "isolate the spare node");
        },
        _ => panic!("expected two isolation actions"),
    }
}

#[test]
fn killing_an_absent_process_counts_as_success() {
    let ok = ActionExecutor::kill_outcome(false, &"kill: (1234): No such process".to_string());
    assert!(ok.is_ok());
    let ok2 = ActionExecutor::kill_outcome(true, &String::new());
    assert!(ok2.is_ok());
    let err = ActionExecutor::kill_outcome(false, &"kill: permission denied".to_string());
    assert!(err.is_err());
}

#[test]
fn throttling_twice_equals_throttling_once() {
    let mut once = CgroupState::new();
    once.apply_throttle(7, Some(50_000), None, Some(1_000_000));
    let mut twice = CgroupState::new();
    twice.apply_throttle(7, Some(50_000), None, Some(1_000_000));
    twice.apply_throttle(7, Some(50_000), None, Some(1_000_000));
    assert_eq!(once.limits_of(7), twice.limits_of(7));
    assert_eq!(once.limits_of(7), Some((Some(50_000), None, Some(1_000_000))));
}

#[test]
fn throttle_keeps_unnamed_limits() {
    let mut s = CgroupState::new();
    s.apply_throttle(7, Some(50_000), Some(1 << 30), None);
    s.apply_throttle(7, None, Some(1 << 29), None);
    assert_eq!(s.limits_of(7), Some((Some(50_000), Some(1 << 29), None)));
    assert_eq!(s.limits_of(8), None);
}

#[test]
fn descriptions_and_signal_names() {
    assert_eq!(signal_name(9), "SIGKILL");
    assert_eq!(signal_name(10), "SIGUSR1");
    assert_eq!(signal_name(99), "UNKNOWN");
    assert_eq!(ActionType::KillProcess.description().as_str(), "kill process tree");
    let sig = ActionType::Signal { signal: 10 };
    assert_eq!(sig.description().as_str(), "send signal 10 (SIGUSR1)");
    assert_eq!(ActionType::KillProcess.priority(), 10);
    assert_eq!(sig.priority(), 1);
}

#[test]
fn plan_summary_succeeds_only_without_failures() {
    let engine = FixEngine::new();
    let ok = engine.summarize(Vec::new(), Vec::new(), "done".to_string());
    assert!(ok.success);
    let failed = engine.summarize(
        Vec::new(),
        vec![xctl::action::FailedAction {
            action: "kill process tree".to_string(),
            error: "denied".to_string(),
            priority: 10,
        }],
        "partial".to_string(),
    );
    assert!(!failed.success);
    assert_eq!(failed.failed_actions.len(), 1);
}

#[test]
fn scene_advice_yields_an_executable_plan() {
    let g = xctl::graph::StateGraph::new();
    let analysis = xctl::scene::analysis_for(
        xctl::scene::SceneType::GpuOom,
        &g,
        &"pid-1".to_string(),
    );
    let engine = FixEngine::new();
    let plan = engine.parse_recommendations(&analysis.recommended_actions);
    assert!(!plan.is_empty());
    assert!(matches!(plan[0].0, ActionType::Signal { signal: 10 }));
}

#[test]
fn request_limit_sits_exactly_at_ten_mebibytes() {
    assert!(accepts_request(MAX_REQUEST_BYTES));
    assert!(!accepts_request(MAX_REQUEST_BYTES + 1));
    assert!(accepts_request(0));
    assert!(accepts_response(100 * 1024 * 1024));
    assert!(!accepts_response(100 * 1024 * 1024 + 1));
}

#[test]
fn frame_headers_round_trip() {
    for n in [0u32, 1, 255, 256, 10 * 1024 * 1024, u32::MAX] {
        let header = encode_frame_header(n);
        assert_eq!(header.len(), 4);
        assert_eq!(decode_frame_header(&header), n);
    }
    assert_eq!(encode_frame_header(0x01020304), vec![1, 2, 3, 4]);
}

#[test]
fn response_envelopes() {
    let ok = RpcResponse::success("{}".to_string());
    assert!(ok.success);
    assert_eq!(ok.data.unwrap().as_str(), "{}");
    assert!(ok.error.is_none());
    let err = RpcResponse::error("parse failure".to_string());
    assert!(!err.success);
    assert!(err.data.is_none());
    assert_eq!(err.error.unwrap().as_str(), "parse failure");
}
