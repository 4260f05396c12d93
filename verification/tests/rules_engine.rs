//! Loading and matching whole rules.

use xctl::event::{Event, EventType};
use xctl::graph::StateGraph;
use xctl::rules::{
    Applicability, Condition, RootCausePattern, Rule, RuleEngine, SolutionStep,
};

fn rule(name: &str, priority: u32, event_type: &str) -> Rule {
    Rule {
        name: name.to_string(),
        scene: "network_stall".to_string(),
        priority,
        conditions: vec![Condition::Event {
            event_type: event_type.to_string(),
            entity_id_pattern: None,
            value_pattern: None,
            value_threshold: None,
        }],
        root_cause_pattern: RootCausePattern { primary: "congestion".to_string(), secondary: None },
        solution_steps: vec![SolutionStep {
            step: 1,
            action: "check fabric link state".to_string(),
            command: None,
            manual: true,
        }],
        related_evidences: Vec::new(),
        applicability: Applicability { min_confidence: 800, required_events: None },
    }
}

fn drop_event() -> Event {
    Event {
        ts: 1,
        event_type: EventType::TransportDrop,
        entity_id: "mlx5_0".to_string(),
        job_id: None,
        pid: None,
        value: "7".to_string(),
        node_id: None,
    }
}

#[test]
fn rules_sort_by_descending_priority() {
    let engine = RuleEngine::from_rules(vec![
        rule("low", 10, "transport.drop"),
        rule("high", 90, "transport.drop"),
        rule("mid", 50, "error.hw"),
    ]);
    assert_eq!(engine.rule_count(), 3);
    let g = StateGraph::new();
    let events = vec![drop_event()];
    let matched = engine.match_rules(&g, &events);
    assert_eq!(matched.len(), 2);
    assert_eq!(matched[0].name.as_str(), "high");
    assert_eq!(matched[1].name.as_str(), "low");
    let first = engine.match_first(&g, &events).unwrap();
    assert_eq!(first.name.as_str(), "high");
}

#[test]
fn unmatched_rules_stay_silent() {
    let engine = RuleEngine::from_rules(vec![rule("only", 10, "error.hw")]);
    let g = StateGraph::new();
    let events = vec![drop_event()];
    assert!(engine.match_first(&g, &events).is_none());
    assert!(engine.match_rules(&g, &events).is_empty());
}

#[test]
fn simple_matching_uses_event_conditions_alone() {
    let engine = RuleEngine::from_rules(vec![rule("drops", 10, "transport.drop")]);
    let events = vec![drop_event()];
    let hit = engine.match_first_simple(&events).unwrap();
    assert_eq!(hit.name.as_str(), "drops");
    let none = engine.match_first_simple(&Vec::new());
    assert!(none.is_none());
}

#[test]
fn simple_matching_returns_the_highest_priority_rule() {
    let engine = RuleEngine::from_rules(vec![
        rule("low", 5, "transport.drop"),
        rule("high", 95, "transport.drop"),
        rule("other", 50, "error.hw"),
    ]);
    let events = vec![drop_event()];
    let hit = engine.match_first_simple(&events).unwrap();
    assert_eq!(hit.name.as_str(), "high");
}

#[test]
fn graph_conditions_see_the_edges() {
    let mut g = StateGraph::new();
    let mut e = drop_event();
    e.pid = Some(2);
    g.process_event(&e).unwrap();
    let cond = Condition::Graph {
        edge_type: "waits_on".to_string(),
        from_pattern: Some("pid-*".to_string()),
        to_pattern: Some("mlx5_*".to_string()),
    };
    assert!(xctl::rules::RuleMatcher::match_condition(&cond, &Vec::new(), &g));
    let miss = Condition::Graph {
        edge_type: "blocked_by".to_string(),
        from_pattern: None,
        to_pattern: None,
    };
    assert!(!xctl::rules::RuleMatcher::match_condition(&miss, &Vec::new(), &g));
}

#[test]
fn any_and_all_combine_conditions() {
    let g = StateGraph::new();
    let events = vec![drop_event()];
    let hit = Condition::Any {
        conditions: vec![
            Condition::Event {
                event_type: "error.hw".to_string(),
                entity_id_pattern: None,
                value_pattern: None,
                value_threshold: None,
            },
            Condition::Event {
                event_type: "transport.drop".to_string(),
                entity_id_pattern: None,
                value_pattern: None,
                value_threshold: None,
            },
        ],
    };
    assert!(xctl::rules::RuleMatcher::match_condition(&hit, &events, &g));
    let miss = Condition::All { conditions: vec![hit, Condition::Event {
        event_type: "error.hw".to_string(),
        entity_id_pattern: None,
        value_pattern: None,
        value_threshold: None,
    }] };
    assert!(!xctl::rules::RuleMatcher::match_condition(&miss, &events, &g));
}
