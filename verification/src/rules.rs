//! The declarative rule engine: rule data model, pattern matching, and
//! condition evaluation over recent events and the current graph.
//!
//! Rules arrive from YAML files; the surrounding daemon parses them and
//! hands plain values to [`RuleEngine::from_rules`].  Numeric thresholds
//! and confidences are carried in thousandths, as
//! [`crate::strutil::spec_parse_milli`] reads them.

use vstd::prelude::*;

use crate::event::{spec_wire_name, Event, EventModel};
use crate::graph::{EdgeModel, EdgeType, GraphModel, NodeModel, NodeType, StateGraph};
use crate::graph::{kv_get, meta_get, meta_view};
use crate::strutil::{contains_seq, spec_parse_milli, starts_with_seq, ends_with_seq};
use crate::strutil::{find_char_from, parse_decimal_milli, str_contains, str_eq};
use crate::strutil::{str_ends_with, str_starts_with};

verus! {

broadcast use {
    vstd::std_specs::vec::group_vec_axioms,
    vstd::seq::group_seq_axioms,
    vstd::seq_lib::group_to_multiset_ensures,
};

/// How a metric condition compares an attribute with its target.
#[derive(Clone, Copy, PartialEq, Eq, Structural, Debug)]
pub enum ComparisonOp {
    Gt,
    Lt,
    Eq,
    Gte,
    Lte,
    Ne,
    Contains,
}

/// How the two sides of a metric comparison are read.
#[derive(Clone, Copy, PartialEq, Eq, Structural, Debug)]
pub enum ValueType {
    Numeric,
    Text,
    Auto,
}

/// The value type a rule file gets when it names none.
pub fn default_value_type() -> (r: ValueType)
    ensures
        r == ValueType::Auto,
{
    ValueType::Auto
}

/// One comparison against a node attribute.
pub struct MetricCondition {
    pub key: String,
    pub op: ComparisonOp,
    pub target: String,
    pub value_type: ValueType,
}

/// A rule condition: the closed set of matchers and their combinators.
pub enum Condition {
    /// Matches a recent event by family, entity pattern, payload substring
    /// and numeric threshold (in thousandths).
    Event {
        event_type: String,
        entity_id_pattern: Option<String>,
        value_pattern: Option<String>,
        value_threshold: Option<i64>,
    },
    /// Matches the existence of an edge.
    Graph { edge_type: String, from_pattern: Option<String>, to_pattern: Option<String> },
    /// Matches a node by type, id pattern and attribute comparisons.
    Metric {
        node_type: Option<String>,
        entity_id_pattern: Option<String>,
        metrics: Vec<MetricCondition>,
    },
    /// Or of the nested conditions.
    Any { conditions: Vec<Condition> },
    /// And of the nested conditions.
    All { conditions: Vec<Condition> },
}

/// What a rule claims went wrong.
pub struct RootCausePattern {
    pub primary: String,
    pub secondary: Option<Vec<String>>,
}

/// One remediation step of a rule.
pub struct SolutionStep {
    pub step: u32,
    pub action: String,
    pub command: Option<String>,
    pub manual: bool,
}

/// When a rule applies; confidence in thousandths.
pub struct Applicability {
    pub min_confidence: i64,
    pub required_events: Option<Vec<String>>,
}

/// A declarative remediation rule.
pub struct Rule {
    pub name: String,
    pub scene: String,
    pub priority: u32,
    pub conditions: Vec<Condition>,
    pub root_cause_pattern: RootCausePattern,
    pub solution_steps: Vec<SolutionStep>,
    pub related_evidences: Vec<String>,
    pub applicability: Applicability,
}

// ---------------------------------------------------------------------------
// Shell-style pattern matching.
// ---------------------------------------------------------------------------

/// How many times `c` occurs in `s`, counting from `i`.
pub open spec fn count_char_from(s: Seq<char>, c: char, i: int) -> int
    decreases s.len() - i,
{
    if i < 0 || i >= s.len() {
        0
    } else if s[i] == c {
        1 + count_char_from(s, c, i + 1)
    } else {
        count_char_from(s, c, i + 1)
    }
}

/// A pattern with exactly one `*` matches by prefix and suffix; any other
/// pattern must match the text exactly.
pub open spec fn spec_matches_pattern(t: Seq<char>, p: Seq<char>) -> bool {
    if count_char_from(p, '*', 0) == 1 {
        let i = find_char_from(p, '*', 0);
        starts_with_seq(t, p.take(i)) && ends_with_seq(t, p.skip(i + 1))
    } else {
        t == p
    }
}

/// Counts occurrences of `c` and finds the first one.
fn scan_char(s: &str, c: char) -> (r: (usize, usize))
    ensures
        r.0 as int == count_char_from(s@, c, 0),
        count_char_from(s@, c, 0) > 0 ==> r.1 as int == find_char_from(s@, c, 0) && (r.1 as int)
            < s@.len(),
{
    let len = s.unicode_len();
    let mut count: usize = 0;
    let mut first: usize = 0;
    let mut i: usize = 0;
    while i < len
        invariant
            0 <= i <= len,
            len == s@.len(),
            count <= i,
            count_char_from(s@, c, 0) == count + count_char_from(s@, c, i as int),
            count > 0 ==> first as int == find_char_from(s@, c, 0) && first < i,
            count == 0 ==> find_char_from(s@, c, 0) == find_char_from(s@, c, i as int),
        decreases len - i,
    {
        if s.get_char(i) == c {
            if count == 0 {
                first = i;
                assert(find_char_from(s@, c, i as int) == i);
            }
            count = count + 1;
        }
        i = i + 1;
    }
    proof {
        if count == 0 {
            assert(count_char_from(s@, c, len as int) == 0);
        }
    }
    (count, first)
}

/// Shell-style wildcard matching: one `*` splits the pattern into a prefix
/// and a suffix; otherwise the comparison is exact.
pub fn matches_pattern(text: &str, pattern: &str) -> (r: bool)
    ensures
        r == spec_matches_pattern(text@, pattern@),
{
    let (stars, first) = scan_char(pattern, '*');
    if stars == 1 {
        let plen = pattern.unicode_len();
        let prefix = pattern.substring_char(0, first);
        let suffix = pattern.substring_char(first + 1, plen);
        proof {
            assert(prefix@ =~= pattern@.take(first as int));
            assert(suffix@ =~= pattern@.skip(first as int + 1));
        }
        str_starts_with(text, prefix) && str_ends_with(text, suffix)
    } else {
        str_eq(text, pattern)
    }
}

// ---------------------------------------------------------------------------
// Metric comparisons.
// ---------------------------------------------------------------------------

/// A numeric comparison in thousandths; equality is exact at that
/// granularity.
pub open spec fn spec_cmp_num(op: ComparisonOp, a: int, t: int, actual: Seq<char>, target: Seq<char>) -> bool {
    match op {
        ComparisonOp::Gt => a > t,
        ComparisonOp::Lt => a < t,
        ComparisonOp::Eq => a == t,
        ComparisonOp::Gte => a >= t,
        ComparisonOp::Lte => a <= t,
        ComparisonOp::Ne => a != t,
        ComparisonOp::Contains => contains_seq(actual, target),
    }
}

/// A string comparison; ordering operators never hold on strings.
pub open spec fn spec_cmp_text(op: ComparisonOp, actual: Seq<char>, target: Seq<char>) -> bool {
    match op {
        ComparisonOp::Eq => actual == target,
        ComparisonOp::Ne => actual != target,
        ComparisonOp::Contains => contains_seq(actual, target),
        _ => false,
    }
}

/// Whether one metric condition holds of a node's attributes.  A missing
/// key never matches; under a numeric reading, a side that does not parse
/// as a number never matches — it is not read as zero.
pub open spec fn spec_match_metric(m: MetricCondition, md: Seq<(Seq<char>, Seq<char>)>) -> bool {
    match kv_get(md, m.key@) {
        None => false,
        Some(actual) => match m.value_type {
            ValueType::Numeric => match (spec_parse_milli(actual), spec_parse_milli(m.target@)) {
                (Some(a), Some(t)) => spec_cmp_num(m.op, a, t, actual, m.target@),
                _ => false,
            },
            ValueType::Text => spec_cmp_text(m.op, actual, m.target@),
            ValueType::Auto => match (spec_parse_milli(actual), spec_parse_milli(m.target@)) {
                (Some(a), Some(t)) => spec_cmp_num(m.op, a, t, actual, m.target@),
                _ => spec_cmp_text(m.op, actual, m.target@),
            },
        },
    }
}

/// Numeric comparison of two parsed readings.
fn cmp_num(op: ComparisonOp, a: i64, t: i64, actual: &str, target: &str) -> (r: bool)
    ensures
        r == spec_cmp_num(op, a as int, t as int, actual@, target@),
{
    match op {
        ComparisonOp::Gt => a > t,
        ComparisonOp::Lt => a < t,
        ComparisonOp::Eq => a == t,
        ComparisonOp::Gte => a >= t,
        ComparisonOp::Lte => a <= t,
        ComparisonOp::Ne => a != t,
        ComparisonOp::Contains => str_contains(actual, target),
    }
}

/// String comparison under a metric operator.
fn cmp_text(op: ComparisonOp, actual: &str, target: &str) -> (r: bool)
    ensures
        r == spec_cmp_text(op, actual@, target@),
{
    match op {
        ComparisonOp::Eq => str_eq(actual, target),
        ComparisonOp::Ne => !str_eq(actual, target),
        ComparisonOp::Contains => str_contains(actual, target),
        _ => false,
    }
}

/// Evaluates one metric condition against a node's attributes.
pub fn match_metric_condition(metric: &MetricCondition, metadata: &Vec<(String, String)>) -> (r:
    bool)
    ensures
        r == spec_match_metric(*metric, meta_view(metadata@)),
{
    let actual = match meta_get(metadata, metric.key.as_str()) {
        None => {
            return false;
        },
        Some(v) => v,
    };
    match metric.value_type {
        ValueType::Numeric => {
            let a = parse_decimal_milli(actual.as_str());
            let t = parse_decimal_milli(metric.target.as_str());
            match (a, t) {
                (Some(av), Some(tv)) => cmp_num(
                    metric.op,
                    av,
                    tv,
                    actual.as_str(),
                    metric.target.as_str(),
                ),
                _ => false,
            }
        },
        ValueType::Text => cmp_text(metric.op, actual.as_str(), metric.target.as_str()),
        ValueType::Auto => {
            let a = parse_decimal_milli(actual.as_str());
            let t = parse_decimal_milli(metric.target.as_str());
            match (a, t) {
                (Some(av), Some(tv)) => cmp_num(
                    metric.op,
                    av,
                    tv,
                    actual.as_str(),
                    metric.target.as_str(),
                ),
                _ => cmp_text(metric.op, actual.as_str(), metric.target.as_str()),
            }
        },
    }
}

// ---------------------------------------------------------------------------
// Condition evaluation.
// ---------------------------------------------------------------------------

/// The name of an edge kind in rule files.
pub open spec fn edge_kind_name(k: EdgeType) -> Seq<char> {
    match k {
        EdgeType::Consumes => "consumes"@,
        EdgeType::WaitsOn => "waits_on"@,
        EdgeType::BlockedBy => "blocked_by"@,
    }
}

/// The name of a node kind in rule files.
pub open spec fn node_kind_name(k: NodeType) -> Seq<char> {
    match k {
        NodeType::Process => "process"@,
        NodeType::Resource => "resource"@,
        NodeType::Error => "error"@,
    }
}

/// An absent pattern matches everything.
pub open spec fn opt_pat_matches(t: Seq<char>, p: Option<String>) -> bool {
    match p {
        None => true,
        Some(s) => spec_matches_pattern(t, s@),
    }
}

/// One event satisfies an event condition.  With a threshold set, a
/// payload that does not parse as a number never matches.
pub open spec fn spec_event_cond(
    ev: EventModel,
    et: String,
    eip: Option<String>,
    vp: Option<String>,
    vt: Option<i64>,
) -> bool {
    &&& spec_wire_name(ev.event_type) == et@
    &&& opt_pat_matches(ev.entity_id, eip)
    &&& (match vp {
        None => true,
        Some(p) => contains_seq(ev.value, p@),
    })
    &&& (match vt {
        None => true,
        Some(t) => spec_parse_milli(ev.value) matches Some(v) && v >= t,
    })
}

/// One edge satisfies a graph condition.
pub open spec fn spec_edge_cond(
    e: EdgeModel,
    et: String,
    fp: Option<String>,
    tp: Option<String>,
) -> bool {
    &&& edge_kind_name(e.edge_type) == et@
    &&& opt_pat_matches(e.from, fp)
    &&& opt_pat_matches(e.to, tp)
}

/// One node satisfies a metric condition block.
pub open spec fn spec_node_cond(
    n: NodeModel,
    nt: Option<String>,
    eip: Option<String>,
    metrics: Seq<MetricCondition>,
) -> bool {
    &&& (match nt {
        None => true,
        Some(s) => node_kind_name(n.node_type) == s@,
    })
    &&& opt_pat_matches(n.id, eip)
    &&& forall|i: int| 0 <= i < metrics.len() ==> spec_match_metric(#[trigger] metrics[i], n.metadata)
}

/// Whether a condition holds of the recent events and the current graph.
pub open spec fn spec_cond_holds(c: Condition, events: Seq<EventModel>, g: GraphModel) -> bool
    decreases c,
{
    match c {
        Condition::Event { event_type, entity_id_pattern, value_pattern, value_threshold } => {
            exists|i: int|
                0 <= i < events.len() && spec_event_cond(
                    #[trigger] events[i],
                    event_type,
                    entity_id_pattern,
                    value_pattern,
                    value_threshold,
                )
        },
        Condition::Graph { edge_type, from_pattern, to_pattern } => {
            exists|i: int|
                0 <= i < g.edges.len() && spec_edge_cond(
                    #[trigger] g.edges[i],
                    edge_type,
                    from_pattern,
                    to_pattern,
                )
        },
        Condition::Metric { node_type, entity_id_pattern, metrics } => {
            exists|i: int|
                0 <= i < g.nodes.len() && spec_node_cond(
                    #[trigger] g.nodes[i],
                    node_type,
                    entity_id_pattern,
                    metrics@,
                )
        },
        Condition::Any { conditions } => {
            exists|i: int|
                0 <= i < conditions.len() && spec_cond_holds(#[trigger] conditions[i], events, g)
        },
        Condition::All { conditions } => {
            forall|i: int|
                0 <= i < conditions.len() ==> spec_cond_holds(#[trigger] conditions[i], events, g)
        },
    }
}

/// All of a rule's top-level conditions hold.
pub open spec fn spec_all_conds_hold(
    conds: Seq<Condition>,
    events: Seq<EventModel>,
    g: GraphModel,
) -> bool {
    forall|i: int| 0 <= i < conds.len() ==> spec_cond_holds(#[trigger] conds[i], events, g)
}

/// The view of a vector of events.
pub open spec fn events_model(es: Seq<Event>) -> Seq<EventModel> {
    es.map_values(|e: Event| e@)
}

/// Whether any recent event satisfies one event condition.
fn any_event_matches(
    event_type: &String,
    entity_id_pattern: &Option<String>,
    value_pattern: &Option<String>,
    value_threshold: &Option<i64>,
    events: &Vec<Event>,
) -> (r: bool)
    ensures
        r == exists|i: int|
            0 <= i < events@.len() && spec_event_cond(
                #[trigger] events_model(events@)[i],
                *event_type,
                *entity_id_pattern,
                *value_pattern,
                *value_threshold,
            ),
{
    let n = events.len();
    let mut i: usize = 0;
    while i < n
        invariant
            0 <= i <= n,
            n == events@.len(),
            forall|j: int|
                0 <= j < i ==> !spec_event_cond(
                    #[trigger] events_model(events@)[j],
                    *event_type,
                    *entity_id_pattern,
                    *value_pattern,
                    *value_threshold,
                ),
        decreases n - i,
    {
        let ev = &events[i];
        let mut ok = str_eq(ev.event_type.wire_name(), event_type.as_str());
        if ok {
            match entity_id_pattern {
                Some(p) => {
                    ok = matches_pattern(ev.entity_id.as_str(), p.as_str());
                },
                None => {},
            }
        }
        if ok {
            match value_pattern {
                Some(p) => {
                    ok = str_contains(ev.value.as_str(), p.as_str());
                },
                None => {},
            }
        }
        if ok {
            match value_threshold {
                Some(t) => {
                    ok = match parse_decimal_milli(ev.value.as_str()) {
                        Some(v) => v >= *t,
                        None => false,
                    };
                },
                None => {},
            }
        }
        if ok {
            assert(spec_event_cond(
                events_model(events@)[i as int],
                *event_type,
                *entity_id_pattern,
                *value_pattern,
                *value_threshold,
            ));
            return true;
        }
        assert(!spec_event_cond(
            events_model(events@)[i as int],
            *event_type,
            *entity_id_pattern,
            *value_pattern,
            *value_threshold,
        ));
        i = i + 1;
    }
    false
}

/// The condition evaluator.
pub struct RuleMatcher;

impl RuleMatcher {
    /// Evaluates one condition against the recent events and the graph.
    #[verifier::loop_isolation(false)]
    pub fn match_condition(condition: &Condition, events: &Vec<Event>, graph: &StateGraph) -> (r:
        bool)
        ensures
            r == spec_cond_holds(*condition, events_model(events@), graph@),
        decreases *condition,
    {
        match condition {
            Condition::Event { event_type, entity_id_pattern, value_pattern, value_threshold } => {
                any_event_matches(event_type, entity_id_pattern, value_pattern, value_threshold, events)
            },
            Condition::Graph { edge_type, from_pattern, to_pattern } => {
                let edges = graph.all_edges();
                let n = edges.len();
                let mut i: usize = 0;
                while i < n
                    invariant
                        0 <= i <= n,
                        n == graph@.edges.len(),
                        crate::graph::edges_view(edges@) == graph@.edges,
                        forall|j: int|
                            0 <= j < i ==> !spec_edge_cond(
                                #[trigger] graph@.edges[j],
                                *edge_type,
                                *from_pattern,
                                *to_pattern,
                            ),
                    decreases n - i,
                {
                    let e = &edges[i];
                    let kind_name: &str = match e.edge_type {
                        EdgeType::Consumes => "consumes",
                        EdgeType::WaitsOn => "waits_on",
                        EdgeType::BlockedBy => "blocked_by",
                    };
                    assert(kind_name@ == edge_kind_name(graph@.edges[i as int].edge_type));
                    let mut ok = str_eq(kind_name, edge_type.as_str());
                    if ok {
                        match from_pattern {
                            Some(p) => {
                                ok = matches_pattern(e.from.as_str(), p.as_str());
                            },
                            None => {},
                        }
                    }
                    if ok {
                        match to_pattern {
                            Some(p) => {
                                ok = matches_pattern(e.to.as_str(), p.as_str());
                            },
                            None => {},
                        }
                    }
                    if ok {
                        assert(spec_edge_cond(
                            graph@.edges[i as int],
                            *edge_type,
                            *from_pattern,
                            *to_pattern,
                        ));
                        return true;
                    }
                    assert(!spec_edge_cond(
                        graph@.edges[i as int],
                        *edge_type,
                        *from_pattern,
                        *to_pattern,
                    ));
                    i = i + 1;
                }
                false
            },
            Condition::Metric { node_type, entity_id_pattern, metrics } => {
                let nodes = graph.all_nodes();
                let n = nodes.len();
                let mut i: usize = 0;
                while i < n
                    invariant
                        0 <= i <= n,
                        n == graph@.nodes.len(),
                        crate::graph::nodes_view(nodes@) == graph@.nodes,
                        forall|j: int|
                            0 <= j < i ==> !spec_node_cond(
                                #[trigger] graph@.nodes[j],
                                *node_type,
                                *entity_id_pattern,
                                metrics@,
                            ),
                    decreases n - i,
                {
                    let node = &nodes[i];
                    let kind_name: &str = match node.node_type {
                        NodeType::Process => "process",
                        NodeType::Resource => "resource",
                        NodeType::Error => "error",
                    };
                    assert(kind_name@ == node_kind_name(graph@.nodes[i as int].node_type));
                    let mut ok: bool = match node_type {
                        Some(s) => str_eq(kind_name, s.as_str()),
                        None => true,
                    };
                    if ok {
                        match entity_id_pattern {
                            Some(p) => {
                                ok = matches_pattern(node.id.as_str(), p.as_str());
                            },
                            None => {},
                        }
                    }
                    if ok {
                        let m = metrics.len();
                        let mut k: usize = 0;
                        let mut all_ok = true;
                        while k < m
                            invariant
                                0 <= k <= m,
                                m == metrics@.len(),
                                i < n,
                                n == graph@.nodes.len(),
                                crate::graph::nodes_view(nodes@) == graph@.nodes,
                                all_ok == forall|j: int|
                                    0 <= j < k ==> spec_match_metric(
                                        #[trigger] metrics@[j],
                                        graph@.nodes[i as int].metadata,
                                    ),
                            decreases m - k,
                        {
                            let hit = match_metric_condition(&metrics[k], &node.metadata);
                            proof {
                                assert(graph@.nodes[i as int] == nodes@[i as int]@);
                                assert(meta_view(node.metadata@) == graph@.nodes[i as int].metadata);
                            }
                            all_ok = all_ok && hit;
                            k = k + 1;
                        }
                        ok = all_ok;
                    }
                    if ok {
                        assert(spec_node_cond(
                            graph@.nodes[i as int],
                            *node_type,
                            *entity_id_pattern,
                            metrics@,
                        ));
                        return true;
                    }
                    assert(!spec_node_cond(
                        graph@.nodes[i as int],
                        *node_type,
                        *entity_id_pattern,
                        metrics@,
                    ));
                    i = i + 1;
                }
                false
            },
            Condition::Any { conditions } => {
                let n = conditions.len();
                let mut i: usize = 0;
                while i < n
                    invariant
                        0 <= i <= n,
                        n == conditions@.len(),
                        forall|j: int|
                            0 <= j < i ==> !spec_cond_holds(
                                #[trigger] conditions@[j],
                                events_model(events@),
                                graph@,
                            ),
                    decreases n - i,
                {
                    if Self::match_condition(&conditions[i], events, graph) {
                        assert(spec_cond_holds(conditions@[i as int], events_model(events@), graph@));
                        return true;
                    }
                    i = i + 1;
                }
                false
            },
            Condition::All { conditions } => {
                let n = conditions.len();
                let mut i: usize = 0;
                while i < n
                    invariant
                        0 <= i <= n,
                        n == conditions@.len(),
                        forall|j: int|
                            0 <= j < i ==> spec_cond_holds(
                                #[trigger] conditions@[j],
                                events_model(events@),
                                graph@,
                            ),
                    decreases n - i,
                {
                    if !Self::match_condition(&conditions[i], events, graph) {
                        assert(!spec_cond_holds(conditions@[i as int], events_model(events@), graph@));
                        return false;
                    }
                    i = i + 1;
                }
                true
            },
        }
    }

    /// Evaluates only the event conditions of a rule, for callers that
    /// hold no graph.
    fn event_conditions_hold(rule: &Rule, events: &Vec<Event>) -> (r: bool)
        ensures
            r == rule_simple_matches(*rule, events_model(events@)),
    {
        let n = rule.conditions.len();
        let mut has_event = false;
        let mut all_ok = true;
        let mut i: usize = 0;
        while i < n
            invariant
                0 <= i <= n,
                n == rule.conditions@.len(),
                has_event == exists|j: int|
                    0 <= j < i && is_event_cond(#[trigger] rule.conditions@[j]),
                all_ok == forall|j: int|
                    0 <= j < i ==> event_only_holds(
                        #[trigger] rule.conditions@[j],
                        events_model(events@),
                    ),
            decreases n - i,
        {
            match &rule.conditions[i] {
                Condition::Event {
                    event_type,
                    entity_id_pattern,
                    value_pattern,
                    value_threshold,
                } => {
                    assert(is_event_cond(rule.conditions@[i as int]));
                    has_event = true;
                    let hit = any_event_matches(
                        event_type,
                        entity_id_pattern,
                        value_pattern,
                        value_threshold,
                        events,
                    );
                    assert(hit == event_only_holds(
                        rule.conditions@[i as int],
                        events_model(events@),
                    ));
                    all_ok = all_ok && hit;
                },
                _ => {
                    assert(!is_event_cond(rule.conditions@[i as int]));
                    assert(event_only_holds(rule.conditions@[i as int], events_model(events@)));
                },
            }
            i = i + 1;
        }
        has_event && all_ok
    }

    /// Evaluates a conjunction of conditions.
    pub fn match_all_conditions(
        conditions: &Vec<Condition>,
        events: &Vec<Event>,
        graph: &StateGraph,
    ) -> (r: bool)
        ensures
            r == spec_all_conds_hold(conditions@, events_model(events@), graph@),
    {
        let n = conditions.len();
        let mut i: usize = 0;
        while i < n
            invariant
                0 <= i <= n,
                n == conditions@.len(),
                forall|j: int|
                    0 <= j < i ==> spec_cond_holds(
                        #[trigger] conditions@[j],
                        events_model(events@),
                        graph@,
                    ),
            decreases n - i,
        {
            if !Self::match_condition(&conditions[i], events, graph) {
                assert(!spec_cond_holds(conditions@[i as int], events_model(events@), graph@));
                return false;
            }
            i = i + 1;
        }
        true
    }
}

} // verus!

// ---------------------------------------------------------------------------
// The rule engine.
// ---------------------------------------------------------------------------

verus! {

/// The condition is an event matcher.
pub open spec fn is_event_cond(c: Condition) -> bool {
    c matches Condition::Event { .. }
}

/// An event condition holds of the recent events; any other condition
/// passes vacuously here.
pub open spec fn event_only_holds(c: Condition, events: Seq<EventModel>) -> bool {
    match c {
        Condition::Event { event_type, entity_id_pattern, value_pattern, value_threshold } => {
            exists|i: int|
                0 <= i < events.len() && spec_event_cond(
                    #[trigger] events[i],
                    event_type,
                    entity_id_pattern,
                    value_pattern,
                    value_threshold,
                )
        },
        _ => true,
    }
}

/// The index of the first rule — in the engine's descending priority
/// order — whose event conditions alone suffice, scanning from `i`;
/// `-1` when none does.
pub open spec fn first_simple_from(rules: Seq<Rule>, events: Seq<EventModel>, i: int) -> int
    decreases rules.len() - i,
{
    if i < 0 || i >= rules.len() {
        -1
    } else if rule_simple_matches(rules[i], events) {
        i
    } else {
        first_simple_from(rules, events, i + 1)
    }
}

/// The quick evaluation used without graph access: the rule carries at
/// least one event condition and every event condition matches.
pub open spec fn rule_simple_matches(rule: Rule, events: Seq<EventModel>) -> bool {
    &&& exists|j: int| 0 <= j < rule.conditions@.len() && is_event_cond(#[trigger] rule.conditions@[j])
    &&& forall|j: int|
        0 <= j < rule.conditions@.len() ==> event_only_holds(
            #[trigger] rule.conditions@[j],
            events,
        )
}

/// Rules ordered by descending priority.
pub open spec fn sorted_desc(rules: Seq<Rule>) -> bool {
    forall|i: int, j: int| 0 <= i < j < rules.len() ==> rules[i].priority >= rules[j].priority
}

/// The whole rule matches: every top-level condition holds.
pub open spec fn rule_matches(rule: Rule, events: Seq<EventModel>, g: GraphModel) -> bool {
    spec_all_conds_hold(rule.conditions@, events, g)
}

/// The matching rules, in rule order, scanning from `i`.
pub open spec fn matching_from(
    rules: Seq<Rule>,
    events: Seq<EventModel>,
    g: GraphModel,
    i: int,
) -> Seq<Rule>
    decreases rules.len() - i,
{
    if i < 0 || i >= rules.len() {
        Seq::empty()
    } else if rule_matches(rules[i], events, g) {
        seq![rules[i]] + matching_from(rules, events, g, i + 1)
    } else {
        matching_from(rules, events, g, i + 1)
    }
}

/// The loaded rule set, held in descending priority order.
pub struct RuleEngine {
    rules: Vec<Rule>,
}

impl RuleEngine {
    /// The rules, in evaluation order.
    pub closed spec fn rules_seq(&self) -> Seq<Rule> {
        self.rules@
    }

    /// Builds an engine from parsed rules, sorting them into descending
    /// priority order without losing or inventing a rule.
    pub fn from_rules(rules: Vec<Rule>) -> (r: RuleEngine)
        ensures
            sorted_desc(r.rules_seq()),
            r.rules_seq().to_multiset() == rules@.to_multiset(),
    {
        let ghost input = rules@;
        let mut pending = rules;
        let mut sorted: Vec<Rule> = Vec::new();
        while pending.len() > 0
            invariant
                pending@.to_multiset().add(sorted@.to_multiset()) =~= input.to_multiset(),
                sorted_desc(sorted@),
                forall|a: int, b: int|
                    0 <= a < sorted@.len() && 0 <= b < pending@.len() ==> (#[trigger] sorted@[a]).priority
                        >= (#[trigger] pending@[b]).priority,
            decreases pending@.len(),
        {
            // Select the first rule of maximal priority.
            let n = pending.len();
            let mut mi: usize = 0;
            let mut k: usize = 1;
            while k < n
                invariant
                    0 <= mi < k <= n,
                    n == pending@.len(),
                    forall|j: int|
                        0 <= j < k ==> (#[trigger] pending@[j]).priority
                            <= pending@[mi as int].priority,
                decreases n - k,
            {
                if pending[k].priority > pending[mi].priority {
                    mi = k;
                }
                k = k + 1;
            }
            let ghost pend0 = pending@;
            let ghost sort0 = sorted@;
            let picked = pending.remove(mi);
            sorted.push(picked);
            proof {
                assert(pending@.to_multiset() =~= pend0.to_multiset().remove(pend0[mi as int]));
                assert(sorted@.to_multiset() =~= sort0.to_multiset().insert(pend0[mi as int]));
                assert(pending@.to_multiset().add(sorted@.to_multiset()) =~= input.to_multiset());
                assert forall|a: int, b: int|
                    0 <= a < sorted@.len() && 0 <= b < pending@.len() implies (#[trigger] sorted@[a]).priority
                    >= (#[trigger] pending@[b]).priority by {
                    if b < mi {
                        assert(pending@[b] == pend0[b]);
                    } else {
                        assert(pending@[b] == pend0[b + 1]);
                    }
                    if a < sort0.len() {
                        assert(sorted@[a] == sort0[a]);
                    } else {
                        assert(sorted@[a] == pend0[mi as int]);
                    }
                }
            }
        }
        RuleEngine { rules: sorted }
    }

    /// How many rules are loaded.
    pub fn rule_count(&self) -> (r: usize)
        ensures
            r == self.rules_seq().len(),
    {
        self.rules.len()
    }

    /// Every rule whose conditions all hold, in priority order.
    pub fn match_rules<'a>(&'a self, graph: &StateGraph, events: &Vec<Event>) -> (r: Vec<&'a Rule>)
        ensures
            r@.map_values(|x: &Rule| *x) == matching_from(
                self.rules_seq(),
                events_model(events@),
                graph@,
                0,
            ),
    {
        let ghost evs = events_model(events@);
        let n = self.rules.len();
        let mut r: Vec<&Rule> = Vec::new();
        let mut i: usize = 0;
        while i < n
            invariant
                0 <= i <= n,
                n == self.rules@.len(),
                matching_from(self.rules@, evs, graph@, 0) == r@.map_values(|x: &Rule| *x)
                    + matching_from(self.rules@, evs, graph@, i as int),
                evs == events_model(events@),
            decreases n - i,
        {
            let rule = &self.rules[i];
            let ghost before = r@.map_values(|x: &Rule| *x);
            if RuleMatcher::match_all_conditions(&rule.conditions, events, graph) {
                assert(rule_matches(self.rules@[i as int], evs, graph@));
                r.push(rule);
                proof {
                    assert(r@.map_values(|x: &Rule| *x) =~= before.push(self.rules@[i as int]));
                    assert(before + (seq![self.rules@[i as int]] + matching_from(
                        self.rules@,
                        evs,
                        graph@,
                        i + 1,
                    )) =~= r@.map_values(|x: &Rule| *x) + matching_from(
                        self.rules@,
                        evs,
                        graph@,
                        i + 1,
                    ));
                }
            } else {
                assert(!rule_matches(self.rules@[i as int], evs, graph@));
            }
            i = i + 1;
        }
        proof {
            assert(r@.map_values(|x: &Rule| *x) =~= matching_from(self.rules@, evs, graph@, 0));
        }
        r
    }

    /// The highest-priority rule whose conditions all hold.
    pub fn match_first<'a>(&'a self, graph: &StateGraph, events: &Vec<Event>) -> (r: Option<
        &'a Rule,
    >)
        ensures
            match r {
                Some(rule) => matching_from(self.rules_seq(), events_model(events@), graph@, 0).len()
                    > 0 && *rule == matching_from(
                    self.rules_seq(),
                    events_model(events@),
                    graph@,
                    0,
                )[0],
                None => matching_from(self.rules_seq(), events_model(events@), graph@, 0).len()
                    == 0,
            },
    {
        let ghost evs = events_model(events@);
        let n = self.rules.len();
        let mut i: usize = 0;
        while i < n
            invariant
                0 <= i <= n,
                n == self.rules@.len(),
                matching_from(self.rules@, evs, graph@, 0) == matching_from(
                    self.rules@,
                    evs,
                    graph@,
                    i as int,
                ),
                evs == events_model(events@),
            decreases n - i,
        {
            let rule = &self.rules[i];
            if RuleMatcher::match_all_conditions(&rule.conditions, events, graph) {
                assert(rule_matches(self.rules@[i as int], evs, graph@));
                return Some(rule);
            }
            assert(!rule_matches(self.rules@[i as int], evs, graph@));
            i = i + 1;
        }
        None
    }

    /// The first rule, in descending priority order, whose event
    /// conditions alone suffice: used when no graph is reachable.  A rule
    /// without event conditions never matches here.
    pub fn match_first_simple<'a>(&'a self, events: &Vec<Event>) -> (r: Option<&'a Rule>)
        ensures
            match r {
                Some(rule) => {
                    &&& first_simple_from(self.rules_seq(), events_model(events@), 0) >= 0
                    &&& *rule == self.rules_seq()[first_simple_from(
                        self.rules_seq(),
                        events_model(events@),
                        0,
                    )]
                    &&& rule_simple_matches(*rule, events_model(events@))
                },
                None => first_simple_from(self.rules_seq(), events_model(events@), 0) == -1,
            },
    {
        let n = self.rules.len();
        let mut i: usize = 0;
        while i < n
            invariant
                0 <= i <= n,
                n == self.rules@.len(),
                first_simple_from(self.rules@, events_model(events@), 0) == first_simple_from(
                    self.rules@,
                    events_model(events@),
                    i as int,
                ),
            decreases n - i,
        {
            let rule = &self.rules[i];
            if RuleMatcher::event_conditions_hold(rule, events) {
                assert(rule_simple_matches(self.rules_seq()[i as int], events_model(events@)));
                assert(first_simple_from(self.rules_seq(), events_model(events@), i as int)
                    == i as int);
                assert(*rule == self.rules_seq()[i as int]);
                return Some(rule);
            }
            assert(!rule_simple_matches(self.rules@[i as int], events_model(events@)));
            i = i + 1;
        }
        None
    }
}

} // verus!
