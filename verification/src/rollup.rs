//! The edge roll-up filter: decides, on the agent, which events deserve
//! uplink to the hub.  Errors, process transitions, drops and topology
//! changes always travel; metric readings travel once per `(pid, entity)`
//! binding, and utilization additionally on a sharp swing.

use vstd::prelude::*;

use crate::event::{Event, EventModel, EventType};
use crate::strutil::{spec_parse_milli, parse_decimal_milli, str_eq};

verus! {

/// The remembered state: which bindings already travelled, and the last
/// utilization reading per binding, in thousandths of a percent point.
pub struct RollupFilter {
    forwarded: Vec<(u32, String)>,
    last_util: Vec<(u32, String, i64)>,
}

/// The model of the forwarded-bindings list.
pub open spec fn bindings_view(v: Seq<(u32, String)>) -> Seq<(u32, Seq<char>)> {
    v.map_values(|p: (u32, String)| (p.0, p.1@))
}

/// The model of the last-utilization list.
pub open spec fn utils_view(v: Seq<(u32, String, i64)>) -> Seq<(u32, Seq<char>, int)> {
    v.map_values(|p: (u32, String, i64)| (p.0, p.1@, p.2 as int))
}

/// The filter's model: bindings seen, and last readings.
pub struct RollupModel {
    pub forwarded: Seq<(u32, Seq<char>)>,
    pub last_util: Seq<(u32, Seq<char>, int)>,
}

impl View for RollupFilter {
    type V = RollupModel;

    closed spec fn view(&self) -> RollupModel {
        RollupModel {
            forwarded: bindings_view(self.forwarded@),
            last_util: utils_view(self.last_util@),
        }
    }
}

/// The binding has already travelled.
pub open spec fn has_binding(b: Seq<(u32, Seq<char>)>, pid: u32, ent: Seq<char>) -> bool {
    exists|i: int| 0 <= i < b.len() && b[i] == (pid, ent)
}

/// The last recorded utilization for a binding, scanning from `i`.
pub open spec fn util_from(u: Seq<(u32, Seq<char>, int)>, pid: u32, ent: Seq<char>, i: int) -> Option<int>
    decreases u.len() - i,
{
    if i < 0 || i >= u.len() {
        None
    } else if u[i].0 == pid && u[i].1 == ent {
        Some(u[i].2)
    } else {
        util_from(u, pid, ent, i + 1)
    }
}

/// The last recorded utilization for a binding.
pub open spec fn util_of(u: Seq<(u32, Seq<char>, int)>, pid: u32, ent: Seq<char>) -> Option<int> {
    util_from(u, pid, ent, 0)
}

/// A swing between readings sharp enough to travel: from above 80% down
/// below 1%, or the inverse.
pub open spec fn sharp_swing(last: int, cur: int) -> bool {
    (last > 80000 && cur < 1000) || (last < 1000 && cur > 80000)
}

/// The filter's invariant: a utilization reading is only ever remembered
/// for a binding that has already travelled.
pub open spec fn rollup_inv(st: RollupModel) -> bool {
    forall|p: u32, ent: Seq<char>|
        #[trigger] util_of(st.last_util, p, ent) is Some ==> has_binding(st.forwarded, p, ent)
}

/// Whether an event travels to the hub, given the filter's state.
pub open spec fn spec_should_forward(st: RollupModel, e: EventModel) -> bool {
    match e.event_type {
        EventType::ErrorHw => true,
        EventType::ErrorNet => true,
        EventType::ProcessState => true,
        EventType::TransportDrop => true,
        EventType::TopoLinkDown => true,
        EventType::ComputeUtil | EventType::ComputeMem => match e.pid {
            None => false,
            Some(p) => {
                if !has_binding(st.forwarded, p, e.entity_id) {
                    true
                } else {
                    match (spec_parse_milli(e.value), util_of(st.last_util, p, e.entity_id)) {
                        (Some(cur), Some(last)) => sharp_swing(last, cur),
                        _ => false,
                    }
                }
            },
        },
        EventType::StorageIops | EventType::StorageQDepth | EventType::TransportBw => match e.pid {
            None => false,
            Some(p) => !has_binding(st.forwarded, p, e.entity_id),
        },
        EventType::IntentRun | EventType::ActionExec => false,
    }
}

/// How the filter's memory advances on an event.
pub open spec fn spec_rollup_next(st: RollupModel, e: EventModel) -> RollupModel {
    match e.event_type {
        EventType::ComputeUtil | EventType::ComputeMem => match e.pid {
            None => st,
            Some(p) => {
                if !has_binding(st.forwarded, p, e.entity_id) {
                    let st1 = RollupModel {
                        forwarded: st.forwarded.push((p, e.entity_id)),
                        ..st
                    };
                    match spec_parse_milli(e.value) {
                        Some(cur) => RollupModel {
                            last_util: st1.last_util.push((p, e.entity_id, cur)),
                            ..st1
                        },
                        None => st1,
                    }
                } else {
                    match (spec_parse_milli(e.value), util_of(st.last_util, p, e.entity_id)) {
                        (Some(cur), Some(last)) => {
                            if sharp_swing(last, cur) {
                                RollupModel {
                                    last_util: util_set(st.last_util, p, e.entity_id, cur),
                                    ..st
                                }
                            } else {
                                st
                            }
                        },
                        _ => st,
                    }
                }
            },
        },
        EventType::StorageIops | EventType::StorageQDepth | EventType::TransportBw => match e.pid {
            None => st,
            Some(p) => {
                if !has_binding(st.forwarded, p, e.entity_id) {
                    RollupModel { forwarded: st.forwarded.push((p, e.entity_id)), ..st }
                } else {
                    st
                }
            },
        },
        _ => st,
    }
}

/// The last-utilization list with one binding overwritten, scanning from
/// `i`; the binding is known to be present.
pub open spec fn util_set_from(
    u: Seq<(u32, Seq<char>, int)>,
    pid: u32,
    ent: Seq<char>,
    cur: int,
    i: int,
) -> Seq<(u32, Seq<char>, int)>
    decreases u.len() - i,
{
    if i < 0 || i >= u.len() {
        u
    } else if u[i].0 == pid && u[i].1 == ent {
        u.update(i, (pid, ent, cur))
    } else {
        util_set_from(u, pid, ent, cur, i + 1)
    }
}

/// The last-utilization list with one binding overwritten.
pub open spec fn util_set(
    u: Seq<(u32, Seq<char>, int)>,
    pid: u32,
    ent: Seq<char>,
    cur: int,
) -> Seq<(u32, Seq<char>, int)> {
    util_set_from(u, pid, ent, cur, 0)
}

/// What a lookup sees through one appended reading.
proof fn lemma_util_push(u: Seq<(u32, Seq<char>, int)>, y: (u32, Seq<char>, int), q: u32, x: Seq<char>, i: int)
    requires
        0 <= i <= u.len(),
    ensures
        util_from(u.push(y), q, x, i) == (match util_from(u, q, x, i) {
            Some(v) => Some(v),
            None => if y.0 == q && y.1 == x {
                Some(y.2)
            } else {
                None
            },
        }),
    decreases u.len() - i,
{
    if i < u.len() {
        assert(u.push(y)[i] == u[i]);
        lemma_util_push(u, y, q, x, i + 1);
    } else {
        assert(u.push(y)[i] == y);
        assert(util_from(u.push(y), q, x, i + 1) is None);
    }
}

/// Overwriting a present binding's reading never creates a reading for
/// another binding.
proof fn lemma_util_set_domain(
    u: Seq<(u32, Seq<char>, int)>,
    p: u32,
    ent: Seq<char>,
    cur: int,
    q: u32,
    x: Seq<char>,
    i: int,
)
    requires
        0 <= i <= u.len(),
    ensures
        util_from(util_set_from(u, p, ent, cur, i), q, x, 0) is Some ==> util_from(u, q, x, 0)
            is Some,
    decreases u.len() - i,
{
    if i >= u.len() {
    } else if u[i].0 == p && u[i].1 == ent {
        lemma_util_update_domain(u, i, (p, ent, cur), q, x, 0);
    } else {
        lemma_util_set_domain(u, p, ent, cur, q, x, i + 1);
    }
}

proof fn lemma_util_update_domain(
    u: Seq<(u32, Seq<char>, int)>,
    at: int,
    y: (u32, Seq<char>, int),
    q: u32,
    x: Seq<char>,
    i: int,
)
    requires
        0 <= at < u.len(),
        y.0 == u[at].0,
        y.1 == u[at].1,
        0 <= i <= u.len(),
    ensures
        util_from(u.update(at, y), q, x, i) is Some ==> util_from(u, q, x, i) is Some,
    decreases u.len() - i,
{
    if i < u.len() {
        lemma_util_update_domain(u, at, y, q, x, i + 1);
    }
}

/// One step of the filter preserves its invariant.
pub proof fn lemma_rollup_next_inv(st: RollupModel, e: EventModel)
    requires
        rollup_inv(st),
    ensures
        rollup_inv(spec_rollup_next(st, e)),
{
    let st1 = spec_rollup_next(st, e);
    match e.event_type {
        EventType::ComputeUtil | EventType::ComputeMem => {
            match e.pid {
                None => {},
                Some(p) => {
                    if !has_binding(st.forwarded, p, e.entity_id) {
                        let fwd1 = st.forwarded.push((p, e.entity_id));
                        assert(fwd1[st.forwarded.len() as int] == (p, e.entity_id));
                        assert(has_binding(fwd1, p, e.entity_id));
                        assert forall|q: u32, x: Seq<char>|
                            has_binding(st.forwarded, q, x) implies has_binding(fwd1, q, x) by {
                            let j = choose|j: int|
                                0 <= j < st.forwarded.len() && st.forwarded[j] == (q, x);
                            assert(fwd1[j] == (q, x));
                        }
                        match spec_parse_milli(e.value) {
                            Some(cur) => {
                                assert forall|q: u32, x: Seq<char>| #[trigger]
                                    util_of(st1.last_util, q, x) is Some implies has_binding(
                                    st1.forwarded,
                                    q,
                                    x,
                                ) by {
                                    lemma_util_push(
                                        st.last_util,
                                        (p, e.entity_id, cur),
                                        q,
                                        x,
                                        0,
                                    );
                                    if util_of(st.last_util, q, x) is Some {
                                        assert(has_binding(st.forwarded, q, x));
                                        let j = choose|j: int|
                                            0 <= j < st.forwarded.len() && st.forwarded[j] == (
                                            q,
                                            x,
                                            );
                                        assert(st1.forwarded[j] == (q, x));
                                    } else {
                                        assert(q == p && x == e.entity_id);
                                        assert(st1.forwarded[st.forwarded.len() as int] == (
                                        p,
                                        e.entity_id,
                                        ));
                                    }
                                }
                            },
                            None => {},
                        }
                    } else {
                        match (spec_parse_milli(e.value), util_of(st.last_util, p, e.entity_id)) {
                            (Some(cur), Some(last)) => {
                                if sharp_swing(last, cur) {
                                    assert forall|q: u32, x: Seq<char>| #[trigger]
                                        util_of(st1.last_util, q, x) is Some implies has_binding(
                                        st1.forwarded,
                                        q,
                                        x,
                                    ) by {
                                        lemma_util_set_domain(
                                            st.last_util,
                                            p,
                                            e.entity_id,
                                            cur,
                                            q,
                                            x,
                                            0,
                                        );
                                        assert(util_of(st.last_util, q, x) is Some);
                                        assert(has_binding(st.forwarded, q, x));
                                    }
                                }
                            },
                            _ => {},
                        }
                    }
                },
            }
        },
        EventType::StorageIops | EventType::StorageQDepth | EventType::TransportBw => {
            match e.pid {
                None => {},
                Some(p) => {
                    if !has_binding(st.forwarded, p, e.entity_id) {
                        let fwd1 = st.forwarded.push((p, e.entity_id));
                        assert forall|q: u32, x: Seq<char>|
                            has_binding(st.forwarded, q, x) implies has_binding(fwd1, q, x) by {
                            let j = choose|j: int|
                                0 <= j < st.forwarded.len() && st.forwarded[j] == (q, x);
                            assert(fwd1[j] == (q, x));
                        }
                    }
                },
            }
        },
        _ => {},
    }
}

impl RollupFilter {
    /// An empty filter: nothing has travelled yet.
    pub fn new() -> (r: RollupFilter)
        ensures
            r@.forwarded == Seq::<(u32, Seq<char>)>::empty(),
            r@.last_util == Seq::<(u32, Seq<char>, int)>::empty(),
            rollup_inv(r@),
    {
        let r = RollupFilter { forwarded: Vec::new(), last_util: Vec::new() };
        proof {
            assert(r@.forwarded =~= Seq::<(u32, Seq<char>)>::empty());
            assert(r@.last_util =~= Seq::<(u32, Seq<char>, int)>::empty());
        }
        r
    }

    /// Finds a binding in the forwarded list.
    fn binding_known(&self, pid: u32, ent: &String) -> (r: bool)
        ensures
            r == has_binding(self@.forwarded, pid, ent@),
    {
        let n = self.forwarded.len();
        let mut i: usize = 0;
        while i < n
            invariant
                0 <= i <= n,
                n == self.forwarded@.len(),
                forall|j: int| 0 <= j < i ==> self@.forwarded[j] != (pid, ent@),
            decreases n - i,
        {
            let b = &self.forwarded[i];
            if b.0 == pid && str_eq(b.1.as_str(), ent.as_str()) {
                assert(self@.forwarded[i as int] == (pid, ent@));
                return true;
            }
            assert(self@.forwarded[i as int] != (pid, ent@));
            i = i + 1;
        }
        assert(!has_binding(self@.forwarded, pid, ent@));
        false
    }

    /// Looks up the last utilization recorded for a binding.
    fn util_lookup(&self, pid: u32, ent: &String) -> (r: Option<i64>)
        ensures
            match r {
                Some(v) => util_of(self@.last_util, pid, ent@) == Some(v as int),
                None => util_of(self@.last_util, pid, ent@) is None,
            },
    {
        let n = self.last_util.len();
        let mut i: usize = 0;
        while i < n
            invariant
                0 <= i <= n,
                n == self.last_util@.len(),
                util_of(self@.last_util, pid, ent@) == util_from(
                    self@.last_util,
                    pid,
                    ent@,
                    i as int,
                ),
            decreases n - i,
        {
            let u = &self.last_util[i];
            if u.0 == pid && str_eq(u.1.as_str(), ent.as_str()) {
                assert(self@.last_util[i as int].0 == pid && self@.last_util[i as int].1 == ent@);
                return Some(u.2);
            }
            assert(!(self@.last_util[i as int].0 == pid && self@.last_util[i as int].1 == ent@));
            i = i + 1;
        }
        None
    }

    /// Overwrites the last utilization for a binding in place.
    fn util_store(&mut self, pid: u32, ent: &String, cur: i64)
        ensures
            final(self)@.last_util == util_set(old(self)@.last_util, pid, ent@, cur as int),
            final(self)@.forwarded == old(self)@.forwarded,
    {
        let n = self.last_util.len();
        let mut i: usize = 0;
        while i < n
            invariant
                0 <= i <= n,
                n == self.last_util@.len(),
                self@ == old(self)@,
                util_set(self@.last_util, pid, ent@, cur as int) == util_set_from(
                    self@.last_util,
                    pid,
                    ent@,
                    cur as int,
                    i as int,
                ),
            decreases n - i,
        {
            let hit = {
                let u = &self.last_util[i];
                u.0 == pid && str_eq(u.1.as_str(), ent.as_str())
            };
            if hit {
                assert(self@.last_util[i as int].0 == pid && self@.last_util[i as int].1 == ent@);
                let ghost before = utils_view(self.last_util@);
                self.last_util.set(i, (pid, ent.clone(), cur));
                proof {
                    assert(utils_view(self.last_util@) =~= before.update(
                        i as int,
                        (pid, ent@, cur as int),
                    ));
                }
                return ;
            }
            assert(!(self@.last_util[i as int].0 == pid && self@.last_util[i as int].1 == ent@));
            i = i + 1;
        }
    }

    /// Decides whether the event travels, and advances the filter's
    /// memory the way the decision requires.
    pub fn should_forward(&mut self, event: &Event) -> (r: bool)
        ensures
            r == spec_should_forward(old(self)@, event@),
            final(self)@ == spec_rollup_next(old(self)@, event@),
            rollup_inv(old(self)@) ==> rollup_inv(final(self)@),
    {
        proof {
            if rollup_inv(self@) {
                lemma_rollup_next_inv(self@, event@);
            }
        }
        match event.event_type {
            EventType::ErrorHw | EventType::ErrorNet | EventType::ProcessState
                | EventType::TransportDrop | EventType::TopoLinkDown => true,
            EventType::ComputeUtil | EventType::ComputeMem => {
                let p = match event.pid {
                    None => {
                        return false;
                    },
                    Some(p) => p,
                };
                if !self.binding_known(p, &event.entity_id) {
                    let ghost before = bindings_view(self.forwarded@);
                    self.forwarded.push((p, event.entity_id.clone()));
                    proof {
                        assert(bindings_view(self.forwarded@) =~= before.push(
                            (p, event@.entity_id),
                        ));
                    }
                    match parse_decimal_milli(event.value.as_str()) {
                        Some(cur) => {
                            let ghost ubefore = utils_view(self.last_util@);
                            self.last_util.push((p, event.entity_id.clone(), cur));
                            proof {
                                assert(utils_view(self.last_util@) =~= ubefore.push(
                                    (p, event@.entity_id, cur as int),
                                ));
                            }
                        },
                        None => {},
                    }
                    true
                } else {
                    let cur = parse_decimal_milli(event.value.as_str());
                    let last = self.util_lookup(p, &event.entity_id);
                    match (cur, last) {
                        (Some(c), Some(l)) => {
                            if (l > 80000 && c < 1000) || (l < 1000 && c > 80000) {
                                self.util_store(p, &event.entity_id, c);
                                true
                            } else {
                                false
                            }
                        },
                        _ => false,
                    }
                }
            },
            EventType::StorageIops | EventType::StorageQDepth | EventType::TransportBw => {
                let p = match event.pid {
                    None => {
                        return false;
                    },
                    Some(p) => p,
                };
                if !self.binding_known(p, &event.entity_id) {
                    let ghost before = bindings_view(self.forwarded@);
                    self.forwarded.push((p, event.entity_id.clone()));
                    proof {
                        assert(bindings_view(self.forwarded@) =~= before.push(
                            (p, event@.entity_id),
                        ));
                    }
                    true
                } else {
                    false
                }
            },
            EventType::IntentRun | EventType::ActionExec => false,
        }
    }
}

/// The first metric event of a `(pid, entity)` binding travels; an
/// identical event arriving next does not.  The invariant premise holds
/// of every filter the crate can build: `new` establishes it and
/// `should_forward` keeps it.
pub proof fn lemma_rollup_first_only(st: RollupModel, e: EventModel)
    requires
        e.event_type == EventType::ComputeUtil || e.event_type == EventType::ComputeMem
            || e.event_type == EventType::StorageIops || e.event_type == EventType::StorageQDepth
            || e.event_type == EventType::TransportBw,
        e.pid is Some,
        !has_binding(st.forwarded, e.pid->0, e.entity_id),
        rollup_inv(st),
    ensures
        spec_should_forward(st, e),
        !spec_should_forward(spec_rollup_next(st, e), e),
{
    // A reading for an unseen binding would contradict the invariant.
    assert(util_of(st.last_util, e.pid->0, e.entity_id) is None) by {
        if util_of(st.last_util, e.pid->0, e.entity_id) is Some {
            assert(has_binding(st.forwarded, e.pid->0, e.entity_id));
        }
    }
    let p = e.pid->0;
    let st1 = spec_rollup_next(st, e);
    assert(st1.forwarded[st.forwarded.len() as int] == (p, e.entity_id));
    assert(has_binding(st1.forwarded, p, e.entity_id));
    match e.event_type {
        EventType::ComputeUtil | EventType::ComputeMem => {
            lemma_util_from_none(st.last_util, p, e.entity_id, 0);
            match spec_parse_milli(e.value) {
                Some(cur) => {
                    let u1 = st.last_util.push((p, e.entity_id, cur));
                    assert(st1.last_util == u1);
                    lemma_util_from_last(st.last_util, p, e.entity_id, cur, 0);
                    assert(util_of(u1, p, e.entity_id) == Some(cur));
                    assert(!sharp_swing(cur, cur));
                },
                None => {
                    assert(st1.last_util == st.last_util);
                },
            }
        },
        _ => {},
    }
}

/// When no reading matches, the lookup is `None` because every entry
/// differs.
proof fn lemma_util_from_none(u: Seq<(u32, Seq<char>, int)>, pid: u32, ent: Seq<char>, i: int)
    requires
        0 <= i <= u.len(),
        util_from(u, pid, ent, i) is None,
    ensures
        forall|j: int| i <= j < u.len() ==> !((#[trigger] u[j]).0 == pid && u[j].1 == ent),
    decreases u.len() - i,
{
    if i < u.len() {
        lemma_util_from_none(u, pid, ent, i + 1);
    }
}

/// Pushing a reading for an unseen binding makes it the one the lookup
/// finds.
proof fn lemma_util_from_last(u: Seq<(u32, Seq<char>, int)>, pid: u32, ent: Seq<char>, cur: int, i: int)
    requires
        0 <= i <= u.len(),
        util_from(u, pid, ent, i) is None,
    ensures
        util_from(u.push((pid, ent, cur)), pid, ent, i) == Some(cur),
    decreases u.len() - i,
{
    if i < u.len() {
        lemma_util_from_last(u, pid, ent, cur, i + 1);
    } else {
        assert(u.push((pid, ent, cur))[i].0 == pid);
    }
}

} // verus!
