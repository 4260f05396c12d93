//! The fault-to-quarantine translator: spotting irreversible hardware
//! faults in the event stream, the per-node cool-down that stops repeated
//! action, and the taint derived from a fault.  The orchestrator calls
//! themselves go through an adapter outside the crate.

use vstd::prelude::*;

use crate::event::{Event, EventModel, EventType};
use crate::strutil::{contains_seq, str_contains, str_eq};

verus! {

/// An irreversible fault worth quarantining a node for.
pub enum IrreversibleFault {
    /// A persistent accelerator fault of the XID class.
    PersistentXidError { node_id: String, gpu_id: String, xid_code: String },
    /// A severed fabric link.
    RdmaLinkDown { node_id: String, interface: String },
    /// A failed storage device.
    StorageDeviceFailure { node_id: String, device: String },
    /// Any other permanent hardware failure.
    OtherHardwareFailure { node_id: String, reason: String },
}

/// The mathematical image of a fault.
pub enum FaultModel {
    PersistentXidError { node_id: Seq<char>, gpu_id: Seq<char>, xid_code: Seq<char> },
    RdmaLinkDown { node_id: Seq<char>, interface: Seq<char> },
    StorageDeviceFailure { node_id: Seq<char>, device: Seq<char> },
    OtherHardwareFailure { node_id: Seq<char>, reason: Seq<char> },
}

impl View for IrreversibleFault {
    type V = FaultModel;

    open spec fn view(&self) -> FaultModel {
        match self {
            IrreversibleFault::PersistentXidError { node_id, gpu_id, xid_code } => {
                FaultModel::PersistentXidError {
                    node_id: node_id@,
                    gpu_id: gpu_id@,
                    xid_code: xid_code@,
                }
            },
            IrreversibleFault::RdmaLinkDown { node_id, interface } => {
                FaultModel::RdmaLinkDown { node_id: node_id@, interface: interface@ }
            },
            IrreversibleFault::StorageDeviceFailure { node_id, device } => {
                FaultModel::StorageDeviceFailure { node_id: node_id@, device: device@ }
            },
            IrreversibleFault::OtherHardwareFailure { node_id, reason } => {
                FaultModel::OtherHardwareFailure { node_id: node_id@, reason: reason@ }
            },
        }
    }
}

/// The node an event blames, or `unknown`.
pub open spec fn fault_node(e: EventModel) -> Seq<char> {
    match e.node_id {
        Some(n) => n,
        None => "unknown"@,
    }
}

/// Which fault, if any, an event reports.  Hardware errors of the XID
/// class and all remaining hardware errors come from `error.hw`; a
/// severed link comes from `error.net` carrying `link_down`, or from the
/// topology family outright.
pub open spec fn spec_detect_fault(e: EventModel) -> Option<FaultModel> {
    match e.event_type {
        EventType::ErrorHw => {
            if contains_seq(e.value, "XID"@) || contains_seq(e.value, "xid"@) {
                Some(FaultModel::PersistentXidError {
                    node_id: fault_node(e),
                    gpu_id: e.entity_id,
                    xid_code: e.value,
                })
            } else {
                Some(FaultModel::OtherHardwareFailure {
                    node_id: fault_node(e),
                    reason: e.entity_id + ": "@ + e.value,
                })
            }
        },
        EventType::ErrorNet => {
            if contains_seq(e.value, "link_down"@) || contains_seq(e.value, "LINK_DOWN"@) {
                Some(FaultModel::RdmaLinkDown { node_id: fault_node(e), interface: e.entity_id })
            } else {
                None
            }
        },
        EventType::TopoLinkDown => {
            Some(FaultModel::OtherHardwareFailure {
                node_id: fault_node(e),
                reason: "topology link down: "@ + e.entity_id + " - "@ + e.value,
            })
        },
        _ => None,
    }
}

/// Reads a fault out of an event, if it reports one.
pub fn detect_irreversible_fault(event: &Event) -> (r: Option<IrreversibleFault>)
    ensures
        match r {
            Some(f) => spec_detect_fault(event@) == Some(f@),
            None => spec_detect_fault(event@) is None,
        },
{
    let node_id: String = match &event.node_id {
        Some(n) => n.clone(),
        None => String::from_str("unknown"),
    };
    assert(node_id@ == fault_node(event@));
    match event.event_type {
        EventType::ErrorHw => {
            if str_contains(event.value.as_str(), "XID") || str_contains(
                event.value.as_str(),
                "xid",
            ) {
                Some(IrreversibleFault::PersistentXidError {
                    node_id,
                    gpu_id: event.entity_id.clone(),
                    xid_code: event.value.clone(),
                })
            } else {
                let reason = event.entity_id.clone().concat(": ").concat(event.value.as_str());
                proof {
                    assert(reason@ =~= event@.entity_id + ": "@ + event@.value);
                }
                Some(IrreversibleFault::OtherHardwareFailure { node_id, reason })
            }
        },
        EventType::ErrorNet => {
            if str_contains(event.value.as_str(), "link_down") || str_contains(
                event.value.as_str(),
                "LINK_DOWN",
            ) {
                Some(IrreversibleFault::RdmaLinkDown {
                    node_id,
                    interface: event.entity_id.clone(),
                })
            } else {
                None
            }
        },
        EventType::TopoLinkDown => {
            let reason = String::from_str("topology link down: ").concat(
                event.entity_id.as_str(),
            ).concat(" - ").concat(event.value.as_str());
            proof {
                assert(reason@ =~= "topology link down: "@ + event@.entity_id + " - "@
                    + event@.value);
            }
            Some(IrreversibleFault::OtherHardwareFailure { node_id, reason })
        },
        _ => None,
    }
}

/// The taint value derived from a fault.
pub open spec fn spec_taint_value(f: FaultModel) -> Seq<char> {
    match f {
        FaultModel::PersistentXidError { xid_code, .. } => "xid-error:"@ + xid_code,
        FaultModel::RdmaLinkDown { interface, .. } => "rdma-link-down:"@ + interface,
        FaultModel::StorageDeviceFailure { device, .. } => "storage-failure:"@ + device,
        FaultModel::OtherHardwareFailure { reason, .. } => "hardware-failure:"@ + reason,
    }
}

/// The node a fault blames.
pub fn fault_node_id(fault: &IrreversibleFault) -> (r: &String)
    ensures
        r@ == match fault@ {
            FaultModel::PersistentXidError { node_id, .. } => node_id,
            FaultModel::RdmaLinkDown { node_id, .. } => node_id,
            FaultModel::StorageDeviceFailure { node_id, .. } => node_id,
            FaultModel::OtherHardwareFailure { node_id, .. } => node_id,
        },
{
    match fault {
        IrreversibleFault::PersistentXidError { node_id, .. } => node_id,
        IrreversibleFault::RdmaLinkDown { node_id, .. } => node_id,
        IrreversibleFault::StorageDeviceFailure { node_id, .. } => node_id,
        IrreversibleFault::OtherHardwareFailure { node_id, .. } => node_id,
    }
}

/// Builds the taint value for a fault.
pub fn taint_value(fault: &IrreversibleFault) -> (r: String)
    ensures
        r@ == spec_taint_value(fault@),
{
    match fault {
        IrreversibleFault::PersistentXidError { xid_code, .. } => {
            let r = String::from_str("xid-error:").concat(xid_code.as_str());
            proof {
                assert(r@ =~= spec_taint_value(fault@));
            }
            r
        },
        IrreversibleFault::RdmaLinkDown { interface, .. } => {
            let r = String::from_str("rdma-link-down:").concat(interface.as_str());
            proof {
                assert(r@ =~= spec_taint_value(fault@));
            }
            r
        },
        IrreversibleFault::StorageDeviceFailure { device, .. } => {
            let r = String::from_str("storage-failure:").concat(device.as_str());
            proof {
                assert(r@ =~= spec_taint_value(fault@));
            }
            r
        },
        IrreversibleFault::OtherHardwareFailure { reason, .. } => {
            let r = String::from_str("hardware-failure:").concat(reason.as_str());
            proof {
                assert(r@ =~= spec_taint_value(fault@));
            }
            r
        },
    }
}

/// The taint key every quarantine uses.
pub fn taint_key() -> (r: &'static str)
    ensures
        r@ == "hardware-failure"@,
{
    "hardware-failure"
}

/// When a node was last acted on, scanning from `i`.
pub open spec fn acted_from(entries: Seq<(Seq<char>, u64)>, node: Seq<char>, i: int) -> Option<u64>
    decreases entries.len() - i,
{
    if i < 0 || i >= entries.len() {
        None
    } else if entries[i].0 == node {
        Some(entries[i].1)
    } else {
        acted_from(entries, node, i + 1)
    }
}

/// The per-node cool-down that keeps the translator from acting twice in
/// quick succession.
pub struct CooldownTable {
    entries: Vec<(String, u64)>,
    cooldown_ms: u64,
}

/// The model of the cool-down entries.
pub open spec fn cooldown_view(v: Seq<(String, u64)>) -> Seq<(Seq<char>, u64)> {
    v.map_values(|p: (String, u64)| (p.0@, p.1))
}

/// A node is suppressed while the last action lies within the window.
pub open spec fn spec_suppressed(
    entries: Seq<(Seq<char>, u64)>,
    cooldown_ms: u64,
    node: Seq<char>,
    now: u64,
) -> bool {
    match acted_from(entries, node, 0) {
        Some(last) => now < last + cooldown_ms,
        None => false,
    }
}

impl CooldownTable {
    pub closed spec fn entries_model(&self) -> Seq<(Seq<char>, u64)> {
        cooldown_view(self.entries@)
    }

    pub closed spec fn window(&self) -> u64 {
        self.cooldown_ms
    }

    /// A fresh table with the given window; the default is five minutes.
    pub fn new(cooldown_ms: u64) -> (r: CooldownTable)
        ensures
            r.entries_model() == Seq::<(Seq<char>, u64)>::empty(),
            r.window() == cooldown_ms,
    {
        let r = CooldownTable { entries: Vec::new(), cooldown_ms };
        proof {
            assert(r.entries_model() =~= Seq::<(Seq<char>, u64)>::empty());
        }
        r
    }

    /// Whether action on this node is currently suppressed.
    pub fn suppressed(&self, node: &String, now: u64) -> (r: bool)
        ensures
            r == spec_suppressed(self.entries_model(), self.window(), node@, now),
    {
        let n = self.entries.len();
        let mut i: usize = 0;
        while i < n
            invariant
                0 <= i <= n,
                n == self.entries@.len(),
                acted_from(self.entries_model(), node@, 0) == acted_from(
                    self.entries_model(),
                    node@,
                    i as int,
                ),
            decreases n - i,
        {
            let e = &self.entries[i];
            if str_eq(e.0.as_str(), node.as_str()) {
                assert(self.entries_model()[i as int].0 == node@);
                return match e.1.checked_add(self.cooldown_ms) {
                    Some(s) => now < s,
                    None => true,
                };
            }
            assert(self.entries_model()[i as int].0 != node@);
            i = i + 1;
        }
        false
    }

    /// Arms the cool-down for a node: remembered whether or not the
    /// orchestrator call succeeds, so failures cannot loop tightly.
    pub fn arm(&mut self, node: &String, now: u64)
        ensures
            acted_from(final(self).entries_model(), node@, 0) == Some(now),
            final(self).window() == old(self).window(),
    {
        let n = self.entries.len();
        let mut i: usize = 0;
        while i < n
            invariant
                0 <= i <= n,
                n == self.entries@.len(),
                self.entries@ == old(self).entries@,
                self.cooldown_ms == old(self).cooldown_ms,
                forall|j: int| 0 <= j < i ==> (#[trigger] cooldown_view(self.entries@)[j]).0
                    != node@,
            decreases n - i,
        {
            let hit = str_eq(self.entries[i].0.as_str(), node.as_str());
            if hit {
                assert(cooldown_view(self.entries@)[i as int].0 == node@);
                let ghost before = cooldown_view(self.entries@);
                self.entries.set(i, (node.clone(), now));
                proof {
                    assert(cooldown_view(self.entries@) =~= before.update(i as int, (node@, now)));
                    assert forall|j: int| 0 <= j < i implies (#[trigger] cooldown_view(
                        self.entries@,
                    )[j]).0 != node@ by {
                        assert(cooldown_view(self.entries@)[j] == before[j]);
                    }
                    lemma_acted_prefix(cooldown_view(self.entries@), node@, i as int);
                }
                return ;
            }
            assert(cooldown_view(self.entries@)[i as int].0 != node@);
            i = i + 1;
        }
        let ghost before = cooldown_view(self.entries@);
        self.entries.push((node.clone(), now));
        proof {
            assert(cooldown_view(self.entries@) =~= before.push((node@, now)));
            assert forall|j: int| 0 <= j < n implies (#[trigger] cooldown_view(
                self.entries@,
            )[j]).0 != node@ by {
                assert(cooldown_view(self.entries@)[j] == before[j]);
            }
            lemma_acted_prefix(cooldown_view(self.entries@), node@, n as int);
        }
    }
}

/// A lookup skips a prefix of foreign nodes and lands on the first entry
/// of the node.
proof fn lemma_acted_prefix(entries: Seq<(Seq<char>, u64)>, node: Seq<char>, target: int)
    requires
        0 <= target < entries.len(),
        entries[target].0 == node,
        forall|j: int| 0 <= j < target ==> (#[trigger] entries[j]).0 != node,
    ensures
        acted_from(entries, node, 0) == Some(entries[target].1),
{
    lemma_acted_prefix_from(entries, node, target, 0);
}

proof fn lemma_acted_prefix_from(entries: Seq<(Seq<char>, u64)>, node: Seq<char>, target: int, i: int)
    requires
        0 <= i <= target < entries.len(),
        entries[target].0 == node,
        forall|j: int| 0 <= j < target ==> (#[trigger] entries[j]).0 != node,
    ensures
        acted_from(entries, node, i) == Some(entries[target].1),
    decreases target - i,
{
    if i < target {
        lemma_acted_prefix_from(entries, node, target, i + 1);
    }
}

/// Arming the cool-down suppresses the node for the whole window: a
/// second fault on the same node within the window yields no action.
pub proof fn lemma_cooldown_suppresses(
    entries: Seq<(Seq<char>, u64)>,
    cooldown_ms: u64,
    node: Seq<char>,
    armed_at: u64,
    now: u64,
)
    requires
        acted_from(entries, node, 0) == Some(armed_at),
        armed_at <= now,
        now < armed_at + cooldown_ms,
    ensures
        spec_suppressed(entries, cooldown_ms, node, now),
{
}

} // verus!
