//! The event model: the closed set of telemetry event families, the event
//! record itself, and the bounded FIFO buffer that backs the event bus.

use vstd::prelude::*;

verus! {

/// The eight telemetry event families (four of them split in two).
#[derive(Clone, Copy, PartialEq, Eq, Structural, Debug)]
pub enum EventType {
    ComputeUtil,
    ComputeMem,
    TransportBw,
    TransportDrop,
    StorageIops,
    StorageQDepth,
    ProcessState,
    ErrorHw,
    ErrorNet,
    TopoLinkDown,
    IntentRun,
    ActionExec,
}

/// The dotted lowercase wire name of an event family.
pub open spec fn spec_wire_name(t: EventType) -> Seq<char> {
    match t {
        EventType::ComputeUtil => "compute.util"@,
        EventType::ComputeMem => "compute.mem"@,
        EventType::TransportBw => "transport.bw"@,
        EventType::TransportDrop => "transport.drop"@,
        EventType::StorageIops => "storage.iops"@,
        EventType::StorageQDepth => "storage.qdepth"@,
        EventType::ProcessState => "process.state"@,
        EventType::ErrorHw => "error.hw"@,
        EventType::ErrorNet => "error.net"@,
        EventType::TopoLinkDown => "topo.link_down"@,
        EventType::IntentRun => "intent.run"@,
        EventType::ActionExec => "action.exec"@,
    }
}

impl EventType {
    /// The dotted lowercase name used on the wire and in rule files.
    pub fn wire_name(&self) -> (r: &'static str)
        ensures
            r@ == spec_wire_name(*self),
    {
        match self {
            EventType::ComputeUtil => "compute.util",
            EventType::ComputeMem => "compute.mem",
            EventType::TransportBw => "transport.bw",
            EventType::TransportDrop => "transport.drop",
            EventType::StorageIops => "storage.iops",
            EventType::StorageQDepth => "storage.qdepth",
            EventType::ProcessState => "process.state",
            EventType::ErrorHw => "error.hw",
            EventType::ErrorNet => "error.net",
            EventType::TopoLinkDown => "topo.link_down",
            EventType::IntentRun => "intent.run",
            EventType::ActionExec => "action.exec",
        }
    }
}

/// An immutable telemetry record.
pub struct Event {
    /// Milliseconds since the Unix epoch.
    pub ts: u64,
    pub event_type: EventType,
    /// Stable identifier of the physical or logical resource.
    pub entity_id: String,
    pub job_id: Option<String>,
    pub pid: Option<u32>,
    /// Free-form payload, typically a number or a status token.
    pub value: String,
    /// Set at the source agent or on hub ingress.
    pub node_id: Option<String>,
}

/// The mathematical image of an event.
pub struct EventModel {
    pub ts: u64,
    pub event_type: EventType,
    pub entity_id: Seq<char>,
    pub job_id: Option<Seq<char>>,
    pub pid: Option<u32>,
    pub value: Seq<char>,
    pub node_id: Option<Seq<char>>,
}

pub open spec fn opt_string_view(s: Option<String>) -> Option<Seq<char>> {
    match s {
        None => None,
        Some(v) => Some(v@),
    }
}

impl View for Event {
    type V = EventModel;

    open spec fn view(&self) -> EventModel {
        EventModel {
            ts: self.ts,
            event_type: self.event_type,
            entity_id: self.entity_id@,
            job_id: opt_string_view(self.job_id),
            pid: self.pid,
            value: self.value@,
            node_id: opt_string_view(self.node_id),
        }
    }
}

/// Relies on `std::time::SystemTime::now`: milliseconds elapsed since the
/// Unix epoch.  Nothing is promised of the clock's reading.
#[verifier::external_body]
fn now_millis() -> u64 {
    std::time::SystemTime::now()
        .duration_since(std::time::UNIX_EPOCH)
        .unwrap_or_default()
        .as_millis() as u64
}

impl Event {
    /// Builds an event stamped with the current wall clock.  The node id is
    /// left unset; the uplink path fills it in.
    pub fn new(
        event_type: EventType,
        entity_id: String,
        value: String,
        job_id: Option<String>,
        pid: Option<u32>,
    ) -> (r: Event)
        ensures
            r.event_type == event_type,
            r@.entity_id == entity_id@,
            r@.job_id == opt_string_view(job_id),
            r.pid == pid,
            r@.value == value@,
            r.node_id is None,
    {
        let ts = now_millis();
        Event { ts, event_type, entity_id, job_id, pid, value, node_id: None }
    }

    /// A field-for-field copy.
    pub fn duplicate(&self) -> (r: Event)
        ensures
            r@ == self@,
    {
        Event {
            ts: self.ts,
            event_type: self.event_type,
            entity_id: self.entity_id.clone(),
            job_id: match &self.job_id {
                Some(j) => Some(j.clone()),
                None => None,
            },
            pid: self.pid,
            value: self.value.clone(),
            node_id: match &self.node_id {
                Some(n) => Some(n.clone()),
                None => None,
            },
        }
    }
}

/// A producer may send only while the buffer holds fewer events than the
/// bound.
pub open spec fn bus_can_send(len: nat, capacity: nat) -> bool {
    len < capacity
}

/// The bounded multi-producer single-consumer buffer at the heart of the
/// event bus.  `try_send` refuses events at capacity and `recv` frees one
/// slot; the cooperative suspension around a refused send lives with the
/// async runtime, outside this crate.
pub struct EventBus {
    items: Vec<Event>,
    capacity: usize,
}

impl EventBus {
    pub closed spec fn items_model(&self) -> Seq<EventModel> {
        self.items@.map_values(|e: Event| e@)
    }

    pub closed spec fn spec_capacity(&self) -> nat {
        self.capacity as nat
    }

    /// An empty bus with the given bound.
    pub fn new(capacity: usize) -> (r: EventBus)
        requires
            capacity > 0,
        ensures
            r.items_model() == Seq::<EventModel>::empty(),
            r.spec_capacity() == capacity,
    {
        let r = EventBus { items: Vec::new(), capacity };
        proof {
            assert(r.items_model() =~= Seq::<EventModel>::empty());
        }
        r
    }

    pub fn len(&self) -> (r: usize)
        ensures
            r == self.items_model().len(),
    {
        self.items.len()
    }

    /// Appends the event when a slot is free; hands it back when the bus is
    /// full, so the caller can suspend and retry.
    pub fn try_send(&mut self, e: Event) -> (r: Option<Event>)
        ensures
            bus_can_send(old(self).items_model().len(), old(self).spec_capacity()) ==> {
                &&& r is None
                &&& final(self).items_model() == old(self).items_model().push(e@)
            },
            !bus_can_send(old(self).items_model().len(), old(self).spec_capacity()) ==> {
                &&& r matches Some(back) && back@ == e@
                &&& final(self).items_model() == old(self).items_model()
            },
            final(self).spec_capacity() == old(self).spec_capacity(),
    {
        if self.items.len() < self.capacity {
            self.items.push(e);
            proof {
                assert(self.items_model() =~= old(self).items_model().push(e@));
            }
            None
        } else {
            Some(e)
        }
    }

    /// Removes and returns the oldest event; `None` on an empty bus.
    pub fn recv(&mut self) -> (r: Option<Event>)
        ensures
            old(self).items_model().len() == 0 ==> {
                &&& r is None
                &&& final(self).items_model() == old(self).items_model()
            },
            old(self).items_model().len() > 0 ==> {
                &&& r matches Some(e) && e@ == old(self).items_model()[0]
                &&& final(self).items_model() == old(self).items_model().drop_first()
            },
            final(self).spec_capacity() == old(self).spec_capacity(),
    {
        if self.items.len() == 0 {
            None
        } else {
            let e = self.items.remove(0);
            proof {
                assert(self.items_model() =~= old(self).items_model().drop_first());
            }
            Some(e)
        }
    }
}

/// At exactly the capacity the next send is refused, and one receive is
/// enough to let it through again: back-pressure never loses an event and
/// never admits one over the bound.
pub proof fn lemma_bus_backpressure(len: nat, capacity: nat)
    requires
        capacity > 0,
        len == capacity,
    ensures
        !bus_can_send(len, capacity),
        bus_can_send((len - 1) as nat, capacity),
{
}

} // verus!
