//! The bounded bus and the edge roll-up filter.

use xctl::event::{Event, EventBus, EventType};
use xctl::rollup::RollupFilter;

fn util_event(pid: u32, entity: &str, value: &str) -> Event {
    Event {
        ts: 1000,
        event_type: EventType::ComputeUtil,
        entity_id: entity.to_string(),
        job_id: None,
        pid: Some(pid),
        value: value.to_string(),
        node_id: None,
    }
}

#[test]
fn bus_refuses_at_capacity_and_recovers_after_recv() {
    let mut bus = EventBus::new(2);
    assert!(bus.try_send(util_event(1, "gpu-0", "10")).is_none());
    assert!(bus.try_send(util_event(2, "gpu-0", "20")).is_none());
    // At exactly the capacity the next send is refused and handed back.
    let refused = bus.try_send(util_event(3, "gpu-0", "30"));
    assert!(refused.is_some());
    assert_eq!(refused.unwrap().pid, Some(3));
    // One receive frees a slot, and the send goes through.
    let first = bus.recv().unwrap();
    assert_eq!(first.pid, Some(1));
    assert!(bus.try_send(util_event(3, "gpu-0", "30")).is_none());
    assert_eq!(bus.len(), 2);
}

#[test]
fn rollup_uplinks_only_the_first_of_a_flat_series() {
    let mut filter = RollupFilter::new();
    let values = ["70", "71", "72", "73", "74", "72", "73", "75", "76", "77"];
    let mut sent = 0;
    for v in values.iter() {
        if filter.should_forward(&util_event(3, "gpu-1", v)) {
            sent += 1;
        }
    }
    assert_eq!(sent, 1);
}

#[test]
fn rollup_uplinks_sharp_swings() {
    let mut filter = RollupFilter::new();
    assert!(filter.should_forward(&util_event(3, "gpu-1", "95")));
    assert!(!filter.should_forward(&util_event(3, "gpu-1", "90")));
    // A collapse from above 80 to below 1 travels.
    assert!(filter.should_forward(&util_event(3, "gpu-1", "0.5")));
    // And the climb back up travels too.
    assert!(filter.should_forward(&util_event(3, "gpu-1", "99")));
}

#[test]
fn rollup_storage_first_event_only() {
    let mut filter = RollupFilter::new();
    let mut e = util_event(5, "nvme0n1", "100");
    e.event_type = EventType::StorageIops;
    assert!(filter.should_forward(&e));
    assert!(!filter.should_forward(&e));
}

#[test]
fn rollup_always_uplinks_errors_and_transitions() {
    let mut filter = RollupFilter::new();
    let mut e = util_event(5, "gpu-0", "XID_79");
    e.event_type = EventType::ErrorHw;
    assert!(filter.should_forward(&e));
    assert!(filter.should_forward(&e));
    e.event_type = EventType::ProcessState;
    assert!(filter.should_forward(&e));
    e.event_type = EventType::TransportDrop;
    assert!(filter.should_forward(&e));
    e.event_type = EventType::TopoLinkDown;
    assert!(filter.should_forward(&e));
    e.event_type = EventType::IntentRun;
    assert!(!filter.should_forward(&e));
}
