use unbase::network::{TransmitterArgs, TransmitterKind, Transport, TransportAddress};
use unbase::slab::SlabId;
use unbase::simulator::{Simulator, XYZPoint};

fn point() -> XYZPoint {
    XYZPoint { x: 1000, y: 1000, z: 1000 }
}

#[test]
fn simulator_starts_idle_at_zero() {
    let sim: Simulator<u32> = Simulator::new();
    assert_eq!(sim.get_clock(), 0);
    assert_eq!(sim.queue_len(), 0);
    assert!(sim.is_running());
}

#[test]
fn simulator_send_schedules_after_the_distance() {
    let mut sim: Simulator<u32> = Simulator::new();
    sim.send(point(), point(), 2, 7);
    assert_eq!(sim.queue_len(), 1);
    // leaves at 0, arrives at 0 + 2 * 1 + 1
    let handed = sim.advance_clock(1);
    assert_eq!(sim.get_clock(), 1);
    assert_eq!(handed.len(), 1);
    assert_eq!(handed[0].payload, 7);
    assert_eq!(handed[0].source_point.t, 0);
    assert_eq!(handed[0].dest_point.t, 3);
    assert_eq!(sim.queue_len(), 0);
}

#[test]
fn simulator_advance_keeps_events_that_arrive_before_the_new_clock() {
    let mut sim: Simulator<u32> = Simulator::new();
    sim.send(point(), point(), 0, 1); // arrives at 1
    sim.send(point(), point(), 9, 2); // arrives at 10
    let handed = sim.advance_clock(5);
    assert_eq!(sim.get_clock(), 5);
    assert_eq!(handed.len(), 1);
    assert_eq!(handed[0].payload, 2);
    assert_eq!(sim.queue_len(), 1);
    // nothing is lost: the other event is still in flight
    assert!(!sim.wait_idle_done());
}

#[test]
fn simulator_waits() {
    let mut sim: Simulator<u32> = Simulator::new();
    assert!(!sim.wait_ticks_done(2));
    sim.advance_clock(1);
    assert!(!sim.wait_ticks_done(2));
    sim.advance_clock(1);
    assert!(sim.wait_ticks_done(2));
    // the wait ended at 2: the next one counts from there
    assert!(!sim.wait_ticks_done(1));
    assert!(sim.wait_idle_done());
    sim.pause();
    assert!(!sim.is_running());
    sim.resume();
    assert!(sim.is_running());
    sim.advance_clock(3);
    sim.clear_wait();
    assert!(sim.wait_ticks_done(0));
}

#[test]
fn simulator_transport_is_local() {
    let sim: Simulator<u32> = Simulator::new();
    assert!(sim.is_local());
    let t = sim.make_transmitter(&TransmitterArgs::Local(SlabId(4))).unwrap();
    assert_eq!(t.kind, TransmitterKind::Dynamic);
    assert_eq!(t.to_slab_id, SlabId(4));
    assert!(sim.make_transmitter(&TransmitterArgs::Remote(SlabId(4), TransportAddress::Local)).is_none());
    assert!(matches!(sim.get_return_address(&TransportAddress::Local), TransportAddress::Local));
    assert!(matches!(sim.get_return_address(&TransportAddress::Blackhole), TransportAddress::Blackhole));
}
