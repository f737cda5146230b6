use in_memory_network::network::inbound_queue::InboundQueue;
use in_memory_network::network::ip::{IpAddr, SocketAddr};
use in_memory_network::network::outbound_buffer::OutboundBuffer;
use in_memory_network::network::spec::NetworkSpec;
use in_memory_network::tracing::simulation_step::{
    DropReason, PacketDropped, PacketInNode, PacketInTransit, SimulationStep, SimulationStepKind,
};
use in_memory_network::tracing::simulation_stepper::{DroppedPacketInfo, SimulationStepper};
use in_memory_network::tracing::tracer::SimulationStepTracer;
use in_memory_network::transmit::{InTransitData, OwnedTransmit, DEFAULT_TTL};

fn in_node(time: u128, id: u128, node: &str) -> SimulationStep {
    SimulationStep {
        relative_time: time,
        kind: SimulationStepKind::PacketInNode(PacketInNode {
            packet_id: id,
            packet_number: 0,
            packet_size_bytes: 1,
            node_id: node.to_string(),
            dropped_on_arrival: false,
        }),
    }
}

fn in_transit(time: u128, id: u128, node: &str) -> SimulationStep {
    SimulationStep {
        relative_time: time,
        kind: SimulationStepKind::PacketInTransit(PacketInTransit {
            packet_id: id,
            node_id: node.to_string(),
            link_id: "l".to_string(),
        }),
    }
}

fn dropped(time: u128, id: u128, reason: DropReason) -> SimulationStep {
    SimulationStep {
        relative_time: time,
        kind: SimulationStepKind::PacketDropped(PacketDropped {
            packet_id: id,
            node_id: "r".to_string(),
            reason,
        }),
    }
}

#[test]
fn the_stepper_follows_packets() {
    let mut stepper = SimulationStepper::default();
    stepper.record(in_node(0, 1, "a"));
    stepper.record(in_transit(1, 1, "a"));
    stepper.record(in_node(2, 2, "b"));
    stepper.record(in_node(3, 1, "r"));
    stepper.record(in_transit(4, 1, "a"));
    stepper.record(in_node(5, 1, "r"));
    assert_eq!(
        stepper.get_packet_hops(1),
        vec![
            (0, "a".to_string()),
            (3, "r".to_string()),
            (5, "r".to_string())
        ]
    );
    assert_eq!(stepper.get_packet_path(2), vec!["b"]);
    assert_eq!(stepper.get_packet_sent_from(1, &"a".to_string()), Some(1));
    assert_eq!(stepper.get_packet_sent_from(1, &"r".to_string()), None);
    assert_eq!(stepper.get_packet_arrived_at(1, &"r".to_string()), Some(3));
    assert_eq!(stepper.get_packet_arrived_at(2, &"r".to_string()), None);
    assert_eq!(stepper.clone().steps().len(), 6);
}

#[test]
fn a_packet_arrives_with_its_first_hop() {
    let mut stepper = SimulationStepper::default();
    stepper.record(in_node(0, 1, "a"));
    stepper.record(in_node(2, 2, "b"));
    stepper.record(in_node(3, 1, "b"));
    stepper.record(in_transit(4, 1, "b"));
    stepper.record(in_node(5, 1, "a"));
    stepper.record(in_node(6, 1, "b"));
    for id in [1, 2, 3] {
        let hops = stepper.get_packet_hops(id);
        let path = stepper.get_packet_path(id);
        for node in ["a", "b", "c"] {
            let node = node.to_string();
            let arrived = stepper.get_packet_arrived_at(id, &node);
            let first = hops.iter().find(|(_, n)| *n == node).map(|(time, _)| *time);
            assert_eq!(arrived, first);
            assert_eq!(arrived.is_some(), path.contains(&node));
        }
    }
    assert_eq!(stepper.get_packet_arrived_at(1, &"b".to_string()), Some(3));
    assert_eq!(stepper.get_packet_arrived_at(3, &"b".to_string()), None);
}

#[test]
fn dropped_packets_are_counted_for_their_sender() {
    let mut stepper = SimulationStepper::default();
    for id in 1..=4 {
        stepper.record(in_node(0, id, "a"));
        stepper.record(in_node(1, id, "r"));
    }
    stepper.record(in_node(0, 9, "b"));
    stepper.record(dropped(2, 1, DropReason::Random));
    stepper.record(dropped(2, 2, DropReason::ZeroTtl));
    stepper.record(dropped(2, 3, DropReason::BufferFull));
    stepper.record(dropped(2, 4, DropReason::BufferCleared));
    stepper.record(dropped(2, 9, DropReason::Random));
    let info = stepper.get_dropped_packet_info(&"a".to_string());
    assert_eq!(info.random, 1);
    assert_eq!(info.buffer_full, 1);
    assert_eq!(info.buffer_cleared, 1);
    assert_eq!(info.loops, vec![vec!["a".to_string(), "r".to_string()]]);
    assert_eq!(info.total_dropped_packets(), 4);
    let other = stepper.get_dropped_packet_info(&"r".to_string());
    assert_eq!(other.total_dropped_packets(), 0);
    let info = DroppedPacketInfo {
        loops: vec![],
        random: 1,
        buffer_full: 2,
        buffer_cleared: 3,
    };
    assert_eq!(info.total_dropped_packets(), 6);
}

fn packet(number: u64) -> InTransitData {
    let addr = SocketAddr {
        ip: IpAddr::V4(1),
        port: 1,
    };
    InTransitData {
        id: 77,
        duplicate: false,
        source_id: "a".to_string(),
        transmit: OwnedTransmit {
            source: addr,
            destination: addr,
            ecn: None,
            contents: bytes::Bytes::copy_from_slice(b"hello"),
            segment_size: None,
            ttl: DEFAULT_TTL,
        },
        number,
    }
}

fn tracer() -> SimulationStepTracer {
    SimulationStepTracer::new(
        NetworkSpec {
            nodes: vec![],
            links: vec![],
        },
        100,
    )
}

#[test]
fn the_tracer_records_steps_and_warnings() {
    let mut tracer = tracer();
    assert!(tracer.is_fresh(100));
    assert!(!tracer.is_fresh(101));
    let node = "n".to_string();
    tracer.track_injected_failures(130, &node, &packet(3), true, 7, true);
    tracer.track_read_by_application(140, &node, &packet(3));
    tracer.track_dropped_because_buffer_full(150, &node, &packet(4));
    tracer.track_dropped_because_buffer_full(151, &node, &packet(5));
    let steps = tracer.stepper().steps();
    assert_eq!(steps.len(), 6);
    assert_eq!(steps[0].relative_time, 30);
    assert!(matches!(&steps[0].kind, SimulationStepKind::PacketExtraDelay(d) if d.extra_delay == 7));
    assert!(matches!(&steps[1].kind, SimulationStepKind::PacketDuplicated(d) if d.packet_size_bytes == 5));
    assert!(matches!(&steps[2].kind, SimulationStepKind::PacketCongestionEvent(_)));
    assert!(matches!(
        &steps[3].kind,
        SimulationStepKind::PacketDeliveredToApplication(d) if d.packet_number == 3
    ));
    let warnings = tracer.take_warnings();
    let messages: Vec<&str> = warnings.iter().map(|w| w.message.as_str()).collect();
    assert_eq!(messages.len(), 3);
    assert_eq!(messages[0], "n sent duplicate packet (#3)!");
    assert_eq!(messages[1], "n marked packet with CE ECN (#3)!");
    assert!(messages[2].starts_with("packet #4 dropped by node `n`"));
    assert_eq!(warnings[2].relative_time, 50);
    assert!(tracer.take_warnings().is_empty());

    let mut muted = self::tracer().mute_warnings();
    muted.track_dropped_randomly(130, &node, &packet(3));
    assert!(muted.take_warnings().is_empty());
    assert_eq!(muted.stepper().steps().len(), 1);
}

#[test]
fn queues_deliver_packets_in_order_of_arrival() {
    let mut queue = InboundQueue::new();
    assert_eq!(queue.next_arrival(), None);
    queue.send(0, packet(1), 10);
    queue.send(1, packet(2), 4);
    queue.send(2, packet(3), 8);
    assert_eq!(queue.next_arrival(), Some(5));
    assert!(queue.receive(4, 10).is_empty());
    let first = queue.receive(10, 2);
    let numbers: Vec<u64> = first.iter().map(|p| p.data.number).collect();
    // Packets that arrive at the same time arrive in the order in which they were sent
    assert_eq!(numbers, vec![2, 1]);
    assert_eq!(first[1].sent, 0);
    assert_eq!(queue.receive(10, 10)[0].data.number, 3);
}

#[test]
fn buffers_have_limited_room() {
    let mut buffer = OutboundBuffer::new(100);
    assert!(buffer.reserve(60));
    assert!(!buffer.reserve(41));
    assert!(buffer.reserve(40));
    assert_eq!(buffer.used, 100);
    assert!(!buffer.reserve(1));
    buffer.release(60);
    assert_eq!(buffer.used, 40);
}
