use in_memory_network::network::event::{
    LinkEventPayload, NetworkEvent, NetworkEventKind, NetworkEvents, NodeEventPayload,
    UpdateLinkStatus, UpdateNodeStatus,
};
use in_memory_network::network::ip::IpAddr;
use in_memory_network::network::spec::{NetworkLinkSpec, NetworkNodeSpec, NodeKind};
use in_memory_network::random::Ratio;

fn link(id: &str) -> NetworkLinkSpec {
    NetworkLinkSpec {
        id: id.to_string(),
        source: IpAddr::V4(1),
        target: IpAddr::V4(2),
        delay: 0,
        bandwidth_bps: 1,
        congestion_event_ratio: Ratio::zero(),
        extra_delay: 0,
        extra_delay_ratio: Ratio::zero(),
    }
}

fn node(id: &str) -> NetworkNodeSpec {
    NetworkNodeSpec {
        id: id.to_string(),
        kind: NodeKind::Host,
        interfaces: vec![],
        buffer_size_bytes: 0,
        packet_loss_ratio: Ratio::zero(),
        packet_duplication_ratio: Ratio::zero(),
        packet_loss_or_duplication_ratio: Ratio::zero(),
    }
}

fn link_event(time: u128, id: &str, status: Option<UpdateLinkStatus>) -> NetworkEvent {
    NetworkEvent {
        relative_time: time,
        kind: NetworkEventKind::Link(LinkEventPayload {
            link_id: id.to_string(),
            status,
            bandwidth_bps: None,
            delay: None,
            extra_delay: None,
            extra_delay_ratio: None,
            packet_duplication_ratio: None,
            packet_loss_ratio: None,
            congestion_event_ratio: None,
        }),
    }
}

fn node_event(time: u128, id: &str, status: Option<UpdateNodeStatus>) -> NetworkEvent {
    NetworkEvent {
        relative_time: time,
        kind: NetworkEventKind::Node(NodeEventPayload {
            node_id: id.to_string(),
            status,
            clear_buffer: true,
        }),
    }
}

#[test]
fn events_are_sorted_and_initial_statuses_derived() {
    let events = NetworkEvents::new(
        vec![
            link_event(30, "a", Some(UpdateLinkStatus::Down)),
            link_event(10, "a", None),
            node_event(20, "n", Some(UpdateNodeStatus::Down)),
            link_event(20, "b", Some(UpdateLinkStatus::Down)),
            link_event(20, "a", Some(UpdateLinkStatus::Up)),
        ],
        &vec![node("m"), node("n")],
        &vec![link("c"), link("b"), link("a")],
    );
    let times: Vec<u128> = events.sorted_events.iter().map(|e| e.relative_time).collect();
    assert_eq!(times, vec![10, 20, 20, 20, 30]);
    // Events at the same time stay in order
    assert!(matches!(events.sorted_events[1].kind, NetworkEventKind::Node(_)));

    let links: Vec<(&str, Option<UpdateLinkStatus>)> = events
        .initial_link_events
        .iter()
        .map(|e| (e.link_id.as_str(), e.status))
        .collect();
    assert_eq!(
        links,
        vec![
            ("b", Some(UpdateLinkStatus::Up)),
            ("a", Some(UpdateLinkStatus::Down)),
            ("c", Some(UpdateLinkStatus::Up)),
        ]
    );
    let nodes: Vec<(&str, Option<UpdateNodeStatus>, bool)> = events
        .initial_node_events
        .iter()
        .map(|e| (e.node_id.as_str(), e.status, e.clear_buffer))
        .collect();
    assert_eq!(
        nodes,
        vec![
            ("n", Some(UpdateNodeStatus::Up), false),
            ("m", Some(UpdateNodeStatus::Up), false),
        ]
    );
}
