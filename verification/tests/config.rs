use in_memory_network::config::cli::{NetworkOpt, RtOpt, SimulateOpt};
use in_memory_network::config::network::{
    find_quic_config, EventPayloadJson, LinkEventPayloadJson, NetworkEventJson, NetworkLinkJson,
    NetworkNodeJson, NetworkSpecJson, NodeEventPayloadJson, RawNetworkEventJson,
};
use in_memory_network::config::quinn::{
    AckFrequencyConfig, CongestionControlAlgorithm, QuinnJsonConfig,
};
use in_memory_network::config::traffic::{
    default_request_response_traffic, infer_traffic, not_a_text_message, resolve_socket_addr,
    InferTrafficError, TrafficKind, DEFAULT_PORT,
};
use in_memory_network::network::event::{NetworkEventKind, UpdateLinkStatus};
use in_memory_network::network::ip::{
    ipv4_from_octets, resolve_network_prefix, split_network_prefix, IpAddr, Ipv4Cidr, SocketAddr,
};
use in_memory_network::network::spec::{NetworkInterface, NetworkNodeSpec, NetworkSpec, NodeKind};
use in_memory_network::quic::{check_settings, offers_extended_key_update, transport_config};
use in_memory_network::random::Ratio;

fn ip(text: &str) -> Option<IpAddr> {
    let octets: Vec<u8> = text.split('.').filter_map(|o| o.parse().ok()).collect();
    match (octets.as_slice(), text.matches('.').count()) {
        ([a, b, c, d], 3) => Some(IpAddr::V4(ipv4_from_octets(*a, *b, *c, *d))),
        _ => None,
    }
}

fn socket_addr(text: &str) -> Option<SocketAddr> {
    let (address, port) = text.split_once(':')?;
    Some(SocketAddr {
        ip: ip(address)?,
        port: port.parse().ok()?,
    })
}

fn read_addr(json: &serde_json::Value, field: &str) -> Result<SocketAddr, String> {
    match json[field].as_str() {
        Some(text) => resolve_socket_addr(text, socket_addr(text), ip(text)),
        None => Err(not_a_text_message("invalid type")),
    }
}

#[test]
fn test_default_request_response_traffic() {
    let client = ip("127.0.0.1").unwrap();
    let server = ip("127.0.0.2").unwrap();
    let traffic = default_request_response_traffic(client, server);
    assert_eq!(traffic.traffic_patterns.len(), 1);
    let TrafficKind::QuicRequestResponse(traffic) = &traffic.traffic_patterns[0] else {
        unreachable!()
    };

    assert_eq!(traffic.client.ip, client);
    assert_eq!(traffic.client.port, 8080);
    assert_eq!(traffic.server.ip, server);
    assert_eq!(traffic.server.port, 8080);
    assert_eq!(traffic.requests, 10);
    assert_eq!(traffic.concurrent_connections, 1);
    assert_eq!(traffic.concurrent_streams_per_connection, 1);
    assert_eq!(traffic.response_size_bytes, 1024);
    assert_eq!(traffic.request_interval_ms, 0);
    assert_eq!(traffic.start_at_ms, 0);
}

#[test]
fn test_deserialize_addr_wrong_type() {
    let udp = r#"{"start_at_ms": 1000, "client": "127.0.0.1", "server": 42 }"#;
    let udp: serde_json::Value = serde_json::from_str(udp).unwrap();
    let err = read_addr(&udp, "server").err().unwrap();
    assert!(err.contains("expected socket address or IP address"));
}

#[test]
fn test_deserialize_ip_only() {
    let udp = r#"{"start_at_ms": 1000, "client": "127.0.0.1", "server": "127.0.0.2" }"#;
    let udp: serde_json::Value = serde_json::from_str(udp).unwrap();
    assert_eq!(udp["start_at_ms"], 1000);
    let client = read_addr(&udp, "client").unwrap();
    let server = read_addr(&udp, "server").unwrap();
    assert_eq!(client.ip, ip("127.0.0.1").unwrap());
    assert_eq!(client.port, DEFAULT_PORT);
    assert_eq!(server.ip, ip("127.0.0.2").unwrap());
    assert_eq!(server.port, DEFAULT_PORT);
}

#[test]
fn test_deserialize_full_addr() {
    let udp = r#"{"start_at_ms": 1000, "client": "127.0.0.1:1234", "server": "127.0.0.2:1234" }"#;
    let udp: serde_json::Value = serde_json::from_str(udp).unwrap();
    assert_eq!(udp["start_at_ms"], 1000);
    let client = read_addr(&udp, "client").unwrap();
    let server = read_addr(&udp, "server").unwrap();
    assert_eq!(client.ip, ip("127.0.0.1").unwrap());
    assert_eq!(client.port, 1234);
    assert_eq!(server.ip, ip("127.0.0.2").unwrap());
    assert_eq!(server.port, 1234);
}

#[test]
fn texts_that_are_no_addresses_are_rejected() {
    assert_eq!(
        resolve_socket_addr("nope", None, None),
        Err("expected socket address or IP address, found string: `nope`".to_string())
    );
}

fn network_opt() -> NetworkOpt {
    NetworkOpt {
        non_deterministic: false,
        quinn_rng_seed: 0,
        network_rng_seed: 42,
        network_graph: "topology.json".to_string(),
        network_events: None,
        no_network_events: false,
    }
}

#[test]
fn default_paths_are_used_if_there_is_a_file() {
    let mut opt = network_opt();
    assert_eq!(opt.network_events(true).as_deref(), Some("events.json"));
    assert_eq!(opt.network_events(false), None);
    opt.network_events = Some("mine.json".to_string());
    assert_eq!(opt.network_events(false).as_deref(), Some("mine.json"));
    opt.no_network_events = true;
    assert_eq!(opt.network_events(true), None);

    let mut simulate = SimulateOpt {
        traffic: None,
        rt: RtOpt {
            disable_time_warping: false,
            verbose_node_stats: false,
        },
        network: network_opt(),
    };
    assert_eq!(simulate.traffic_path(true).as_deref(), Some("traffic.json"));
    assert_eq!(simulate.traffic_path(false), None);
    simulate.traffic = Some("t.json".to_string());
    assert_eq!(simulate.traffic_path(false).as_deref(), Some("t.json"));
}

fn node_json(id: &str, kind: NodeKind, quic: Option<QuinnJsonConfig>) -> NetworkNodeJson {
    NetworkNodeJson {
        id: id.to_string(),
        buffer_size_bytes: 5,
        kind,
        quic,
        interfaces: vec![],
        packet_duplication_ratio: Ratio { bits: 1 },
        packet_loss_ratio: Ratio { bits: 2 },
        packet_loss_or_duplication_ratio: Ratio { bits: 3 },
    }
}

#[test]
fn network_graphs_are_converted() {
    let quic = QuinnJsonConfig {
        packet_threshold: Some(7),
        ..QuinnJsonConfig::default()
    };
    let json = NetworkSpecJson {
        nodes: vec![
            node_json("a", NodeKind::Host, Some(quic)),
            node_json("r", NodeKind::Router, Some(quic)),
            node_json("b", NodeKind::Host, None),
        ],
        links: vec![NetworkLinkJson {
            id: "a-b".to_string(),
            source: IpAddr::V4(1),
            target: IpAddr::V4(2),
            bandwidth_bps: 99,
            delay_ms: 3,
            extra_delay_ms: 4,
            extra_delay_ratio: Ratio { bits: 5 },
            congestion_event_ratio: Ratio { bits: 6 },
        }],
    };
    let configs = json.quic_configs();
    assert_eq!(configs.len(), 2);
    assert_eq!(find_quic_config(&configs, &"a".to_string()), Some(quic));
    assert_eq!(
        find_quic_config(&configs, &"b".to_string()),
        Some(QuinnJsonConfig::default())
    );
    assert_eq!(find_quic_config(&configs, &"r".to_string()), None);

    let spec = json.into_spec();
    assert_eq!(spec.nodes.len(), 3);
    assert_eq!(spec.nodes[1].id, "r");
    assert_eq!(spec.nodes[1].kind, NodeKind::Router);
    assert_eq!(spec.nodes[0].buffer_size_bytes, 5);
    assert_eq!(spec.nodes[0].packet_loss_ratio.bits, 2);
    assert_eq!(spec.links[0].delay, 3_000_000);
    assert_eq!(spec.links[0].extra_delay, 4_000_000);
    assert_eq!(spec.links[0].bandwidth_bps, 99);
}

fn link_payload() -> LinkEventPayloadJson {
    LinkEventPayloadJson {
        id: "l".to_string(),
        status: Some(UpdateLinkStatus::Down),
        bandwidth_bps: None,
        delay_ms: Some(2),
        extra_delay_ms: None,
        extra_delay_ratio: None,
        packet_duplication_ratio: None,
        packet_loss_ratio: None,
        congestion_event_ratio: None,
    }
}

fn node_payload() -> NodeEventPayloadJson {
    NodeEventPayloadJson {
        id: "n".to_string(),
        status: None,
        clear_buffer: true,
    }
}

#[test]
fn events_are_about_a_link_or_a_node() {
    let raw = |link: Option<LinkEventPayloadJson>, node: Option<NodeEventPayloadJson>| {
        NetworkEventJson::from_raw(RawNetworkEventJson {
            relative_time_ms: 9,
            link,
            node,
        })
    };
    let link = raw(Some(link_payload()), None).ok().unwrap();
    assert!(matches!(link.payload, EventPayloadJson::Link(_)));
    let event = link.into_event();
    assert_eq!(event.relative_time, 9_000_000);
    let NetworkEventKind::Link(payload) = event.kind else {
        unreachable!()
    };
    assert_eq!(payload.link_id, "l");
    assert_eq!(payload.status, Some(UpdateLinkStatus::Down));
    assert_eq!(payload.delay, Some(2_000_000));

    let node = raw(None, Some(node_payload())).ok().unwrap();
    let NetworkEventKind::Node(payload) = node.into_event().kind else {
        unreachable!()
    };
    assert!(payload.clear_buffer);

    assert_eq!(
        raw(Some(link_payload()), Some(node_payload())).err(),
        Some("only one of 'link' or 'node' must be present")
    );
    assert_eq!(
        raw(None, None).err(),
        Some("one of 'link' or 'node' must be present")
    );
}

fn node_with(address: Option<u8>) -> NetworkNodeSpec {
    NetworkNodeSpec {
        id: "x".to_string(),
        kind: NodeKind::Host,
        interfaces: vec![NetworkInterface {
            addresses: address
                .into_iter()
                .map(|a| Ipv4Cidr::from_ipv4(ipv4_from_octets(10, 0, 0, a), 24))
                .collect(),
            routes: vec![],
        }],
        buffer_size_bytes: 0,
        packet_loss_ratio: Ratio::zero(),
        packet_duplication_ratio: Ratio::zero(),
        packet_loss_or_duplication_ratio: Ratio::zero(),
    }
}

#[test]
fn traffic_is_inferred_for_two_nodes() {
    let spec = |nodes: Vec<NetworkNodeSpec>| NetworkSpec {
        nodes,
        links: vec![],
    };
    let traffic = infer_traffic(&spec(vec![node_with(Some(1)), node_with(Some(2))]))
        .ok()
        .unwrap();
    let (client, server) = traffic.traffic_patterns[0].ends();
    assert_eq!(client, IpAddr::V4(ipv4_from_octets(10, 0, 0, 1)));
    assert_eq!(server, IpAddr::V4(ipv4_from_octets(10, 0, 0, 2)));

    let error = infer_traffic(&spec(vec![node_with(Some(1))])).err().unwrap();
    assert_eq!(error, InferTrafficError::NotTwoNodes);
    assert!(error.message().contains("exactly two nodes"));
    let error = infer_traffic(&spec(vec![node_with(Some(1)), node_with(None)]))
        .err()
        .unwrap();
    assert_eq!(error, InferTrafficError::NoAddress);
    assert!(error.message().contains("has no IP address"));
}

#[test]
fn quic_settings_follow_the_configuration() {
    let defaults = transport_config(&QuinnJsonConfig::default());
    assert!(defaults.mtu_discovery);
    assert!(!defaults.maximize_windows);
    assert_eq!(defaults.congestion_controller, CongestionControlAlgorithm::Cubic);
    assert_eq!(defaults.initial_window, None);
    assert_eq!(defaults.ack_frequency, None);

    let config = QuinnJsonConfig {
        initial_rtt_ms: Some(100_000_000),
        maximum_idle_timeout_ms: Some(100_000_000_000),
        packet_threshold: Some(4_294_967_295),
        mtu_discovery: Some(false),
        maximize_send_and_receive_windows: Some(true),
        ack_frequency_config: Some(AckFrequencyConfig {
            ack_eliciting_threshold: Some(10),
            max_ack_delay_ms: Some(18_446_744_073_709_551_615),
        }),
        congestion_controller: Some(CongestionControlAlgorithm::NoCc),
        initial_congestion_window_packets: Some(200_000),
        extended_key_update: Some(true),
    };
    assert!(check_settings(&config));
    assert!(offers_extended_key_update(&config));
    assert!(!offers_extended_key_update(&QuinnJsonConfig::default()));
    let settings = transport_config(&config);
    assert!(!settings.mtu_discovery);
    assert!(settings.maximize_windows);
    assert_eq!(settings.initial_window, Some(240_000_000));
    let ack_frequency = settings.ack_frequency.unwrap();
    assert_eq!(ack_frequency.reordering_threshold, 4_294_967_294);
    assert_eq!(ack_frequency.ack_eliciting_threshold, Some(10));

    let unlimited = QuinnJsonConfig {
        congestion_controller: Some(CongestionControlAlgorithm::NoCc),
        ack_frequency_config: Some(AckFrequencyConfig::default()),
        ..QuinnJsonConfig::default()
    };
    let settings = transport_config(&unlimited);
    assert_eq!(settings.initial_window, Some(u64::MAX));
    assert_eq!(settings.ack_frequency.unwrap().reordering_threshold, 2);

    let too_large = QuinnJsonConfig {
        initial_congestion_window_packets: Some(u64::MAX / 1200 + 1),
        ..QuinnJsonConfig::default()
    };
    assert!(!check_settings(&too_large));
    let no_reordering = QuinnJsonConfig {
        packet_threshold: Some(0),
        ack_frequency_config: Some(AckFrequencyConfig::default()),
        ..QuinnJsonConfig::default()
    };
    assert!(!check_settings(&no_reordering));
    let too_long = QuinnJsonConfig {
        maximum_idle_timeout_ms: Some(1 << 62),
        ..QuinnJsonConfig::default()
    };
    assert!(!check_settings(&too_long));
}

#[test]
fn network_prefixes_are_read() {
    assert_eq!(split_network_prefix("10.0.0.1/24"), Some(("10.0.0.1", "24")));
    assert_eq!(split_network_prefix("a/b/c"), Some(("a", "b/c")));
    assert_eq!(split_network_prefix("/"), Some(("", "")));
    assert_eq!(split_network_prefix("10.0.0.1"), None);
    let address = ipv4_from_octets(10, 0, 0, 1);
    assert_eq!(
        resolve_network_prefix("10.0.0.1/32", Some(address), Some(32)),
        Ok(Ipv4Cidr::from_ipv4(address, 32))
    );
    let refused = |text: &str| Err(format!("expected network prefix, found `{text}`"));
    assert_eq!(
        resolve_network_prefix("10.0.0.1/33", Some(address), Some(33)),
        refused("10.0.0.1/33")
    );
    assert_eq!(resolve_network_prefix("x/24", None, Some(24)), refused("x/24"));
    assert_eq!(resolve_network_prefix("10.0.0.1", Some(address), None), refused("10.0.0.1"));
}
