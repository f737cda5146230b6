use in_memory_network::config::cli::NetworkOpt;
use in_memory_network::config::traffic::{
    PingTraffic, QuicRequestResponseTraffic, TrafficKind, UdpOneDirectionTraffic,
};
use in_memory_network::course::{plan_course, Action, Outcome, Simulation};
use in_memory_network::network::ip::{IpAddr, SocketAddr};
use in_memory_network::quic::client::{
    check_concurrent_connections, connect_line, connected_line, connection_name, done_line,
    pauses_before_request, plan_connections, request_line, sleep_line, take_request,
    ConnectionAction, ConnectionRun, ConnectionStage,
};
use in_memory_network::quic::qlog_path;
use in_memory_network::report::{
    buffer_usage_lines, error_lines, link_stats_lines, node_stats_lines, BufferUsage, LinkStats,
    NodeStats, PacketCount, RoleNodes,
};
use in_memory_network::simulation::{
    check_reuse, choose_seeds, connectivity_passed_line, ip_pairs_from_traffic, ips_with_role,
    pairs_to_check, params_lines, pick_seeds, plan_traffic, request_response_traffic, role_node_ids,
    several_clients_notice, several_patterns_notice, socket_pairs_from_traffic,
    unknown_fields_warning, validate_opts, validate_traffic, Role,
};
use in_memory_network::sorting::{sorted_distinct, stable_sort};
use in_memory_network::text::{join, push_decimal};
use in_memory_network::time::{elapsed, from_millis, time_until};
use in_memory_network::udp::one_direction::chunk_sizes;
use in_memory_network::udp::ping::{keeps_sending, PingTracker};
use in_memory_network::util::duplicates;

fn addr(last: u32) -> SocketAddr {
    SocketAddr {
        ip: IpAddr::V4(last),
        port: 8080,
    }
}

fn quic(client: u32, server: u32) -> QuicRequestResponseTraffic {
    QuicRequestResponseTraffic {
        start_at_ms: 0,
        client: addr(client),
        server: addr(server),
        requests: 10,
        concurrent_connections: 1,
        concurrent_streams_per_connection: 1,
        response_size_bytes: 1024,
        request_interval_ms: 0,
    }
}

fn ping(client: u32, server: u32) -> TrafficKind {
    TrafficKind::UdpPing(PingTraffic {
        start_at_ms: 0,
        client: addr(client),
        server: addr(server),
        duration_ms: 1,
        send_interval_ms: 1,
        deadline_ms: 10_000,
    })
}

fn udp(client: u32, server: u32) -> TrafficKind {
    TrafficKind::UdpOneDirection(UdpOneDirectionTraffic {
        start_at_ms: 0,
        client: addr(client),
        server: addr(server),
        payload_bytes: 10_240,
        send_interval_ms: 10_000,
        duration_ms: 600_000,
    })
}

fn strings(texts: &[&str]) -> Vec<String> {
    texts.iter().map(|t| t.to_string()).collect()
}

#[test]
fn duplicates_are_found() {
    assert_eq!(
        duplicates(&strings(&["a", "b", "a", "c", "b", "a"])),
        strings(&["a", "b", "a"])
    );
    assert!(duplicates(&strings(&["a", "b"])).is_empty());
}

#[test]
fn traffic_patterns_are_planned() {
    let plan = plan_traffic(&vec![TrafficKind::QuicRequestResponse(quic(1, 2)), udp(3, 4)])
        .ok()
        .unwrap();
    assert_eq!(plan.main_traffic_name, "Requests");
    assert!(!plan.force_verbose_stats);
    assert!(!plan.all_traffic_is_udp);
    let plan = plan_traffic(&vec![ping(1, 2)]).ok().unwrap();
    assert_eq!(plan.main_traffic_name, "Ping");
    assert!(plan.force_verbose_stats);
    let plan = plan_traffic(&vec![udp(1, 2), udp(1, 3)]).ok().unwrap();
    assert_eq!(plan.main_traffic_name, "UDP");
    assert!(plan.all_traffic_is_udp);

    assert_eq!(
        plan_traffic(&vec![]).err(),
        Some("the specified traffic json file does not contain any traffic patterns")
    );
    let mut invalid = quic(1, 2);
    invalid.request_interval_ms = 5;
    assert!(validate_traffic(&invalid).is_ok());
    invalid.concurrent_streams_per_connection = 2;
    assert!(validate_traffic(&invalid).is_err());
    let error = plan_traffic(&vec![ping(1, 2), TrafficKind::QuicRequestResponse(invalid)]).err();
    assert!(error.unwrap().starts_with("incompatible QUIC traffic options used"));

    assert!(validate_opts(None, 2).is_ok());
    assert!(validate_opts(Some(0), 2).is_ok());
    assert!(validate_opts(Some(1), 1).is_ok());
    assert!(validate_opts(Some(1), 2)
        .err()
        .unwrap()
        .starts_with("incompatible command-line options used"));
}

#[test]
fn nodes_have_roles() {
    let traffic = vec![
        TrafficKind::QuicRequestResponse(quic(1, 2)),
        ping(3, 4),
        udp(5, 6),
        TrafficKind::QuicRequestResponse(quic(7, 8)),
    ];
    let ips = |role: Role| ips_with_role(&traffic, role);
    assert_eq!(ips(Role::QuicClient), vec![IpAddr::V4(1), IpAddr::V4(7)]);
    assert_eq!(ips(Role::QuicServer), vec![IpAddr::V4(2), IpAddr::V4(8)]);
    assert_eq!(ips(Role::PingClient), vec![IpAddr::V4(3)]);
    assert_eq!(ips(Role::PingServer), vec![IpAddr::V4(4)]);
    assert_eq!(ips(Role::UdpSender), vec![IpAddr::V4(5)]);
    assert_eq!(ips(Role::UdpReceiver), vec![IpAddr::V4(6)]);
    assert_eq!(Role::QuicServer.name(), "quic server");
    assert_eq!(request_response_traffic(&traffic), vec![quic(1, 2), quic(7, 8)]);
}

#[test]
fn nodes_are_only_reused_by_udp_traffic() {
    assert!(check_reuse(&strings(&["a", "b"]), false).is_ok());
    assert!(check_reuse(&strings(&["a", "b", "a"]), true).is_ok());
    assert_eq!(
        check_reuse(&strings(&["a", "b", "a", "b"]), false),
        Err("it is currently not allowed to use the same node in different traffic specs, but the following nodes were reused: a, b".to_string())
    );
}

#[test]
fn pairs_of_hosts_are_listed_once() {
    let pairs = socket_pairs_from_traffic(&vec![
        ping(9, 3),
        udp(3, 9),
        TrafficKind::QuicRequestResponse(quic(3, 4)),
        ping(2, 1),
    ]);
    assert_eq!(
        pairs,
        vec![
            (IpAddr::V4(1), IpAddr::V4(2)),
            (IpAddr::V4(3), IpAddr::V4(4)),
            (IpAddr::V4(3), IpAddr::V4(9)),
        ]
    );
    let quic_pairs = ip_pairs_from_traffic(&vec![
        TrafficKind::QuicRequestResponse(quic(4, 3)),
        ping(2, 1),
        TrafficKind::QuicRequestResponse(quic(3, 4)),
    ]);
    assert_eq!(quic_pairs, vec![(IpAddr::V4(3), IpAddr::V4(4))]);
}

fn network_opt(non_deterministic: bool) -> NetworkOpt {
    NetworkOpt {
        non_deterministic,
        quinn_rng_seed: 3,
        network_rng_seed: 4,
        network_graph: "topology.json".to_string(),
        network_events: None,
        no_network_events: false,
    }
}

#[test]
fn seeds_are_constant_unless_asked_otherwise() {
    assert_eq!(pick_seeds(&network_opt(false)), (3, 4));
    assert_eq!(choose_seeds(&network_opt(false), (8, 9)), (3, 4));
    assert_eq!(choose_seeds(&network_opt(true), (8, 9)), (8, 9));
    let draws: Vec<(u64, u64)> = (0..4).map(|_| pick_seeds(&network_opt(true))).collect();
    assert!(draws.iter().any(|d| *d != draws[0] || d.0 != d.1));
}

#[test]
fn unknown_fields_are_listed_once() {
    assert_eq!(unknown_fields_warning("x.json", vec![]), None);
    assert_eq!(
        unknown_fields_warning("x.json", strings(&["b", "a.c", "b"])).unwrap(),
        "WARN: the JSON file at `x.json` contains the following unknown fields:\n- a.c\n- b"
    );
}

#[test]
fn lines_about_parameters_and_connectivity() {
    let traffic = "t.json".to_string();
    assert_eq!(
        params_lines(0, 42, "topology.json", None, Some(&traffic)),
        strings(&[
            "--- Params ---",
            "* Quinn seed: 0",
            "* Network seed: 42",
            "* Network graph path: topology.json",
            "* Traffic patterns path: t.json",
        ])
    );
    assert_eq!(
        params_lines(1, 2, "g.json", Some(&traffic), None)[4],
        "* Network events path: t.json"
    );
    let patterns = vec![ping(9, 3), udp(3, 9)];
    assert_eq!(pairs_to_check(true, &patterns), None);
    assert_eq!(
        pairs_to_check(false, &patterns),
        Some(vec![(IpAddr::V4(3), IpAddr::V4(9))])
    );
    assert!(several_patterns_notice(&patterns).is_some());
    assert!(several_patterns_notice(&vec![ping(9, 3)]).is_none());
    assert_eq!(
        several_clients_notice(2, &"GND".to_string()),
        Some("There are multiple clients (on separate nodes). We will only display request-response logs for GND.".to_string())
    );
    assert_eq!(several_clients_notice(1, &"GND".to_string()), None);
    assert_eq!(
        connectivity_passed_line(30_999_999, 1_000_000),
        "passed (packets arrived after 30 ms and 1 ms)"
    );
}

#[test]
fn requests_are_shared_between_connections() {
    let mut left = 3;
    let taken = (0..5).filter(|_| take_request(&mut left)).count();
    assert_eq!(taken, 3);
    assert_eq!(left, 0);
    assert!(!pauses_before_request(0, 5));
    assert!(!pauses_before_request(1, 0));
    assert!(pauses_before_request(1, 5));
}

#[test]
fn connections_make_all_requests() {
    // Two connections share five requests, and take turns
    let mut left = 5;
    let mut runs = [ConnectionRun::new(0), ConnectionRun::new(0)];
    let mut made = vec![Vec::new(), Vec::new()];
    while runs.iter().any(|r| r.stage != ConnectionStage::Done) {
        for (i, run) in runs.iter_mut().enumerate() {
            if let ConnectionAction::Request(nr) = run.next(&mut left) {
                made[i].push(nr);
            }
        }
    }
    assert_eq!(made, vec![vec![1, 2, 3], vec![1, 2]]);
    assert_eq!(left, 0);
    assert_eq!(runs[0].requests_made + runs[1].requests_made, 5);
}

#[test]
fn connections_pause_between_requests() {
    let mut left = 2;
    let mut run = ConnectionRun::new(20);
    let actions: Vec<ConnectionAction> = (0..7).map(|_| run.next(&mut left)).collect();
    assert_eq!(
        actions,
        vec![
            ConnectionAction::AcquireStream,
            ConnectionAction::Request(1),
            ConnectionAction::AcquireStream,
            ConnectionAction::Sleep,
            ConnectionAction::Request(2),
            ConnectionAction::Close,
            ConnectionAction::Close,
        ]
    );
}

#[test]
fn simulations_take_their_course() {
    let patterns = vec![
        TrafficKind::QuicRequestResponse(quic(1, 2)),
        udp(3, 4),
        ping(5, 6),
    ];
    let course = vec![
        Action::StartServer(0),
        Action::StartServer(2),
        Action::Announce,
        Action::StartClient(0, true),
        Action::StartClient(1, false),
        Action::StartClient(2, false),
        Action::AwaitClient(2),
        Action::AwaitClient(1),
        Action::AwaitClient(0),
    ];
    assert_eq!(plan_course(&patterns), course);

    let mut simulation = Simulation::new(&patterns);
    for action in course {
        assert_eq!(simulation.next(Outcome::Performed), Some(action));
    }
    assert_eq!(
        simulation.next(Outcome::ClientDone(2)),
        Some(Action::AwaitConnection)
    );
    assert_eq!(
        simulation.next(Outcome::ConnectionHandled),
        Some(Action::AwaitConnection)
    );
    assert_eq!(simulation.next(Outcome::ConnectionHandled), None);
}

#[test]
fn simulations_end_without_servers() {
    let patterns = vec![TrafficKind::QuicRequestResponse(quic(1, 2))];
    let mut simulation = Simulation::new(&patterns);
    for _ in 0..4 {
        assert!(simulation.next(Outcome::Performed).is_some());
    }
    assert_eq!(
        simulation.next(Outcome::ClientDone(1)),
        Some(Action::AwaitConnection)
    );
    assert_eq!(simulation.next(Outcome::NoServerLeft), None);
}

#[test]
fn connections_have_names() {
    assert_eq!(connection_name(0), "A");
    assert_eq!(connection_name(24), "Y");
    assert!(check_concurrent_connections(25).is_ok());
    assert_eq!(
        plan_connections(3),
        Ok(vec!["A".to_string(), "B".to_string(), "C".to_string()])
    );
    assert!(plan_connections(26).is_err());
    assert_eq!(
        check_concurrent_connections(26),
        Err("The maximum number of concurrent connections is 25, but 26 were configured".to_string())
    );
    assert_eq!(connect_line("A"), "CONNECT (conn = A)");
    assert_eq!(connected_line("A", false), "CONNECTED (conn = A)");
    assert_eq!(
        connected_line("A", true),
        "CONNECTED (conn = A) [extended key update negotiated]"
    );
    assert_eq!(sleep_line(20, "B"), "SLEEP for 20 ms (connection = B)");
    assert_eq!(request_line("A", 12), "GET /index.html (stream = A12)");
    assert_eq!(
        done_line("A", 10),
        "DONE (conn = A, request/response amount = 10)"
    );
    assert_eq!(qlog_path(&"GND".to_string()), "GND.qlog");
}

#[test]
fn payloads_are_split() {
    assert_eq!(chunk_sizes(0), Vec::<usize>::new());
    assert_eq!(chunk_sizes(1200), vec![1200]);
    assert_eq!(chunk_sizes(1201), vec![1200, 1]);
    let sizes = chunk_sizes(10_240);
    assert_eq!(sizes.len(), 9);
    assert_eq!(sizes.iter().sum::<usize>(), 10_240);
    assert_eq!(sizes[8], 640);
}

#[test]
fn pings_are_replied_to_or_lost() {
    let mut pings = PingTracker::new();
    let (first, payload) = pings.send(100);
    assert_eq!(first, 0);
    assert_eq!(payload, 0u64.to_le_bytes().to_vec());
    let (second, second_payload) = pings.send(200);
    assert_eq!(second, 1);
    assert_eq!(second_payload, 1u64.to_le_bytes().to_vec());

    assert_eq!(pings.reply_received(&second_payload), (1, Some(200)));
    assert_eq!(pings.deadline_passed(second), None);
    assert_eq!(pings.deadline_passed(first), Some(100));
    assert_eq!(pings.reply_received(&payload), (0, None));
    assert_eq!(pings.lost, vec![0]);
    assert!(pings.in_flight.is_empty());

    assert!(keeps_sending(10, 5, 14));
    assert!(!keeps_sending(10, 5, 15));
}

fn count(packets: u64, bytes: u64) -> PacketCount {
    PacketCount { packets, bytes }
}

fn stats(dropped: u64) -> NodeStats {
    NodeStats {
        sent: count(1, 10),
        duplicates: count(2, 20),
        congestion_experienced: count(3, 30),
        dropped_injected: count(dropped, 4),
        dropped_buffer_full: count(0, 0),
        dropped_on_arrival: count(dropped * 2, 5),
        dropped_buffer_cleared: count(dropped * 3, 6),
        received: count(7, 70),
        received_out_of_order: count(8, 80),
        max_buffer_usage: 99,
    }
}

#[test]
fn node_stats_are_reported() {
    let all = vec![("a".to_string(), stats(1)), ("b".to_string(), stats(0))];
    let role = |role: &str, ids: &[&str]| RoleNodes {
        role: role.to_string(),
        node_ids: strings(ids),
    };
    let roles = || vec![role("udp sender", &[]), role("quic client", &["a"])];
    let ids = strings(&["a", "b"]);
    let brief = node_stats_lines(&ids, &all, roles(), false);
    assert_eq!(
        brief,
        strings(&[
            "* a (quic client)",
            "  * Sent packets: 1 (10 bytes)",
            "    | 2 packets duplicated (20 bytes)",
            "    | 3 packets marked with the CE ECN codepoint (30 bytes)",
            "    | 6 packets dropped (15 bytes). Caused by:",
            "      | node was down when the packet arrived (2 packets, 5 bytes)",
            "      | buffer got cleared before the packet was sent (3 packets, 6 bytes)",
            "      | randomly dropped (1 packets, 4 bytes)",
            "  * Received packets: 7 (70 bytes)",
            "    | 8 packets received out of order (80 bytes)",
        ])
    );
    let verbose = node_stats_lines(&ids, &all, roles(), true);
    assert_eq!(verbose[..brief.len()], brief[..]);
    assert_eq!(verbose[brief.len()], "* b");
    assert_eq!(verbose[brief.len() + 4], "    | 0 packets dropped (15 bytes)");
    assert_eq!(verbose.len(), brief.len() + 7);

    // Only nodes that are reported need stats
    let some = vec![("a".to_string(), stats(1))];
    assert_eq!(node_stats_lines(&ids, &some, roles(), false), brief);
    assert_eq!(node_stats_lines(&strings(&["a"]), &some, roles(), true), brief);

    // Roles come in alphabetical order
    let both = || vec![role("udp sender", &["b", "a"]), role("quic client", &["a"])];
    assert_eq!(role_node_ids(&both()), strings(&["b", "a", "a"]));
    let lines = node_stats_lines(&ids, &all, both(), true);
    let headers: Vec<&String> = lines.iter().filter(|l| l.starts_with('*')).collect();
    assert_eq!(headers, vec!["* a (quic client)", "* b (udp sender)", "* a (udp sender)"]);
}

#[test]
fn buffer_usage_is_reported() {
    let usage = |id: &str, bytes: u64| BufferUsage {
        node_id: id.to_string(),
        max_buffer_usage: bytes,
        dropped_packets: 1,
    };
    assert_eq!(
        buffer_usage_lines(vec![usage("c", 5), usage("a", 5), usage("b", 9)]),
        strings(&[
            "--- Max buffer usage per node ---",
            "* b: 9 bytes (1 packets dropped due to buffer being full)",
            "* a: 5 bytes (1 packets dropped due to buffer being full)",
            "* c: 5 bytes (1 packets dropped due to buffer being full)",
        ])
    );
}

#[test]
fn link_stats_are_reported() {
    assert!(link_stats_lines(vec![]).is_empty());
    let link = |id: &str| LinkStats {
        link_id: id.to_string(),
        dropped_in_transit: count(2, 30),
        max_used_bandwidth_bps: 500,
        usage_percent: "50.00".to_string(),
    };
    assert_eq!(
        link_stats_lines(vec![link("b"), link("a")]),
        strings(&[
            "--- Link stats ---",
            "* a:",
            "|-> Lost in transit 2 packets (30 bytes)",
            "|-> Max used bandwidth (bps): 500 (50.00% of the link's bandwidth)",
            "* b:",
            "|-> Lost in transit 2 packets (30 bytes)",
            "|-> Max used bandwidth (bps): 500 (50.00% of the link's bandwidth)",
        ])
    );
}

#[test]
fn errors_are_reported() {
    assert!(error_lines(&vec![]).is_empty());
    let few = error_lines(&strings(&["x"]));
    assert_eq!(few.len(), 3);
    assert_eq!(few[0], "--- Internal errors ---");
    assert_eq!(few[2], "* x");
    let many: Vec<String> = (0..12).map(|i| format!("e{i}")).collect();
    let lines = error_lines(&many);
    assert_eq!(lines[0], "--- Internal errors (showing 10 of 12) ---");
    assert_eq!(lines.len(), 12);
    assert_eq!(lines[11], "* e9");
}

#[test]
fn texts_are_ordered_and_joined() {
    assert_eq!(
        stable_sort(strings(&["b", "ab", "a", "é", "z"])),
        strings(&["a", "ab", "b", "z", "é"])
    );
    assert_eq!(sorted_distinct(strings(&["b", "a", "b"])), strings(&["a", "b"]));
    assert_eq!(join(&strings(&["x", "y", "z"]), " -> "), "x -> y -> z");
    assert_eq!(join(&vec![], ", "), "");
    let mut text = String::new();
    push_decimal(&mut text, 0);
    push_decimal(&mut text, 18_446_744_073_709_551_616);
    assert_eq!(text, "018446744073709551616");
}

#[test]
fn spans_of_time() {
    assert_eq!(from_millis(3), 3_000_000);
    assert_eq!(elapsed(5, 8), 3);
    assert_eq!(elapsed(8, 5), 0);
    assert_eq!(time_until(100, 50, 120), 30);
    assert_eq!(time_until(100, 50, 170), 0);
}
