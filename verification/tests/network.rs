use in_memory_network::config::traffic::default_request_response_traffic;
use in_memory_network::network::accounting::TicketState;
use in_memory_network::network::connectivity::{
    connectivity_transmit, CheckAction, ConnectivityCheck, CONNECTIVITY_ATTEMPTS,
    CONNECTIVITY_ATTEMPT_INTERVAL,
};
use in_memory_network::network::event::{
    LinkEventPayload, NetworkEvent, NetworkEventKind, NetworkEvents, NodeEventPayload,
    UpdateLinkStatus, UpdateNodeStatus,
};
use in_memory_network::network::forwarding::BufferDecision;
use in_memory_network::network::ip::{ipv4_from_octets, IpAddr, Ipv4Cidr, SocketAddr};
use in_memory_network::network::link::LinkAction;
use in_memory_network::network::node::NodeError;
use in_memory_network::network::route::{IpRange, Route};
use in_memory_network::network::setup::InitError;
use in_memory_network::network::spec::{
    NetworkInterface, NetworkLinkSpec, NetworkNodeSpec, NetworkSpec, NodeKind,
};
use in_memory_network::network::InMemoryNetwork;
use in_memory_network::quinn_interop::BufsAndMeta;
use in_memory_network::random::{Ratio, Roll};
use in_memory_network::simulation::role_entries;
use in_memory_network::time::Nanos;
use in_memory_network::tracing::simulation_step::{DropReason, SimulationStepKind};
use in_memory_network::tracing::tracer::SimulationStepTracer;
use in_memory_network::transmit::{EcnCodepoint, InTransitData, OwnedTransmit, DEFAULT_TTL};
use std::time::Duration;

const BANDWIDTH_100_MBPS: u64 = 1000 * 1000 * 100;
const HOST_PORT: u16 = 8080;

fn server_addr() -> Ipv4Cidr {
    Ipv4Cidr::from_ipv4(ipv4_from_octets(88, 88, 88, 88), 24)
}

fn router1_addr() -> Ipv4Cidr {
    Ipv4Cidr::from_ipv4(ipv4_from_octets(200, 200, 200, 1), 24)
}

fn router2_addr() -> Ipv4Cidr {
    Ipv4Cidr::from_ipv4(ipv4_from_octets(200, 200, 200, 2), 24)
}

fn client_addr() -> Ipv4Cidr {
    Ipv4Cidr::from_ipv4(ipv4_from_octets(1, 1, 1, 1), 24)
}

fn ratio(value: f64) -> Ratio {
    Ratio {
        bits: value.to_bits(),
    }
}

fn millis(ms: u64) -> Nanos {
    Duration::from_millis(ms).as_nanos()
}

fn node_spec(id: &str, kind: NodeKind, address: Ipv4Cidr, routes: Vec<Route>) -> NetworkNodeSpec {
    NetworkNodeSpec {
        id: id.to_string(),
        kind,
        interfaces: vec![NetworkInterface {
            addresses: vec![address],
            routes,
        }],
        buffer_size_bytes: u64::MAX,
        packet_loss_ratio: ratio(0.0),
        packet_duplication_ratio: ratio(0.0),
        packet_loss_or_duplication_ratio: ratio(0.0),
    }
}

fn link_spec(id: &str, source: Ipv4Cidr, target: Ipv4Cidr, bandwidth_bps: u64) -> NetworkLinkSpec {
    NetworkLinkSpec {
        id: id.to_string(),
        source: source.as_ip_addr(),
        target: target.as_ip_addr(),
        delay: millis(10),
        bandwidth_bps,
        congestion_event_ratio: ratio(0.0),
        extra_delay: 0,
        extra_delay_ratio: ratio(0.0),
    }
}

fn default_spec(bandwidth_bps: u64) -> NetworkSpec {
    let client_range = IpRange::from_cidr(client_addr());
    let server_range = IpRange::from_cidr(server_addr());
    let route = |destination: IpRange, next: Ipv4Cidr| Route {
        destination,
        next: next.as_ip_addr(),
        cost: 0,
    };
    NetworkSpec {
        nodes: vec![
            node_spec(
                "server",
                NodeKind::Host,
                server_addr(),
                vec![route(client_range, router1_addr())],
            ),
            node_spec(
                "client",
                NodeKind::Host,
                client_addr(),
                vec![route(server_range, router2_addr())],
            ),
            node_spec(
                "router1",
                NodeKind::Router,
                router1_addr(),
                vec![
                    route(client_range, router2_addr()),
                    route(server_range, server_addr()),
                ],
            ),
            node_spec(
                "router2",
                NodeKind::Router,
                router2_addr(),
                vec![
                    route(client_range, client_addr()),
                    route(server_range, router1_addr()),
                ],
            ),
        ],
        links: vec![
            link_spec("server-router1", server_addr(), router1_addr(), bandwidth_bps),
            link_spec("router1-router2", router1_addr(), router2_addr(), bandwidth_bps),
            link_spec("router2-client", router2_addr(), client_addr(), bandwidth_bps),
            link_spec("router1-server", router1_addr(), server_addr(), bandwidth_bps),
            link_spec("router2-router1", router2_addr(), router1_addr(), bandwidth_bps),
            link_spec("client-router2", client_addr(), router2_addr(), bandwidth_bps),
        ],
    }
}

fn empty_spec() -> NetworkSpec {
    NetworkSpec {
        nodes: vec![],
        links: vec![],
    }
}

fn link_event(id: &str, at_ms: u64, status: UpdateLinkStatus) -> NetworkEvent {
    NetworkEvent {
        relative_time: millis(at_ms),
        kind: NetworkEventKind::Link(LinkEventPayload {
            link_id: id.to_string(),
            status: Some(status),
            bandwidth_bps: None,
            delay: None,
            extra_delay: None,
            extra_delay_ratio: None,
            packet_duplication_ratio: None,
            packet_loss_ratio: None,
            congestion_event_ratio: None,
        }),
    }
}

fn node_event(id: &str, at_ms: u64, status: Option<UpdateNodeStatus>, clear: bool) -> NetworkEvent {
    NetworkEvent {
        relative_time: millis(at_ms),
        kind: NetworkEventKind::Node(NodeEventPayload {
            node_id: id.to_string(),
            status,
            clear_buffer: clear,
        }),
    }
}

/// Runs a network on a clock that jumps from one thing that happens to the next.
struct Driver {
    network: InMemoryNetwork,
    now: Nanos,
    events: Vec<NetworkEvent>,
    actions: Vec<LinkAction>,
}

fn roll(rng_state: u64) -> Roll {
    let mut rng = fastrand::Rng::with_seed(rng_state);
    let value = rng.f64();
    Roll {
        value: Ratio {
            bits: value.to_bits(),
        },
        rng_state: rng.get_seed(),
    }
}

impl Driver {
    fn new(spec: &NetworkSpec, events: Vec<NetworkEvent>) -> Driver {
        let events = NetworkEvents::new(events, &spec.nodes, &spec.links);
        let tracer = SimulationStepTracer::new(empty_spec(), 0);
        let network = InMemoryNetwork::initialize(spec, &events, tracer, 42, 0, 0, false)
            .ok()
            .unwrap();
        let actions = network.links.iter().map(|_| LinkAction::Park).collect();
        Driver {
            network,
            now: 0,
            events: events.sorted_events,
            actions,
        }
    }

    fn node(&self, address: Ipv4Cidr) -> usize {
        self.network.node(address.as_ip_addr()).unwrap()
    }

    fn send(&mut self, from: usize, to: usize, contents: &[u8]) -> u128 {
        self.send_with_ecn(from, to, contents, None)
    }

    fn send_with_ecn(
        &mut self,
        from: usize,
        to: usize,
        contents: &[u8],
        ecn: Option<EcnCodepoint>,
    ) -> u128 {
        let source = self.network.nodes[from].socket_addr(HOST_PORT);
        let destination = self.network.nodes[to].socket_addr(HOST_PORT);
        let source_id = self.network.nodes[from].id().clone();
        let data = self.network.in_transit_data(
            source_id,
            OwnedTransmit {
                source,
                destination,
                ecn,
                contents: bytes::Bytes::copy_from_slice(contents),
                segment_size: None,
                ttl: DEFAULT_TTL,
            },
        );
        let id = data.id;
        self.pass_on(from, data);
        id
    }

    fn pass_on(&mut self, node: usize, data: InTransitData) {
        let roll = roll(self.network.rng_state);
        self.network.forward(node, data, roll, self.now);
    }

    fn packet_delay(&self, link: usize) -> Nanos {
        match self.network.link_packet_size(link) {
            Some(size) => {
                let bits = size.saturating_mul(8) as f64;
                let bps = self.network.links[link].bandwidth_bps as f64;
                Duration::from_secs_f64(bits / bps).as_nanos()
            }
            None => 0,
        }
    }

    fn run_now(&mut self) {
        loop {
            let mut progress = false;
            while !self.events.is_empty() && self.events[0].relative_time <= self.now {
                let event = self.events.remove(0);
                self.network.process_event(event.kind, self.now);
                progress = true;
            }
            for node in 0..self.network.nodes.len() {
                while let BufferDecision::Links { links } = self.network.decide_buffered(node) {
                    let mut rolls = Vec::new();
                    let mut state = self.network.rng_state;
                    for _ in &links {
                        let first = roll(state);
                        let second = roll(first.rng_state);
                        state = second.rng_state;
                        rolls.push((first, second));
                    }
                    self.network.dispatch(node, &rolls);
                    progress = true;
                }
            }
            for link in 0..self.network.links.len() {
                let asked_for = self.actions[link];
                if let Some(event) = self.network.link_event(link, asked_for, self.now) {
                    let delay = self.packet_delay(link);
                    let action = self.network.step_link(link, event, self.now, delay);
                    self.actions[link] = action;
                    if action == LinkAction::Complete {
                        assert!(self.network.can_complete(link, self.now, delay));
                        self.network.complete(link, self.now, delay);
                        self.actions[link] = LinkAction::Park;
                    }
                    progress = true;
                }
            }
            for link in 0..self.network.links.len() {
                let delivered =
                    self.network
                        .next_delivered_packets(link, self.now, usize::MAX);
                for packet in delivered {
                    progress = true;
                    if let Some(node) = self.network.leave_link(link, &packet, self.now) {
                        self.pass_on(node, packet.data);
                    }
                }
            }
            if !progress {
                return;
            }
        }
    }

    fn run(&mut self) {
        loop {
            self.run_now();
            let mut next: Vec<Nanos> = self.events.iter().map(|e| e.relative_time).collect();
            for link in 0..self.network.links.len() {
                next.extend(self.network.links[link].in_transit.next_arrival());
                if let LinkAction::SleepUntil { until } = self.actions[link] {
                    next.push(until);
                }
            }
            match next.into_iter().min() {
                Some(time) => self.now = time,
                None => return,
            }
        }
    }

    fn send_connectivity_packet(&mut self, source: usize, target: usize) {
        let transmit = connectivity_transmit(
            self.network.nodes[source].socket_addr(HOST_PORT),
            self.network.nodes[target].socket_addr(HOST_PORT),
        );
        let source_id = self.network.nodes[source].id().clone();
        let data = self.network.in_transit_data(source_id, transmit);
        self.pass_on(source, data);
    }

    fn receive_packet_id(&mut self, node: usize) -> Option<u128> {
        let endpoint = self.network.nodes[node].udp_endpoint(HOST_PORT);
        let inbound = &mut self.network.nodes[node].udp_endpoints[endpoint].inbound;
        inbound.receive(self.now, 1).first().map(|p| p.data.id)
    }

    /// Packets get through both ways.
    fn assert_connectivity(&mut self, node_a: usize, node_b: usize) {
        let mut check = ConnectivityCheck::new();
        let mut received = None;
        let mut attempts = 0;
        loop {
            match check.next(received.take()) {
                CheckAction::SendBothWays => {
                    self.send_connectivity_packet(node_a, node_b);
                    self.send_connectivity_packet(node_b, node_a);
                    attempts += 1;
                }
                CheckAction::Sleep { duration } => {
                    let next_attempt = self.now + duration;
                    self.run();
                    assert!(self.now <= next_attempt);
                    self.now = next_attempt;
                }
                CheckAction::ReceiveAtB { .. } => received = self.receive_packet_id(node_b),
                CheckAction::ReceiveAtA { .. } => received = self.receive_packet_id(node_a),
                CheckAction::Report => break,
            }
        }
        assert_eq!(attempts, CONNECTIVITY_ATTEMPTS);
        assert_eq!(self.now, CONNECTIVITY_ATTEMPT_INTERVAL * 100);
        let result = self.network.connectivity_result(
            check.a_to_b,
            check.b_to_a,
            self.network.nodes[node_a].id(),
            self.network.nodes[node_b].id(),
        );
        assert!(result.is_ok());
    }

    fn receive(&mut self, node: usize, out: &mut BufsAndMeta) -> usize {
        let endpoint = self.network.nodes[node].udp_endpoint(HOST_PORT);
        self.network
            .receive_into(node, endpoint, self.now, out)
            .len()
    }

    fn hops(&self, id: u128) -> Vec<(Nanos, String)> {
        self.network.tracer.stepper().get_packet_hops(id)
    }
}

fn timings(expected: &[(u64, &str)]) -> Vec<(Nanos, String)> {
    expected
        .iter()
        .map(|(ms, node)| (millis(*ms), node.to_string()))
        .collect()
}

#[test]
fn test_packet_arrives_at_expected_time() {
    // Sanity check
    let mut driver = Driver::new(&default_spec(BANDWIDTH_100_MBPS), vec![]);
    let server_node = driver.node(server_addr());
    let client_node = driver.node(client_addr());
    driver.assert_connectivity(server_node, client_node);

    // Test
    let mut driver = Driver::new(&default_spec(BANDWIDTH_100_MBPS), vec![]);
    let server_node = driver.node(server_addr());
    let client_node = driver.node(client_addr());
    let packet_id = driver.send(client_node, server_node, b"hello world");
    driver.run();

    let mut recv_result = BufsAndMeta::new(1200, 10);
    let received = driver.receive(server_node, &mut recv_result);

    assert_eq!(received, 1);
    assert_eq!(recv_result.meta[0].len, 11);
    assert_eq!(&recv_result.bufs[0][..11], b"hello world");

    // The packet travels a specific path and is delayed at each hop
    let expected_timings = timings(&[(0, "client"), (10, "router2"), (20, "router1"), (30, "server")]);
    assert_eq!(driver.hops(packet_id), expected_timings);
}

#[test]
fn test_packets_are_batched() {
    let bandwidth = BANDWIDTH_100_MBPS;
    let packet_size_bytes = 1200;

    // If we send four packets, they all take less than 2 ms to send, which means they should
    // be batched together
    let expected_packet_delay =
        Duration::from_secs_f64((packet_size_bytes * 8) as f64 / bandwidth as f64);
    assert!(4 * expected_packet_delay < Duration::from_millis(2));

    // Sanity check
    let mut driver = Driver::new(&default_spec(bandwidth), vec![]);
    let server_node = driver.node(server_addr());
    let client_node = driver.node(client_addr());
    driver.assert_connectivity(client_node, server_node);

    // Actual test
    let mut driver = Driver::new(&default_spec(bandwidth), vec![]);
    let server_node = driver.node(server_addr());
    let client_node = driver.node(client_addr());

    let mut packet_ids = Vec::new();
    for _ in 0..4 {
        packet_ids.push(driver.send(client_node, server_node, &vec![42; packet_size_bytes]));
    }
    driver.run();

    let mut recv_result = BufsAndMeta::new(packet_size_bytes, 10);
    let received = driver.receive(server_node, &mut recv_result);
    assert_eq!(received, 4);
    assert_eq!(recv_result.meta[0].len, packet_size_bytes);

    let stepper = driver.network.tracer.stepper();
    let mut packet_times = Vec::new();
    for packet_id in packet_ids {
        let packet_sent = stepper.get_packet_sent_from(packet_id, &"client".to_string());
        let packet_arrived = stepper.get_packet_arrived_at(packet_id, &"server".to_string());
        packet_times.push((packet_sent.unwrap(), packet_arrived.unwrap()));
    }

    // The packets are batched, so they all arrive at the same time
    for w in packet_times.windows(2) {
        assert_eq!(w[0], w[1])
    }
}

#[test]
fn test_packet_is_buffered_when_link_down() {
    // Let one of the links be down for 10 seconds
    let mut driver = Driver::new(
        &default_spec(BANDWIDTH_100_MBPS),
        vec![
            link_event("router2-router1", 0, UpdateLinkStatus::Down),
            link_event("router2-router1", 10_000, UpdateLinkStatus::Up),
        ],
    );
    let server_node = driver.node(server_addr());
    let client_node = driver.node(client_addr());
    let packet_id = driver.send(client_node, server_node, &[42; 1200]);
    driver.run();

    let mut recv_result = BufsAndMeta::new(1200, 10);
    let received = driver.receive(server_node, &mut recv_result);
    assert_eq!(received, 1);
    assert_eq!(recv_result.meta[0].len, 1200);

    let hops = driver.hops(packet_id);
    assert_eq!(hops.len(), 4);

    let expected_timings = timings(&[
        (0, "client"),
        (10, "router2"),
        (10_010, "router1"),
        (10_020, "server"),
    ]);
    assert_eq!(hops, expected_timings);
}

#[test]
fn packets_in_flight_are_lost_when_the_link_goes_down() {
    let mut driver = Driver::new(
        &default_spec(BANDWIDTH_100_MBPS),
        vec![
            link_event("router2-router1", 15, UpdateLinkStatus::Down),
            link_event("router2-router1", 16, UpdateLinkStatus::Up),
        ],
    );
    let server_node = driver.node(server_addr());
    let client_node = driver.node(client_addr());
    let packet_id = driver.send(client_node, server_node, b"x");
    driver.run();

    assert_eq!(
        driver.hops(packet_id),
        timings(&[(0, "client"), (10, "router2")])
    );
    let steps = driver.network.tracer.stepper().steps();
    assert!(steps.iter().any(|s| matches!(
        &s.kind,
        SimulationStepKind::PacketLostInTransit(lost)
            if lost.packet_id == packet_id && lost.link_id == "router2-router1"
    ) && s.relative_time == millis(20)));
}

#[test]
fn a_node_that_is_down_drops_what_arrives() {
    let mut driver = Driver::new(
        &default_spec(BANDWIDTH_100_MBPS),
        vec![node_event("router2", 5, Some(UpdateNodeStatus::Down), false)],
    );
    assert_eq!(driver.network.get_node_status(&"router2".to_string()), "UP");
    let server_node = driver.node(server_addr());
    let client_node = driver.node(client_addr());
    let packet_id = driver.send(client_node, server_node, b"x");
    driver.run();
    assert_eq!(driver.network.get_node_status(&"router2".to_string()), "DOWN");
    let steps = driver.network.tracer.stepper().steps();
    assert!(steps.iter().any(|s| matches!(
        &s.kind,
        SimulationStepKind::PacketInNode(p)
            if p.packet_id == packet_id && p.node_id == "router2" && p.dropped_on_arrival
    )));
    let server_packets = driver.receive(server_node, &mut BufsAndMeta::new(1200, 1));
    assert_eq!(server_packets, 0);
}

#[test]
fn packets_that_do_not_fit_the_buffer_are_dropped() {
    let mut spec = default_spec(BANDWIDTH_100_MBPS);
    spec.nodes[1].buffer_size_bytes = 2000;
    let mut driver = Driver::new(
        &spec,
        vec![
            link_event("client-router2", 0, UpdateLinkStatus::Down),
            link_event("client-router2", 1000, UpdateLinkStatus::Up),
        ],
    );
    let server_node = driver.node(server_addr());
    let client_node = driver.node(client_addr());
    driver.run_now();
    driver.send(client_node, server_node, &[1; 1200]);
    let second = driver.send(client_node, server_node, &[2; 1200]);
    driver.send(client_node, server_node, &[3; 1200]);
    let third = driver.send(client_node, server_node, &[4; 800]);
    assert_eq!(driver.network.nodes[client_node].outbound_buffer().used, 2000);

    let warnings = driver.network.tracer.take_warnings();
    assert_eq!(warnings.len(), 1);
    assert_eq!(
        warnings[0].message,
        "packet #1 dropped by node `client` because its outbound buffer is full! (Note: further warnings for this link will be omitted to avoid cluttering the output)"
    );

    driver.run();
    assert_eq!(driver.network.nodes[client_node].outbound_buffer().used, 0);
    assert_eq!(driver.hops(second), timings(&[(0, "client")]));
    assert_eq!(driver.hops(third).len(), 4);

    let info = driver
        .network
        .tracer
        .stepper()
        .get_dropped_packet_info(&"client".to_string());
    assert_eq!(info.buffer_full, 2);
    assert_eq!(info.random, 0);
    assert_eq!(info.total_dropped_packets(), 2);
}

#[test]
fn clearing_a_buffer_drops_what_is_in_it() {
    let mut driver = Driver::new(
        &default_spec(BANDWIDTH_100_MBPS),
        vec![
            link_event("client-router2", 0, UpdateLinkStatus::Down),
            node_event("client", 500, None, true),
            link_event("client-router2", 1000, UpdateLinkStatus::Up),
        ],
    );
    let server_node = driver.node(server_addr());
    let client_node = driver.node(client_addr());
    driver.run_now();
    let packet_id = driver.send(client_node, server_node, &[1; 100]);
    driver.run();
    assert_eq!(driver.hops(packet_id), timings(&[(0, "client")]));
    let steps = driver.network.tracer.stepper().steps();
    assert!(steps.iter().any(|s| matches!(
        &s.kind,
        SimulationStepKind::PacketDropped(p)
            if p.packet_id == packet_id && p.reason == DropReason::BufferCleared
    )));
    // The space stays in use
    assert_eq!(driver.network.nodes[client_node].outbound_buffer().used, 100);
}

#[test]
fn packets_are_lost_and_duplicated_at_random() {
    let mut spec = default_spec(BANDWIDTH_100_MBPS);
    spec.nodes[1].packet_loss_ratio = ratio(1.0);
    spec.nodes[1].packet_loss_or_duplication_ratio = ratio(1.0);
    let mut driver = Driver::new(&spec, vec![]);
    let server_node = driver.node(server_addr());
    let client_node = driver.node(client_addr());
    let lost = driver.send(client_node, server_node, b"x");
    driver.run();
    assert_eq!(driver.hops(lost), timings(&[(0, "client")]));
    let warnings = driver.network.tracer.take_warnings();
    assert_eq!(warnings[0].message, "client packet lost (#0)!");
    assert_eq!(warnings[0].relative_time, 0);

    let mut spec = default_spec(BANDWIDTH_100_MBPS);
    spec.nodes[1].packet_duplication_ratio = ratio(1.0);
    spec.nodes[1].packet_loss_or_duplication_ratio = ratio(1.0);
    let mut driver = Driver::new(&spec, vec![]);
    let original = driver.send(client_node, server_node, b"x");
    driver.run();
    let mut out = BufsAndMeta::new(1200, 10);
    assert_eq!(driver.receive(server_node, &mut out), 2);
    assert_eq!(driver.hops(original).len(), 4);
    let warnings = driver.network.tracer.take_warnings();
    assert_eq!(warnings[0].message, "client sent duplicate packet (#0)!");
    let steps = driver.network.tracer.stepper().steps();
    let duplicates: Vec<u128> = steps
        .iter()
        .filter_map(|s| match &s.kind {
            SimulationStepKind::PacketDuplicated(d) => Some(d.packet_id),
            _ => None,
        })
        .collect();
    assert_eq!(duplicates.len(), 1);
    assert_ne!(duplicates[0], original);
}

#[test]
fn links_mark_and_delay_packets() {
    let mut spec = default_spec(BANDWIDTH_100_MBPS);
    spec.links[5].congestion_event_ratio = ratio(1.0);
    spec.links[5].extra_delay = millis(3);
    spec.links[5].extra_delay_ratio = ratio(1.0);
    let mut driver = Driver::new(&spec, vec![]);
    let server_node = driver.node(server_addr());
    let client_node = driver.node(client_addr());
    let id = driver.send_with_ecn(client_node, server_node, b"x", Some(EcnCodepoint::Ect0));
    driver.run();
    let mut out = BufsAndMeta::new(1200, 10);
    assert_eq!(driver.receive(server_node, &mut out), 1);
    assert_eq!(out.meta[0].ecn, Some(EcnCodepoint::Ce));
    assert_eq!(
        driver.hops(id),
        timings(&[(0, "client"), (13, "router2"), (23, "router1"), (33, "server")])
    );
}

/// Two parallel ways from a to b, over c and over d; the one over c is cheaper.
fn two_ways_spec() -> NetworkSpec {
    let a = Ipv4Cidr::from_ipv4(ipv4_from_octets(10, 0, 0, 1), 32);
    let b = Ipv4Cidr::from_ipv4(ipv4_from_octets(10, 0, 1, 1), 32);
    let c = Ipv4Cidr::from_ipv4(ipv4_from_octets(10, 0, 2, 1), 32);
    let d = Ipv4Cidr::from_ipv4(ipv4_from_octets(10, 0, 3, 1), 32);
    let to_b = IpRange::from_cidr(b);
    let route = |next: Ipv4Cidr, cost: u64| Route {
        destination: to_b,
        next: next.as_ip_addr(),
        cost,
    };
    NetworkSpec {
        nodes: vec![
            node_spec("a", NodeKind::Host, a, vec![route(d, 20), route(c, 10)]),
            node_spec("b", NodeKind::Host, b, vec![]),
            node_spec("c", NodeKind::Router, c, vec![]),
            node_spec("d", NodeKind::Router, d, vec![]),
        ],
        links: vec![
            link_spec("a-d", a, d, 1_000_000),
            link_spec("a-c", a, c, 1_000_000),
            link_spec("c-b", c, b, 1_000_000),
            link_spec("d-b", d, b, 1_000_000),
        ],
    }
}

#[test]
fn the_cheapest_link_is_preferred_and_others_take_over_when_it_is_saturated() {
    let a = Ipv4Cidr::from_ipv4(ipv4_from_octets(10, 0, 0, 1), 32);
    let b = Ipv4Cidr::from_ipv4(ipv4_from_octets(10, 0, 1, 1), 32);
    let spec = two_ways_spec();
    let mut driver = Driver::new(&spec, vec![]);
    assert_eq!(driver.network.walk_links(0, b.as_ip_addr()), vec![1, 0]);
    assert!(driver.network.has_route_to(0, b.as_ip_addr()));
    assert!(!driver.network.has_route_to(1, a.as_ip_addr()));
    let first = driver.send(0, 1, &[0; 1000]);
    let second = driver.send(0, 1, &[0; 1000]);
    driver.run();
    // Both ways have the same delay
    let nodes = |id: u128| -> Vec<String> { driver.network.tracer.stepper().get_packet_path(id) };
    assert_eq!(nodes(first), vec!["a", "c", "b"]);
    assert_eq!(nodes(second), vec!["a", "d", "b"]);
    let mut out = BufsAndMeta::new(1200, 10);
    assert_eq!(driver.receive(1, &mut out), 2);
    // Each packet was sent once
    let sent = driver
        .network
        .tracer
        .stepper()
        .steps()
        .iter()
        .filter(|s| matches!(s.kind, SimulationStepKind::PacketInTransit(_)))
        .count();
    assert_eq!(sent, 4);
}

#[test]
fn packets_without_a_route_are_reported() {
    let mut spec = default_spec(BANDWIDTH_100_MBPS);
    spec.nodes[3].interfaces[0].routes.clear();
    let mut driver = Driver::new(&spec, vec![]);
    let server_node = driver.node(server_addr());
    let client_node = driver.node(client_addr());
    let router2 = driver.node(router2_addr());
    driver.send(client_node, server_node, b"x");
    driver.run();
    match driver.network.decide_buffered(router2) {
        BufferDecision::MissingRoute { destination, path } => {
            assert_eq!(
                destination,
                SocketAddr {
                    ip: server_addr().as_ip_addr(),
                    port: HOST_PORT
                }
            );
            assert_eq!(path, "client -> router2 -> ?");
        }
        _ => panic!("expected a missing route"),
    }
}

#[test]
fn two_runs_with_the_same_seed_are_the_same() {
    let run = || {
        let mut spec = default_spec(BANDWIDTH_100_MBPS);
        for node in &mut spec.nodes {
            node.packet_loss_ratio = ratio(0.2);
            node.packet_duplication_ratio = ratio(0.3);
            node.packet_loss_or_duplication_ratio = ratio(0.5);
        }
        let mut driver = Driver::new(&spec, vec![]);
        let server_node = driver.node(server_addr());
        let client_node = driver.node(client_addr());
        let ids: Vec<u128> = (0..20)
            .map(|_| driver.send(client_node, server_node, &[7; 500]))
            .collect();
        driver.run();
        let hops: Vec<_> = ids.iter().map(|id| driver.hops(*id)).collect();
        (ids, hops)
    };
    let (ids, hops) = run();
    assert_eq!((ids.clone(), hops), run());
    // Ids come from the generator
    assert_eq!(ids[0], fastrand::Rng::with_seed(42).u128(..));
    assert_ne!(ids[0], ids[1]);
}

fn initialize(spec: &NetworkSpec, start: Nanos, now: Nanos, warp_disabled: bool) -> Option<InitError> {
    let events = NetworkEvents::new(vec![], &spec.nodes, &spec.links);
    let tracer = SimulationStepTracer::new(empty_spec(), 0);
    InMemoryNetwork::initialize(spec, &events, tracer, 42, start, now, warp_disabled).err()
}

#[test]
fn invalid_networks_are_rejected() {
    let spec = || default_spec(BANDWIDTH_100_MBPS);
    assert!(initialize(&spec(), 0, 0, false).is_none());
    assert!(matches!(initialize(&spec(), 7, 7, false), Some(InitError::OldTracer)));
    assert!(initialize(&spec(), 7, 7, true).is_none());
    let events = NetworkEvents::new(vec![], &spec().nodes, &spec().links);
    let fresh = SimulationStepTracer::new(empty_spec(), 9);
    assert!(matches!(
        InMemoryNetwork::initialize(&spec(), &events, fresh, 42, 7, 9, false),
        Err(InitError::OldStart)
    ));

    let mut same_pair = spec();
    same_pair.links[1].source = same_pair.links[0].source;
    same_pair.links[1].target = same_pair.links[0].target;
    match initialize(&same_pair, 0, 0, false) {
        Some(InitError::LinkAddressConflict { id, other, source, target }) => {
            assert_eq!(id, "router1-router2");
            assert_eq!(other, "server-router1");
            assert_eq!(source, server_addr().as_ip_addr());
            assert_eq!(target, router1_addr().as_ip_addr());
        }
        _ => panic!("expected a conflict"),
    }

    let mut same_link_id = spec();
    same_link_id.links[4].id = "server-router1".to_string();
    assert!(matches!(
        initialize(&same_link_id, 0, 0, false),
        Some(InitError::DuplicateLinkId { id }) if id == "server-router1"
    ));

    let mut one_node = spec();
    one_node.nodes.truncate(1);
    assert!(matches!(
        initialize(&one_node, 0, 0, false),
        Some(InitError::TooFewNodes { found: 1 })
    ));

    let mut no_interfaces = spec();
    no_interfaces.nodes[2].interfaces.clear();
    assert!(matches!(
        initialize(&no_interfaces, 0, 0, false),
        Some(InitError::Node { error: NodeError::NoInterfaces { id } }) if id == "router1"
    ));

    let mut no_address = spec();
    no_address.nodes[2].interfaces[0].addresses.clear();
    assert!(matches!(
        initialize(&no_address, 0, 0, false),
        Some(InitError::Node { error: NodeError::InterfaceWithoutAddress { id } }) if id == "router1"
    ));

    let mut same_address = spec();
    same_address.nodes[3].interfaces[0].addresses[0] = client_addr();
    match initialize(&same_address, 0, 0, false) {
        Some(InitError::NodeAddressConflict { id, other, address }) => {
            assert_eq!(id, "router2");
            assert_eq!(other, "client");
            assert_eq!(address, client_addr().as_ip_addr());
        }
        _ => panic!("expected a conflict"),
    }

    let mut twice = spec();
    twice.nodes[0].interfaces[0].addresses.push(server_addr());
    assert!(matches!(
        initialize(&twice, 0, 0, false),
        Some(InitError::NodeAddressConflict { id, other, .. }) if id == "server" && other == "server"
    ));

    let mut same_id = spec();
    same_id.nodes[3].id = "client".to_string();
    assert!(matches!(
        initialize(&same_id, 0, 0, false),
        Some(InitError::DuplicateNodeId { id }) if id == "client"
    ));
}

#[test]
fn a_network_knows_its_nodes_and_links() {
    let driver = Driver::new(
        &default_spec(BANDWIDTH_100_MBPS),
        vec![
            link_event("router2-router1", 5, UpdateLinkStatus::Up),
            node_event("router1", 6, Some(UpdateNodeStatus::Up), false),
        ],
    );
    let network = &driver.network;
    assert_eq!(network.get_node_ids(), vec!["client", "router1", "router2", "server"]);
    assert!(network.node(IpAddr::V4(1)).is_none());
    // Before its first event, a link or node has the opposite status
    assert_eq!(network.get_link_status(&"router2-router1".to_string()), "DOWN");
    assert_eq!(network.get_link_status(&"client-router2".to_string()), "UP");
    assert_eq!(network.get_node_status(&"router1".to_string()), "DOWN");
    assert_eq!(
        network.get_link_bandwidth_bps(&"client-router2".to_string()),
        100_000_000
    );
    let spec = default_spec(BANDWIDTH_100_MBPS);
    assert_eq!(network.link_status_lines(&spec)[4], "  * router2-router1: DOWN");
    assert_eq!(network.node_status_lines(&spec)[2], "  * router1: DOWN");
}

#[test]
fn nodes_know_their_routes() {
    let driver = Driver::new(&default_spec(BANDWIDTH_100_MBPS), vec![]);
    let router2 = driver.node(router2_addr());
    let routes = &driver.network.nodes[router2].routes;
    // The network that the last link from the address leads to comes first
    assert_eq!(routes.len(), 3);
    assert_eq!(routes[0].0, router2_addr().as_ip_addr());
    assert_eq!(routes[0].1.cost, 0);
    assert_eq!(routes[0].1.next, router1_addr().as_ip_addr());
    assert_eq!(routes[0].1.destination.first, ipv4_from_octets(200, 200, 200, 0));
    assert_eq!(routes[0].1.destination.last, ipv4_from_octets(200, 200, 200, 255));
    assert_eq!(routes[1].1.next, client_addr().as_ip_addr());
    assert_eq!(routes[2].1.next, router1_addr().as_ip_addr());
}

#[test]
fn events_for_unknown_links_and_nodes_are_skipped() {
    let mut driver = Driver::new(&default_spec(BANDWIDTH_100_MBPS), vec![]);
    driver.network.take_messages();
    let steps = driver.network.tracer.stepper().steps().len();
    let came_up = driver.network.process_event(
        link_event("nowhere", 0, UpdateLinkStatus::Up).kind,
        0,
    );
    assert!(!came_up);
    driver
        .network
        .process_event(node_event("nobody", 0, Some(UpdateNodeStatus::Up), false).kind, 0);
    assert_eq!(
        driver.network.take_messages(),
        vec![
            "WARN: skipping received event for link that doesn't exist (nowhere)",
            "WARN: skipping received event for node that doesn't exist (nobody)",
        ]
    );
    assert_eq!(driver.network.tracer.stepper().steps().len(), steps);

    let mut event = LinkEventPayload {
        link_id: "client-router2".to_string(),
        status: Some(UpdateLinkStatus::Down),
        bandwidth_bps: Some(1),
        delay: Some(1),
        extra_delay: Some(1),
        extra_delay_ratio: Some(ratio(0.5)),
        packet_duplication_ratio: Some(ratio(0.5)),
        packet_loss_ratio: Some(ratio(0.5)),
        congestion_event_ratio: Some(ratio(0.5)),
    };
    driver.network.process_link_event(event.clone(), 0);
    assert_eq!(
        driver.network.take_messages(),
        vec![
            "WARN: changing the bandwidth in events is currently unsupported",
            "WARN: changing the delay in events is currently unsupported",
            "WARN: changing the extra delay in events is currently unsupported",
            "WARN: changing the extra delay ratio in events is currently unsupported",
            "WARN: changing the packet duplication ratio in events is currently unsupported",
            "WARN: changing the packet loss ratio in events is currently unsupported",
            "WARN: changing the congestion event ratio in events is currently unsupported",
        ]
    );
    assert_eq!(
        driver.network.get_link_status(&"client-router2".to_string()),
        "DOWN"
    );
    event.status = Some(UpdateLinkStatus::Up);
    assert!(driver.network.process_link_event(event, 0));
}

#[test]
fn links_wait_for_their_node() {
    let mut driver = Driver::new(
        &default_spec(BANDWIDTH_100_MBPS),
        vec![
            link_event("client-router2", 0, UpdateLinkStatus::Down),
            node_event("client", 1, Some(UpdateNodeStatus::Down), false),
            link_event("client-router2", 2, UpdateLinkStatus::Up),
            node_event("client", 7, Some(UpdateNodeStatus::Up), false),
        ],
    );
    let server_node = driver.node(server_addr());
    let client_node = driver.node(client_addr());
    driver.run_now();
    let id = driver.send(client_node, server_node, b"x");
    driver.run();
    assert_eq!(
        driver.hops(id),
        timings(&[(0, "client"), (17, "router2"), (27, "router1"), (37, "server")])
    );
}

#[test]
fn roles_are_resolved_to_nodes() {
    let driver = Driver::new(&default_spec(BANDWIDTH_100_MBPS), vec![]);
    let traffic = default_request_response_traffic(
        client_addr().as_ip_addr(),
        server_addr().as_ip_addr(),
    );
    let entries = role_entries(&driver.network, &traffic.traffic_patterns).unwrap();
    assert_eq!(entries.len(), 6);
    assert_eq!(entries[2].role, "quic client");
    assert_eq!(entries[2].node_ids, vec!["client"]);
    assert_eq!(entries[3].role, "quic server");
    assert_eq!(entries[3].node_ids, vec!["server"]);
    assert!(entries[0].node_ids.is_empty());

    let unknown = default_request_response_traffic(IpAddr::V4(7), server_addr().as_ip_addr());
    assert!(role_entries(&driver.network, &unknown.traffic_patterns).is_none());
}

#[test]
fn connectivity_results() {
    let mut driver = Driver::new(&default_spec(BANDWIDTH_100_MBPS), vec![]);
    let server_node = driver.node(server_addr());
    let client_node = driver.node(client_addr());
    let there = driver.send(client_node, server_node, &[42]);
    let back = driver.send(server_node, client_node, &[42]);
    driver.run();
    let client = "client".to_string();
    let server = "server".to_string();
    let result = driver
        .network
        .connectivity_result(Some(there), Some(back), &client, &server);
    assert_eq!(result, Ok((millis(30), millis(30))));
    assert_eq!(
        driver.network.connectivity_result(None, Some(back), &client, &server),
        Err("failed to deliver packets between the nodes after 90 days (A to B failed, B to A succeeded)".to_string())
    );
}

#[test]
fn packets_are_read_once() {
    let mut driver = Driver::new(&default_spec(BANDWIDTH_100_MBPS), vec![]);
    let server_node = driver.node(server_addr());
    let client_node = driver.node(client_addr());
    driver.send(client_node, server_node, b"first");
    driver.send(client_node, server_node, b"second");
    driver.run();

    // A reader with little room gets the packets one by one
    let mut one = BufsAndMeta::new(1200, 1);
    assert_eq!(driver.receive(server_node, &mut one), 1);
    assert_eq!(&one.bufs[0][..one.meta[0].len], b"first");
    assert_eq!(driver.receive(server_node, &mut one), 1);
    assert_eq!(&one.bufs[0][..one.meta[0].len], b"second");
    assert_eq!(driver.receive(server_node, &mut one), 0);
}

#[test]
fn errors_have_messages() {
    let id = || "b".to_string();
    let other = || "a".to_string();
    let shown = |addresses: &[&str]| addresses.iter().map(|a| a.to_string()).collect();
    let conflict = InitError::LinkAddressConflict {
        id: id(),
        other: other(),
        source: IpAddr::V4(1),
        target: IpAddr::V4(2),
    };
    assert_eq!(conflict.addresses(), vec![IpAddr::V4(1), IpAddr::V4(2)]);
    assert_eq!(
        conflict.message(&shown(&["0.0.0.1", "0.0.0.2"])),
        "links b and a share the same address pair: 0.0.0.1 -> 0.0.0.2"
    );
    let conflict = InitError::NodeAddressConflict {
        id: id(),
        other: other(),
        address: IpAddr::V4(1),
    };
    assert_eq!(conflict.addresses(), vec![IpAddr::V4(1)]);
    assert_eq!(
        conflict.message(&shown(&["0.0.0.1"])),
        "nodes b and a share the same address: 0.0.0.1"
    );

    let messages = vec![
        (
            InitError::OldTracer,
            "attempted to initialize network with an old tracer",
        ),
        (
            InitError::OldStart,
            "attempted to initialize network with an old start instant",
        ),
        (
            InitError::DuplicateLinkId { id: id() },
            "there is more than one link with id b",
        ),
        (
            InitError::TooFewNodes { found: 1 },
            "Expected at least two nodes in network graph, found 1",
        ),
        (
            InitError::Node {
                error: NodeError::NoInterfaces { id: id() },
            },
            "Node b has no interfaces",
        ),
        (
            InitError::Node {
                error: NodeError::InterfaceWithoutAddress { id: id() },
            },
            "Node b has an interface without any address",
        ),
        (
            InitError::DuplicateNodeId { id: id() },
            "there are multiple nodes with id b",
        ),
    ];
    for (error, message) in messages {
        assert_eq!(error.message(&shown(&[])), message);
    }
}

#[test]
fn packets_are_lost_at_their_destination() {
    let mut spec = default_spec(BANDWIDTH_100_MBPS);
    spec.nodes[0].packet_loss_ratio = ratio(1.0);
    spec.nodes[0].packet_loss_or_duplication_ratio = ratio(1.0);
    let mut driver = Driver::new(&spec, vec![]);
    let server_node = driver.node(server_addr());
    let client_node = driver.node(client_addr());
    let lost = driver.send(client_node, server_node, b"x");
    driver.run();

    // The packet reaches the server, is lost there and cannot be read
    assert_eq!(driver.hops(lost).last(), timings(&[(30, "server")]).first());
    let steps = driver.network.tracer.stepper().steps();
    match &steps.last().unwrap().kind {
        SimulationStepKind::PacketDropped(dropped) => {
            assert_eq!(dropped.packet_id, lost);
            assert_eq!(dropped.reason, DropReason::Random);
        }
        _ => panic!("expected a drop"),
    }
    let mut out = BufsAndMeta::new(1200, 10);
    assert_eq!(driver.receive(server_node, &mut out), 0);
}

#[test]
fn packets_are_duplicated_at_their_destination() {
    let mut spec = default_spec(BANDWIDTH_100_MBPS);
    spec.nodes[0].packet_duplication_ratio = ratio(1.0);
    spec.nodes[0].packet_loss_or_duplication_ratio = ratio(1.0);
    let mut driver = Driver::new(&spec, vec![]);
    let server_node = driver.node(server_addr());
    let client_node = driver.node(client_addr());
    let sent = driver.send(client_node, server_node, b"x");
    driver.run();

    let endpoint = driver.network.nodes[server_node].udp_endpoint(HOST_PORT);
    let inbound = &mut driver.network.nodes[server_node].udp_endpoints[endpoint].inbound;
    let received = inbound.receive(driver.now, 10);
    assert_eq!(received.len(), 2);
    assert_eq!(received[0].data.id, sent);
    assert!(!received[0].data.duplicate);
    assert_ne!(received[1].data.id, sent);
    assert!(received[1].data.duplicate);
    let steps = driver.network.tracer.stepper().steps();
    assert!(steps.iter().any(|s| matches!(
        &s.kind,
        SimulationStepKind::PacketDuplicated(d) if d.packet_id == received[1].data.id
    )));
}

#[test]
fn the_cheapest_route_counts_whichever_interface_it_leaves_from() {
    // Two ways from a to b: an expensive one from the first interface and a cheap one from the
    // second interface
    let a1 = Ipv4Cidr::from_ipv4(ipv4_from_octets(10, 0, 0, 1), 32);
    let a2 = Ipv4Cidr::from_ipv4(ipv4_from_octets(10, 0, 0, 2), 32);
    let b = Ipv4Cidr::from_ipv4(ipv4_from_octets(10, 0, 1, 1), 32);
    let c = Ipv4Cidr::from_ipv4(ipv4_from_octets(10, 0, 2, 1), 32);
    let d = Ipv4Cidr::from_ipv4(ipv4_from_octets(10, 0, 3, 1), 32);
    let route = |next: Ipv4Cidr, cost: u64| Route {
        destination: IpRange::from_cidr(b),
        next: next.as_ip_addr(),
        cost,
    };
    let mut spec = NetworkSpec {
        nodes: vec![
            node_spec("a", NodeKind::Host, a1, vec![route(c, 10)]),
            node_spec("b", NodeKind::Host, b, vec![]),
            node_spec("c", NodeKind::Router, c, vec![]),
            node_spec("d", NodeKind::Router, d, vec![]),
        ],
        links: vec![
            link_spec("a-c", a1, c, 1_000_000),
            link_spec("a-d", a2, d, 1_000_000),
            link_spec("c-b", c, b, 1_000_000),
            link_spec("d-b", d, b, 1_000_000),
        ],
    };
    spec.nodes[0].interfaces.push(NetworkInterface {
        addresses: vec![a2],
        routes: vec![route(d, 1)],
    });
    let mut driver = Driver::new(&spec, vec![]);
    assert_eq!(driver.network.walk_links(0, b.as_ip_addr()), vec![1, 0]);
    let sent = driver.send(0, 1, b"x");
    driver.run();
    let path = driver.network.tracer.stepper().get_packet_path(sent);
    assert_eq!(path, vec!["a", "d", "b"]);

    // Equally expensive routes are in the order of the interfaces
    spec.nodes[0].interfaces[1].routes[0].cost = 10;
    let driver = Driver::new(&spec, vec![]);
    assert_eq!(driver.network.walk_links(0, b.as_ip_addr()), vec![0, 1]);
}

#[test]
fn drops_add_up_over_all_senders() {
    let mut spec = default_spec(BANDWIDTH_100_MBPS);
    for node in &mut spec.nodes {
        node.packet_loss_ratio = ratio(0.3);
        node.packet_loss_or_duplication_ratio = ratio(0.3);
    }
    let mut driver = Driver::new(&spec, vec![]);
    let server_node = driver.node(server_addr());
    let client_node = driver.node(client_addr());
    for _ in 0..30 {
        driver.send(client_node, server_node, b"request");
        driver.send(server_node, client_node, b"response");
    }
    driver.run();

    let stepper = driver.network.tracer.stepper();
    let dropped = |node: &str| -> usize {
        stepper
            .get_dropped_packet_info(&node.to_string())
            .total_dropped_packets()
    };
    let drops = stepper
        .steps
        .iter()
        .filter(|s| matches!(s.kind, SimulationStepKind::PacketDropped(_)))
        .count();
    assert!(dropped("client") > 0 && dropped("server") > 0);
    assert_eq!(dropped("router1") + dropped("router2"), 0);
    assert_eq!(dropped("client") + dropped("server"), drops);

    // Nothing is duplicated when the ratio is zero
    assert!(!stepper
        .steps
        .iter()
        .any(|s| matches!(s.kind, SimulationStepKind::PacketDuplicated(_))));
}

#[test]
fn packets_come_from_their_senders() {
    let mut driver = Driver::new(&default_spec(BANDWIDTH_100_MBPS), vec![]);
    let server_node = driver.node(server_addr());
    let client_node = driver.node(client_addr());
    driver.send(client_node, server_node, b"x");
    driver.run();
    let endpoint = driver.network.nodes[server_node].udp_endpoint(HOST_PORT);
    let inbound = &mut driver.network.nodes[server_node].udp_endpoints[endpoint].inbound;
    let received = inbound.receive(driver.now, 10);
    assert_eq!(received.len(), 1);
    assert_eq!(received[0].data.source_id, "client");
}

#[test]
fn links_handle_packets_in_order_and_within_their_bandwidth() {
    let mut driver = Driver::new(&default_spec(1_000_000), vec![]);
    let server_node = driver.node(server_addr());
    let client_node = driver.node(client_addr());
    let ids: Vec<u128> = (0..5)
        .map(|_| driver.send(client_node, server_node, &[0; 1000]))
        .collect();
    driver.run();
    for link in ["client-router2", "router2-router1", "router1-server"] {
        let sent: Vec<u128> = driver
            .network
            .tracer
            .stepper()
            .steps()
            .iter()
            .filter_map(|s| match &s.kind {
                SimulationStepKind::PacketInTransit(t) if t.link_id == link => Some(t.packet_id),
                _ => None,
            })
            .collect();
        assert_eq!(sent, ids);
    }
    // Nothing waits any more, and the link is booked for exactly as long as the packets take
    let link = &driver.network.links[5];
    assert!(link.outgoing.is_empty());
    assert!(link.current.is_none());
    assert_eq!(link.pacer.batch.delay, millis(8));
    assert_eq!(link.pacer.batch.created + link.pacer.batch.delay, 5 * millis(8));
}

#[test]
fn a_packet_is_handled_by_one_of_the_links_that_could_send_it() {
    let mut driver = Driver::new(&two_ways_spec(), vec![]);
    for _ in 0..4 {
        driver.send(0, 1, &[0; 1000]);
    }
    driver.run();
    let steps = driver.network.tracer.stepper().steps();
    let left_a = steps.iter().filter(|s| match &s.kind {
        SimulationStepKind::PacketInTransit(t) => t.node_id == "a",
        _ => false,
    });
    assert_eq!(left_a.count(), 4);
    // One reservation in a, and one in c or d, for each packet
    assert_eq!(driver.network.tickets.len(), 8);
    assert!(driver.network.tickets.iter().all(|t| t.state == TicketState::Sent));

    // The link that handles a packet whose buffer was cleared drops it; the other one does nothing
    let mut driver = Driver::new(
        &two_ways_spec(),
        vec![
            link_event("a-c", 0, UpdateLinkStatus::Down),
            link_event("a-d", 0, UpdateLinkStatus::Down),
            node_event("a", 1, None, true),
            link_event("a-c", 2, UpdateLinkStatus::Up),
            link_event("a-d", 2, UpdateLinkStatus::Up),
        ],
    );
    driver.run_now();
    driver.send(0, 1, &[0; 1000]);
    driver.run();
    let steps = driver.network.tracer.stepper().steps();
    let drops: Vec<DropReason> = steps
        .iter()
        .filter_map(|s| match &s.kind {
            SimulationStepKind::PacketDropped(d) => Some(d.reason),
            _ => None,
        })
        .collect();
    assert_eq!(drops, vec![DropReason::BufferCleared]);
    assert!(!steps.iter().any(|s| matches!(s.kind, SimulationStepKind::PacketInTransit(_))));
    assert_eq!(driver.network.tickets.len(), 1);
    assert_eq!(driver.network.tickets[0].state, TicketState::Cleared);
    assert!(driver.network.links.iter().all(|l| l.outgoing.is_empty() && l.current.is_none()));
}
