//! Traffic patterns.

use crate::network::ip::{IpAddr, SocketAddr};
use crate::network::spec::NetworkSpec;
use vstd::prelude::*;

verus! {

pub struct TrafficJson {
    pub traffic_patterns: Vec<TrafficKind>,
}

pub enum TrafficKind {
    QuicRequestResponse(QuicRequestResponseTraffic),
    UdpPing(PingTraffic),
    UdpOneDirection(UdpOneDirectionTraffic),
}

/// A client makes requests over QUIC, and a server answers them.
#[derive(Clone, Copy, PartialEq, Eq, Structural, Debug)]
pub struct QuicRequestResponseTraffic {
    /// The time at which traffic should start, in milliseconds
    pub start_at_ms: u64,
    pub client: SocketAddr,
    pub server: SocketAddr,
    /// The number of requests that should be made
    pub requests: u32,
    /// The number of concurrent connections used when making the requests
    pub concurrent_connections: u32,
    /// The number of concurrent streams per connection used when making the requests
    pub concurrent_streams_per_connection: u32,
    pub response_size_bytes: usize,
    /// The number of milliseconds to wait, on each connection, between receiving a request's
    /// response and sending the next request
    pub request_interval_ms: u64,
}

/// A client sends pings, and a server echoes them.
#[derive(Clone, Copy, PartialEq, Eq, Structural, Debug)]
pub struct PingTraffic {
    /// The time at which traffic should start, in milliseconds
    pub start_at_ms: u64,
    pub client: SocketAddr,
    pub server: SocketAddr,
    /// How long pings are sent
    pub duration_ms: u64,
    pub send_interval_ms: u64,
    /// How long after sending a ping it is considered lost, unless a reply arrives
    pub deadline_ms: u64,
}

/// A sender sends UDP packets to a receiver.
#[derive(Clone, Copy, PartialEq, Eq, Structural, Debug)]
pub struct UdpOneDirectionTraffic {
    /// The time at which traffic should start, in milliseconds
    pub start_at_ms: u64,
    /// The sender
    pub client: SocketAddr,
    /// The receiver
    pub server: SocketAddr,
    /// The size of the payload, which may be split across multiple packets
    pub payload_bytes: u64,
    /// The interval at which the payload is sent
    pub send_interval_ms: u64,
    /// How long packets are sent
    pub duration_ms: u64,
}

impl TrafficKind {
    pub open spec fn spec_ends(self) -> (IpAddr, IpAddr) {
        match self {
            TrafficKind::QuicRequestResponse(t) => (t.client.ip, t.server.ip),
            TrafficKind::UdpPing(t) => (t.client.ip, t.server.ip),
            TrafficKind::UdpOneDirection(t) => (t.client.ip, t.server.ip),
        }
    }

    /// The addresses of the client and the server.
    pub fn ends(&self) -> (r: (IpAddr, IpAddr))
        ensures
            r == self.spec_ends(),
    {
        match self {
            TrafficKind::QuicRequestResponse(t) => (t.client.ip, t.server.ip),
            TrafficKind::UdpPing(t) => (t.client.ip, t.server.ip),
            TrafficKind::UdpOneDirection(t) => (t.client.ip, t.server.ip),
        }
    }
}

pub const DEFAULT_REQUESTS: u32 = 10;

pub const DEFAULT_CONCURRENT_CONNECTIONS: u32 = 1;

pub const DEFAULT_CONCURRENT_STREAMS_PER_CONNECTION: u32 = 1;

pub const DEFAULT_RESPONSE_SIZE: usize = 1024;

pub const DEFAULT_DEADLINE_MS: u64 = 10_000;

pub const DEFAULT_UDP_PAYLOAD_BYTES: u64 = 10_240;

pub const DEFAULT_UDP_SEND_INTERVAL_MS: u64 = 10_000;

pub const DEFAULT_UDP_DURATION_MS: u64 = 600_000;

pub const DEFAULT_PORT: u16 = 8080;

pub open spec fn unexpected_address_text(text: Seq<char>) -> Seq<char> {
    "expected socket address or IP address, found string: `"@ + text + "`"@
}

/// The socket address that a text stands for: it is read as a socket address or, failing that, as an
/// IP address, to which the default port is added.
pub fn resolve_socket_addr(text: &str, socket_addr: Option<SocketAddr>, ip: Option<IpAddr>) -> (r:
    Result<SocketAddr, String>)
    ensures
        match r {
            Ok(addr) => match socket_addr {
                Some(socket_addr) => addr == socket_addr,
                None => ip matches Some(ip) && addr == (SocketAddr { ip, port: DEFAULT_PORT }),
            },
            Err(e) => socket_addr is None && ip is None && e@ == unexpected_address_text(text@),
        },
{
    match (socket_addr, ip) {
        (Some(socket_addr), _) => Ok(socket_addr),
        (None, Some(ip)) => Ok(SocketAddr { ip, port: DEFAULT_PORT }),
        (None, None) => {
            let mut message =
                "expected socket address or IP address, found string: `".to_owned();
            message.append(text);
            message.append("`");
            Err(message)
        },
    }
}

/// What is reported when a socket address is not even a text.
pub fn not_a_text_message(inner: &str) -> (r: String)
    ensures
        r@
            == "expected socket address or IP address, encoded as a string. Inner error: "@
            + inner@,
{
    let mut message =
        "expected socket address or IP address, encoded as a string. Inner error: ".to_owned();
    message.append(inner);
    message
}

pub open spec fn default_traffic(source_ip: IpAddr, target_ip: IpAddr) -> TrafficKind {
    TrafficKind::QuicRequestResponse(
        QuicRequestResponseTraffic {
            start_at_ms: 0,
            client: SocketAddr { ip: source_ip, port: DEFAULT_PORT },
            server: SocketAddr { ip: target_ip, port: DEFAULT_PORT },
            requests: DEFAULT_REQUESTS,
            concurrent_connections: DEFAULT_CONCURRENT_CONNECTIONS,
            concurrent_streams_per_connection: DEFAULT_CONCURRENT_STREAMS_PER_CONNECTION,
            response_size_bytes: DEFAULT_RESPONSE_SIZE,
            request_interval_ms: 0,
        },
    )
}

/// Requests and responses between two hosts, with defaults for everything else.
pub fn default_request_response_traffic(source_ip: IpAddr, target_ip: IpAddr) -> (r: TrafficJson)
    ensures
        r.traffic_patterns@ == seq![default_traffic(source_ip, target_ip)],
{
    let mut traffic_patterns: Vec<TrafficKind> = Vec::new();
    traffic_patterns.push(
        TrafficKind::QuicRequestResponse(
            QuicRequestResponseTraffic {
                start_at_ms: 0,
                client: SocketAddr { ip: source_ip, port: DEFAULT_PORT },
                server: SocketAddr { ip: target_ip, port: DEFAULT_PORT },
                requests: DEFAULT_REQUESTS,
                concurrent_connections: DEFAULT_CONCURRENT_CONNECTIONS,
                concurrent_streams_per_connection: DEFAULT_CONCURRENT_STREAMS_PER_CONNECTION,
                response_size_bytes: DEFAULT_RESPONSE_SIZE,
                request_interval_ms: 0,
            },
        ),
    );
    assert(traffic_patterns@ =~= seq![default_traffic(source_ip, target_ip)]);
    TrafficJson { traffic_patterns }
}

/// Why no traffic pattern can be inferred from a network.
#[derive(Clone, Copy, PartialEq, Eq, Structural, Debug)]
pub enum InferTrafficError {
    /// The network does not consist of exactly two nodes
    NotTwoNodes,
    /// A node has no IP address
    NoAddress,
}

impl InferTrafficError {
    pub open spec fn text(self) -> Seq<char> {
        match self {
            InferTrafficError::NotTwoNodes => "attempted to infer traffic pattern based on the network topology, but this can only succeed when the network consists of exactly two nodes! (We are attempting to infer the traffic pattern instead of loading it from disk, because no path was specified through the CLI, and no `traffic.json` file was present at the current working directory)"@,
            InferTrafficError::NoAddress => "attempted to infer traffic pattern based on the network topology, but at least one of the nodes has no IP address! (We are attempting to infer the traffic pattern instead of loading it from disk, because no path was specified through the CLI, and no `traffic.json` file was present at the current working directory)"@,
        }
    }

    pub fn message(&self) -> (r: &'static str)
        ensures
            r@ == self.text(),
    {
        match self {
            InferTrafficError::NotTwoNodes => "attempted to infer traffic pattern based on the network topology, but this can only succeed when the network consists of exactly two nodes! (We are attempting to infer the traffic pattern instead of loading it from disk, because no path was specified through the CLI, and no `traffic.json` file was present at the current working directory)",
            InferTrafficError::NoAddress => "attempted to infer traffic pattern based on the network topology, but at least one of the nodes has no IP address! (We are attempting to infer the traffic pattern instead of loading it from disk, because no path was specified through the CLI, and no `traffic.json` file was present at the current working directory)",
        }
    }
}

/// Infers the traffic pattern for a network of two nodes.
pub fn infer_traffic(network_spec: &NetworkSpec) -> (r: Result<TrafficJson, InferTrafficError>)
    ensures
        ({
            let nodes = network_spec.nodes@;
            match r {
                Ok(traffic) => {
                    &&& nodes.len() == 2
                    &&& nodes[0].spec_addresses().len() > 0
                    &&& nodes[1].spec_addresses().len() > 0
                    &&& traffic.traffic_patterns@ == seq![
                        default_traffic(
                            nodes[0].spec_addresses()[0],
                            nodes[1].spec_addresses()[0],
                        ),
                    ]
                },
                Err(InferTrafficError::NotTwoNodes) => nodes.len() != 2,
                Err(InferTrafficError::NoAddress) => nodes.len() == 2 && (
                nodes[0].spec_addresses().len() == 0 || nodes[1].spec_addresses().len() == 0),
            }
        }),
{
    if network_spec.nodes.len() != 2 {
        return Err(InferTrafficError::NotTwoNodes);
    }
    let first = network_spec.nodes[0].addresses();
    let second = network_spec.nodes[1].addresses();
    if first.len() == 0 || second.len() == 0 {
        return Err(InferTrafficError::NoAddress);
    }
    Ok(default_request_response_traffic(first[0], second[0]))
}

/// Inferred traffic starts at once and makes ten requests for a kilobyte each, one after the other,
/// from the first host to the second one, both at port 8080.
pub proof fn law_inferred_traffic_is_simple(source_ip: IpAddr, target_ip: IpAddr)
    ensures
        default_traffic(source_ip, target_ip) matches TrafficKind::QuicRequestResponse(t)
            && t.start_at_ms == 0 && t.client.ip == source_ip && t.client.port == 8080 && t.server.ip
            == target_ip && t.server.port == 8080 && t.requests == 10 && t.concurrent_connections
            == 1 && t.concurrent_streams_per_connection == 1 && t.response_size_bytes == 1024
            && t.request_interval_ms == 0,
{
}

/// The ends of a traffic pattern, whatever its kind, are its client and its server.
pub proof fn law_traffic_goes_from_client_to_server(
    client: SocketAddr,
    server: SocketAddr,
    quic: QuicRequestResponseTraffic,
    ping: PingTraffic,
    udp: UdpOneDirectionTraffic,
)
    ensures
        ({
            let t = QuicRequestResponseTraffic { client, server, ..quic };
            let p = PingTraffic { client, server, ..ping };
            let u = UdpOneDirectionTraffic { client, server, ..udp };
            &&& TrafficKind::QuicRequestResponse(t).spec_ends() == (client.ip, server.ip)
            &&& TrafficKind::UdpPing(p).spec_ends() == (client.ip, server.ip)
            &&& TrafficKind::UdpOneDirection(u).spec_ends() == (client.ip, server.ip)
        }),
{
}


/// A text that is no address is quoted in the error, and both reasons for which traffic cannot be
/// inferred are told apart.
pub proof fn law_errors_say_what_is_wrong(text: Seq<char>)
    ensures
        unexpected_address_text(text) == "expected socket address or IP address, found string: `"@
            + text + "`"@,
        InferTrafficError::NotTwoNodes.text()
            == "attempted to infer traffic pattern based on the network topology, but this can only succeed when the network consists of exactly two nodes! (We are attempting to infer the traffic pattern instead of loading it from disk, because no path was specified through the CLI, and no `traffic.json` file was present at the current working directory)"@,
        InferTrafficError::NoAddress.text()
            == "attempted to infer traffic pattern based on the network topology, but at least one of the nodes has no IP address! (We are attempting to infer the traffic pattern instead of loading it from disk, because no path was specified through the CLI, and no `traffic.json` file was present at the current working directory)"@,
{
}


} // verus!
