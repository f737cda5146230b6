//! Nodes: routers and hosts.

use crate::network::event::UpdateNodeStatus;
use crate::network::inbound_queue::{enqueued, InboundQueue, QueuedView};
use crate::network::ip::{IpAddr, Ipv4Cidr, SocketAddr};
use crate::network::outbound_buffer::OutboundBuffer;
use crate::network::route::{IpRange, Route};
use crate::network::spec::{interface_addresses, NetworkInterface, NetworkNodeSpec};
use crate::pcap_exporter::InMemoryKeyLog;
use crate::random::{ratios_fit, Ratio, Roll};
use crate::search::{first_index, lemma_first_index_is, lemma_first_index_none};
use crate::sorting::{is_stable_sort, stable_sort};
use crate::time::Nanos;
use crate::transmit::{InTransitData, PacketView};
use vstd::prelude::*;

verus! {

#[derive(Clone, Copy, PartialEq, Eq, Structural, Debug)]
pub enum NodeStatus {
    Up,
    Down,
}

/// The failures that a node injects into the packets that pass it.
#[derive(Clone, Copy, PartialEq, Eq, Structural, Debug)]
pub struct NodeInjectedFailures {
    pub packet_loss_ratio: Ratio,
    pub packet_duplication_ratio: Ratio,
    /// The sum of the two ratios
    pub packet_loss_or_duplication_ratio: Ratio,
}

impl NodeInjectedFailures {
    /// The third ratio can be the sum of the other two.
    pub open spec fn wf(self) -> bool {
        ratios_fit(
            self.packet_loss_ratio,
            self.packet_duplication_ratio,
            self.packet_loss_or_duplication_ratio,
        )
    }

    pub open spec fn of_spec(spec: NetworkNodeSpec) -> Self {
        NodeInjectedFailures {
            packet_loss_ratio: spec.packet_loss_ratio,
            packet_duplication_ratio: spec.packet_duplication_ratio,
            packet_loss_or_duplication_ratio: spec.packet_loss_or_duplication_ratio,
        }
    }

    pub fn from_spec(spec: &NetworkNodeSpec) -> (r: Self)
        ensures
            r == Self::of_spec(*spec),
    {
        NodeInjectedFailures {
            packet_loss_ratio: spec.packet_loss_ratio,
            packet_duplication_ratio: spec.packet_duplication_ratio,
            packet_loss_or_duplication_ratio: spec.packet_loss_or_duplication_ratio,
        }
    }
}

/// Where packets for one port of a node are delivered.
pub struct UdpEndpoint {
    pub inbound: InboundQueue,
    pub addr: SocketAddr,
}

/// The content of a [`UdpEndpoint`].
#[verifier::ext_equal]
pub struct EndpointView {
    pub inbound: Seq<QueuedView>,
    pub addr: SocketAddr,
}

impl View for UdpEndpoint {
    type V = EndpointView;

    open spec fn view(&self) -> EndpointView {
        EndpointView { inbound: self.inbound@, addr: self.addr }
    }
}

/// A packet in a node's outbound buffer.
pub struct BufferedPacket {
    pub in_node_since: Nanos,
    pub data: InTransitData,
    /// The packet's reservation of space in the outbound buffer
    pub ticket: usize,
}

/// The content of a [`BufferedPacket`].
#[verifier::ext_equal]
pub struct BufferedView {
    pub in_node_since: Nanos,
    pub data: PacketView,
    pub ticket: usize,
}

impl View for BufferedPacket {
    type V = BufferedView;

    open spec fn view(&self) -> BufferedView {
        BufferedView {
            in_node_since: self.in_node_since,
            data: self.data@,
            ticket: self.ticket,
        }
    }
}

pub struct Node {
    pub id: String,
    pub canonical_address: IpAddr,
    pub addresses: Vec<IpAddr>,
    /// The node's routes, each with the address of the interface that it leaves from
    pub routes: Vec<(IpAddr, Route)>,
    pub injected_failures: NodeInjectedFailures,
    pub status: NodeStatus,
    pub last_buffer_clear: Option<Nanos>,
    pub keylog: InMemoryKeyLog,
    pub udp_endpoints: Vec<UdpEndpoint>,
    pub outbound_buffer: OutboundBuffer,
    /// The packets that no link has been asked to send yet, the oldest one first
    pub outbound: Vec<BufferedPacket>,
}

/// The content of a [`Node`].
#[verifier::ext_equal]
pub struct NodeView {
    pub id: String,
    pub canonical_address: IpAddr,
    pub addresses: Seq<IpAddr>,
    pub routes: Seq<(IpAddr, Route)>,
    pub injected_failures: NodeInjectedFailures,
    pub status: NodeStatus,
    pub last_buffer_clear: Option<Nanos>,
    pub keylog: Seq<Seq<char>>,
    pub udp_endpoints: Seq<EndpointView>,
    pub outbound_buffer: OutboundBuffer,
    pub outbound: Seq<BufferedView>,
}

pub open spec fn endpoint_views(endpoints: Seq<UdpEndpoint>) -> Seq<EndpointView> {
    endpoints.map_values(|e: UdpEndpoint| e@)
}

pub open spec fn buffered_views(packets: Seq<BufferedPacket>) -> Seq<BufferedView> {
    packets.map_values(|p: BufferedPacket| p@)
}

impl View for Node {
    type V = NodeView;

    open spec fn view(&self) -> NodeView {
        NodeView {
            id: self.id,
            canonical_address: self.canonical_address,
            addresses: self.addresses@,
            routes: self.routes@,
            injected_failures: self.injected_failures,
            status: self.status,
            last_buffer_clear: self.last_buffer_clear,
            keylog: self.keylog@,
            udp_endpoints: endpoint_views(self.udp_endpoints@),
            outbound_buffer: self.outbound_buffer,
            outbound: buffered_views(self.outbound@),
        }
    }
}

/// The index of the endpoint for a port.
pub open spec fn endpoint_index(endpoints: Seq<EndpointView>, port: u16) -> Option<int> {
    first_index(endpoints, |e: EndpointView| e.addr.port == port)
}

impl NodeView {
    pub open spec fn wf(self) -> bool {
        &&& self.addresses.len() > 0
        &&& self.canonical_address == self.addresses[0]
        &&& self.outbound_buffer.wf()
        &&& self.injected_failures.wf()
        &&& forall|i: int|
            0 <= i < self.udp_endpoints.len() ==> (
            #[trigger] self.udp_endpoints[i]).addr.ip == self.canonical_address
        &&& forall|i: int|
            0 <= i < self.udp_endpoints.len()
                ==> crate::network::inbound_queue::in_arrival_order(
                (#[trigger] self.udp_endpoints[i]).inbound,
            )
    }

    /// The draw asks the node to lose the packet.
    pub open spec fn loses(self, roll: Roll) -> bool {
        roll.value.spec_is_below(self.injected_failures.packet_loss_ratio)
    }

    /// The draw asks the node to duplicate the packet.
    pub open spec fn duplicates(self, roll: Roll) -> bool {
        !self.loses(roll) && roll.value.spec_is_below(
            self.injected_failures.packet_loss_or_duplication_ratio,
        )
    }

    /// With an endpoint for the port, which is created unless there is one.
    pub open spec fn with_endpoint(self, port: u16) -> NodeView {
        if endpoint_index(self.udp_endpoints, port) is Some {
            self
        } else {
            NodeView {
                udp_endpoints: self.udp_endpoints.push(
                    EndpointView {
                        inbound: Seq::empty(),
                        addr: SocketAddr { ip: self.canonical_address, port },
                    },
                ),
                ..self
            }
        }
    }

    /// The index of the endpoint for the port, once there is one.
    pub open spec fn endpoint_for(self, port: u16) -> int {
        match endpoint_index(self.udp_endpoints, port) {
            Some(i) => i,
            None => self.udp_endpoints.len() as int,
        }
    }

    /// With a packet delivered, at `now`, to the endpoint of the port that it is destined for.
    pub open spec fn delivered(self, now: Nanos, data: PacketView) -> NodeView {
        let port = data.transmit.destination.port;
        let node = self.with_endpoint(port);
        let i = self.endpoint_for(port);
        NodeView {
            udp_endpoints: node.udp_endpoints.update(
                i,
                EndpointView {
                    inbound: enqueued(
                        node.udp_endpoints[i].inbound,
                        QueuedView { data, sent: now, arrives_at: now },
                    ),
                    ..node.udp_endpoints[i]
                },
            ),
            ..node
        }
    }

    pub open spec fn updated_status(self, update: UpdateNodeStatus) -> NodeView {
        NodeView {
            status: match update {
                UpdateNodeStatus::Up => NodeStatus::Up,
                UpdateNodeStatus::Down => NodeStatus::Down,
            },
            ..self
        }
    }

    /// With the space of a packet given back.
    pub open spec fn released(self, bytes: nat) -> NodeView {
        NodeView {
            outbound_buffer: OutboundBuffer {
                used: (self.outbound_buffer.used - bytes) as u64,
                ..self.outbound_buffer
            },
            ..self
        }
    }

    /// With a packet in the outbound buffer.
    pub open spec fn buffered(self, packet: BufferedView) -> NodeView {
        NodeView {
            outbound_buffer: OutboundBuffer {
                used: (self.outbound_buffer.used + packet.data.size()) as u64,
                ..self.outbound_buffer
            },
            outbound: self.outbound.push(packet),
            ..self
        }
    }
}

/// Why a node cannot be set up.
pub enum NodeError {
    NoInterfaces { id: String },
    InterfaceWithoutAddress { id: String },
}

/// Where the link that leaves from an address leads; of several, the last one counts.
pub open spec fn link_target(links_addr_map: Seq<(IpAddr, IpAddr)>, source: IpAddr) -> Option<IpAddr>
    decreases links_addr_map.len(),
{
    if links_addr_map.len() == 0 {
        None
    } else if links_addr_map.last().0 == source {
        Some(links_addr_map.last().1)
    } else {
        link_target(links_addr_map.drop_last(), source)
    }
}

/// The addresses of a node from which a link leaves, with the address that it leads to.
pub open spec fn connections(
    links_addr_map: Seq<(IpAddr, IpAddr)>,
    addresses: Seq<Ipv4Cidr>,
) -> Seq<(Ipv4Cidr, IpAddr)> {
    addresses.filter_map(
        |a: Ipv4Cidr|
            match link_target(links_addr_map, a.spec_as_ip_addr()) {
                Some(target) => Some((a, target)),
                None => None,
            },
    )
}

/// The network prefixes of an interface list, in order.
pub open spec fn cidrs(interfaces: Seq<NetworkInterface>) -> Seq<Ipv4Cidr> {
    interfaces.flat_map(|i: NetworkInterface| i.addresses@)
}

/// A route, as it leaves from each of the addresses.
pub open spec fn from_each_address(addresses: Seq<Ipv4Cidr>, route: Route) -> Seq<(IpAddr, Route)> {
    addresses.map_values(|a: Ipv4Cidr| (a.spec_as_ip_addr(), route))
}

/// The routes of an interface, each as it leaves from each of the interface's addresses.
pub open spec fn interface_routes(interface: NetworkInterface) -> Seq<(IpAddr, Route)> {
    interface.routes@.flat_map(|r: Route| from_each_address(interface.addresses@, r))
}

/// The routes of all interfaces.
pub open spec fn configured_routes(interfaces: Seq<NetworkInterface>) -> Seq<(IpAddr, Route)> {
    interfaces.flat_map(|i: NetworkInterface| interface_routes(i))
}

/// The route is free of cost, leaves from the address and leads, over the link's target, to the
/// addresses that share the address's network prefix.
pub open spec fn is_connected_route(route: (IpAddr, Route), connection: (Ipv4Cidr, IpAddr)) -> bool {
    &&& route.0 == connection.0.spec_as_ip_addr()
    &&& route.1.next == connection.1
    &&& route.1.cost == 0
    &&& route.1.destination.first == crate::network::route::block_of(
        connection.0.address,
        connection.0.block_size(),
    ) * connection.0.block_size()
    &&& route.1.destination.last == route.1.destination.first + connection.0.block_size() - 1
}

/// `connected` holds one route per connection, in order.
pub open spec fn are_connected_routes(
    connected: Seq<(IpAddr, Route)>,
    connections: Seq<(Ipv4Cidr, IpAddr)>,
) -> bool {
    &&& connected.len() == connections.len()
    &&& forall|i: int|
        0 <= i < connected.len() ==> is_connected_route(
            #[trigger] connected[i],
            connections[i],
        )
}

/// A node's routes: first those to the networks that it is connected to, then the configured ones,
/// sorted by cost and interface address.
pub open spec fn are_node_routes(
    routes: Seq<(IpAddr, Route)>,
    node: NetworkNodeSpec,
    links_addr_map: Seq<(IpAddr, IpAddr)>,
) -> bool {
    exists|n: int| #[trigger]
        are_node_routes_split_at(routes, node, links_addr_map, n)
}

pub open spec fn are_node_routes_split_at(
    routes: Seq<(IpAddr, Route)>,
    node: NetworkNodeSpec,
    links_addr_map: Seq<(IpAddr, IpAddr)>,
    n: int,
) -> bool {
    &&& 0 <= n <= routes.len()
    &&& are_connected_routes(routes.take(n), connections(links_addr_map, cidrs(node.interfaces@)))
    &&& is_stable_sort(configured_routes(node.interfaces@), routes.skip(n))
}

fn find_link_target(links_addr_map: &Vec<(IpAddr, IpAddr)>, source: IpAddr) -> (r: Option<IpAddr>)
    ensures
        r == link_target(links_addr_map@, source),
{
    let mut found: Option<IpAddr> = None;
    for i in 0..links_addr_map.len()
        invariant
            found == link_target(links_addr_map@.take(i as int), source),
    {
        assert(links_addr_map@.take(i + 1).drop_last() =~= links_addr_map@.take(i as int));
        if links_addr_map[i].0 == source {
            found = Some(links_addr_map[i].1);
        }
    }
    assert(links_addr_map@.take(links_addr_map@.len() as int) =~= links_addr_map@);
    found
}

fn push_interface_routes(routes: &mut Vec<(IpAddr, Route)>, interface: &NetworkInterface)
    ensures
        final(routes)@ == old(routes)@ + interface_routes(*interface),
{
    let ghost f = |r: Route| from_each_address(interface.addresses@, r);
    assert(interface.routes@.take(0).flat_map(f) =~= Seq::empty());
    assert(routes@ =~= old(routes)@ + interface.routes@.take(0).flat_map(f));
    for i in 0..interface.routes.len()
        invariant
            f == (|r: Route| from_each_address(interface.addresses@, r)),
            routes@ == old(routes)@ + interface.routes@.take(i as int).flat_map(f),
    {
        let route = interface.routes[i];
        let ghost before = routes@;
        for j in 0..interface.addresses.len()
            invariant
                routes@ == before + from_each_address(interface.addresses@, route).take(j as int),
        {
            routes.push((interface.addresses[j].as_ip_addr(), route));
            assert(routes@ =~= before + from_each_address(interface.addresses@, route).take(j + 1));
        }
        proof {
            let added = from_each_address(interface.addresses@, route);
            assert(added.take(interface.addresses@.len() as int) =~= added);
            interface.routes@.lemma_flat_map_take_append(f, i as int);
            assert(routes@ =~= old(routes)@ + interface.routes@.take(i + 1).flat_map(f));
        }
    }
    assert(interface.routes@.take(interface.routes@.len() as int) =~= interface.routes@);
}

fn node_cidrs(node: &NetworkNodeSpec) -> (r: Vec<Ipv4Cidr>)
    ensures
        r@ == cidrs(node.interfaces@),
{
    let ghost f = |i: NetworkInterface| i.addresses@;
    let mut all: Vec<Ipv4Cidr> = Vec::new();
    assert(node.interfaces@.take(0).flat_map(f) =~= Seq::empty());
    for i in 0..node.interfaces.len()
        invariant
            f == (|i: NetworkInterface| i.addresses@),
            all@ == node.interfaces@.take(i as int).flat_map(f),
    {
        let interface = &node.interfaces[i];
        let ghost before = all@;
        for j in 0..interface.addresses.len()
            invariant
                all@ == before + interface.addresses@.take(j as int),
        {
            all.push(interface.addresses[j]);
            assert(all@ =~= before + interface.addresses@.take(j + 1));
        }
        proof {
            assert(interface.addresses@.take(interface.addresses@.len() as int)
                =~= interface.addresses@);
            node.interfaces@.lemma_flat_map_take_append(f, i as int);
        }
    }
    assert(node.interfaces@.take(node.interfaces@.len() as int) =~= node.interfaces@);
    all
}

fn connected_routes(all: &Vec<Ipv4Cidr>, links_addr_map: &Vec<(IpAddr, IpAddr)>) -> (r: Vec<
    (IpAddr, Route),
>)
    requires
        forall|i: int| 0 <= i < all@.len() ==> (#[trigger] all@[i]).wf(),
    ensures
        are_connected_routes(r@, connections(links_addr_map@, all@)),
{
    let ghost f = |a: Ipv4Cidr|
        match link_target(links_addr_map@, a.spec_as_ip_addr()) {
            Some(target) => Some((a, target)),
            None => None,
        };
    let mut connected: Vec<(IpAddr, Route)> = Vec::new();
    assert(all@.take(0).filter_map(f) =~= Seq::empty());
    for i in 0..all.len()
        invariant
            forall|i: int| 0 <= i < all@.len() ==> (#[trigger] all@[i]).wf(),
            f == (|a: Ipv4Cidr|
                match link_target(links_addr_map@, a.spec_as_ip_addr()) {
                    Some(target) => Some((a, target)),
                    None => None,
                }),
            are_connected_routes(connected@, all@.take(i as int).filter_map(f)),
    {
        proof {
            all@.lemma_filter_map_take_succ(f, i as int);
        }
        let addr = all[i];
        // Some interfaces have a single incoming link, with no outgoing one
        if let Some(target) = find_link_target(links_addr_map, addr.as_ip_addr()) {
            let ghost before = connected@;
            connected.push(
                (
                    addr.as_ip_addr(),
                    Route { destination: IpRange::from_cidr(addr), next: target, cost: 0 },
                ),
            );
            proof {
                let connections = all@.take(i + 1).filter_map(f);
                assert forall|k: int| 0 <= k < connected@.len() implies is_connected_route(
                    #[trigger] connected@[k],
                    connections[k],
                ) by {
                    if k < before.len() {
                        assert(is_connected_route(
                            before[k],
                            all@.take(i as int).filter_map(f)[k],
                        ));
                    }
                }
            }
        }
    }
    assert(all@.take(all@.len() as int) =~= all@);
    connected
}

proof fn lemma_cidrs_wf(interfaces: Seq<NetworkInterface>)
    requires
        forall|i: int, j: int|
            0 <= i < interfaces.len() && 0 <= j < interfaces[i].addresses@.len() ==> (
            #[trigger] interfaces[i].addresses@[j]).wf(),
    ensures
        forall|k: int| 0 <= k < cidrs(interfaces).len() ==> (#[trigger] cidrs(interfaces)[k]).wf(),
    decreases interfaces.len(),
{
    let f = |i: NetworkInterface| i.addresses@;
    if interfaces.len() == 0 {
        assert(cidrs(interfaces) =~= Seq::empty());
    } else {
        let front = interfaces.drop_last();
        let last = interfaces.len() - 1;
        assert forall|i: int, j: int|
            0 <= i < front.len() && 0 <= j < front[i].addresses@.len() implies (
        #[trigger] front[i].addresses@[j]).wf() by {
            assert(interfaces[i].addresses@[j].wf());
        }
        lemma_cidrs_wf(front);
        assert(interfaces.take(last) =~= front);
        assert(interfaces.take(last + 1) =~= interfaces);
        interfaces.lemma_flat_map_take_append(f, last);
        assert forall|k: int| 0 <= k < cidrs(interfaces).len() implies (
        #[trigger] cidrs(interfaces)[k]).wf() by {
            if k < cidrs(front).len() {
                assert(cidrs(front)[k] == cidrs(interfaces)[k]);
            } else {
                assert(interfaces[last].addresses@[k - cidrs(front).len()].wf());
            }
        }
    }
}

proof fn lemma_first_interface_address(interfaces: Seq<NetworkInterface>)
    requires
        interfaces.len() > 0,
        interfaces[0].addresses@.len() > 0,
    ensures
        interface_addresses(interfaces).len() > 0,
        interface_addresses(interfaces)[0] == interfaces[0].addresses@[0].spec_as_ip_addr(),
    decreases interfaces.len(),
{
    let g = |i: NetworkInterface| i.spec_addresses();
    let last = interfaces.len() - 1;
    interfaces.lemma_flat_map_take_append(g, last);
    assert(interfaces.take(last + 1) =~= interfaces);
    if last == 0 {
        assert(interfaces.take(0).flat_map(g) =~= Seq::empty());
    } else {
        assert(interfaces.take(last)[0] == interfaces[0]);
        lemma_first_interface_address(interfaces.take(last));
    }
}

impl NetworkNodeSpec {
    /// Prefixes are no longer than addresses, and the ratios fit together.
    pub open spec fn wf(self) -> bool {
        &&& forall|i: int, j: int|
            0 <= i < self.interfaces@.len() && 0 <= j < self.interfaces@[i].addresses@.len()
                ==> (#[trigger] self.interfaces@[i].addresses@[j]).wf()
        &&& ratios_fit(
            self.packet_loss_ratio,
            self.packet_duplication_ratio,
            self.packet_loss_or_duplication_ratio,
        )
    }
}

/// Why a node cannot be set up, if so.
pub open spec fn node_error(node: NetworkNodeSpec) -> Option<NodeError> {
    if node.interfaces@.len() == 0 {
        Some(NodeError::NoInterfaces { id: node.id })
    } else if node.interfaces@[0].addresses@.len() == 0 {
        Some(NodeError::InterfaceWithoutAddress { id: node.id })
    } else {
        None
    }
}

/// `view` is a freshly set up node.
pub open spec fn is_new_node(
    view: NodeView,
    node: NetworkNodeSpec,
    links_addr_map: Seq<(IpAddr, IpAddr)>,
) -> bool {
    &&& are_node_routes(view.routes, node, links_addr_map)
    &&& view == NodeView {
        id: node.id,
        canonical_address: node.interfaces@[0].addresses@[0].spec_as_ip_addr(),
        addresses: node.spec_addresses(),
        routes: view.routes,
        injected_failures: NodeInjectedFailures::of_spec(node),
        status: NodeStatus::Up,
        last_buffer_clear: None,
        keylog: Seq::empty(),
        udp_endpoints: Seq::empty(),
        outbound_buffer: OutboundBuffer { capacity: node.buffer_size_bytes, used: 0 },
        outbound: Seq::empty(),
    }
}

impl Node {
    pub open spec fn wf(self) -> bool {
        self@.wf()
    }

    /// Sets up a node. `links_addr_map` maps addresses to the addresses that links lead to.
    pub fn new(node: &NetworkNodeSpec, links_addr_map: &Vec<(IpAddr, IpAddr)>) -> (r: Result<
        Self,
        NodeError,
    >)
        requires
            node.wf(),
        ensures
            match r {
                Ok(n) => node_error(*node) is None && n.wf() && is_new_node(
                    n@,
                    *node,
                    links_addr_map@,
                ),
                Err(e) => node_error(*node) == Some(e),
            },
    {
        if node.interfaces.len() == 0 {
            return Err(NodeError::NoInterfaces { id: node.id.clone() });
        }
        if node.interfaces[0].addresses.len() == 0 {
            return Err(NodeError::InterfaceWithoutAddress { id: node.id.clone() });
        }
        let addresses = node.addresses();
        proof {
            lemma_first_interface_address(node.interfaces@);
            lemma_cidrs_wf(node.interfaces@);
        }
        let canonical_address = addresses[0];

        let all = node_cidrs(node);
        let mut routes = connected_routes(&all, links_addr_map);
        let n: usize = routes.len();
        let ghost connected = routes@;

        let mut others: Vec<(IpAddr, Route)> = Vec::new();
        let ghost f = |i: NetworkInterface| interface_routes(i);
        assert(node.interfaces@.take(0).flat_map(f) =~= Seq::empty());
        for i in 0..node.interfaces.len()
            invariant
                f == (|i: NetworkInterface| interface_routes(i)),
                others@ == node.interfaces@.take(i as int).flat_map(f),
        {
            push_interface_routes(&mut others, &node.interfaces[i]);
            proof {
                node.interfaces@.lemma_flat_map_take_append(f, i as int);
            }
        }
        assert(node.interfaces@.take(node.interfaces@.len() as int) =~= node.interfaces@);
        let mut others = stable_sort(others);
        let ghost sorted = others@;
        routes.append(&mut others);
        proof {
            assert(routes@.take(n as int) =~= connected);
            assert(routes@.skip(n as int) =~= sorted);
            assert(are_node_routes_split_at(routes@, *node, links_addr_map@, n as int));
        }

        let r = Node {
            id: node.id.clone(),
            canonical_address,
            addresses,
            routes,
            injected_failures: NodeInjectedFailures::from_spec(node),
            status: NodeStatus::Up,
            last_buffer_clear: None,
            keylog: InMemoryKeyLog::new(),
            udp_endpoints: Vec::new(),
            outbound_buffer: OutboundBuffer::new(node.buffer_size_bytes),
            outbound: Vec::new(),
        };
        proof {
            assert(r@.udp_endpoints =~= Seq::<EndpointView>::empty());
            assert(r@.outbound =~= Seq::<BufferedView>::empty());
        }
        Ok(r)
    }

    /// Finds the endpoint for the port, or creates it, and returns its index.
    pub fn udp_endpoint(&mut self, port: u16) -> (index: usize)
        requires
            old(self).wf(),
        ensures
            final(self).wf(),
            final(self)@ == old(self)@.with_endpoint(port),
            index == old(self)@.endpoint_for(port),
            index < final(self)@.udp_endpoints.len(),
            final(self)@.udp_endpoints[index as int].addr == (SocketAddr {
                ip: old(self)@.canonical_address,
                port,
            }),
    {
        let ghost endpoints = self@.udp_endpoints;
        let ghost p = |e: EndpointView| e.addr.port == port;
        for i in 0..self.udp_endpoints.len()
            invariant
                *self == *old(self),
                self.wf(),
                endpoints == self@.udp_endpoints,
                p == (|e: EndpointView| e.addr.port == port),
                forall|j: int| 0 <= j < i ==> !p(#[trigger] endpoints[j]),
        {
            assert(endpoints[i as int] == self.udp_endpoints@[i as int]@);
            if self.udp_endpoints[i].addr.port == port {
                proof {
                    lemma_first_index_is(endpoints, p, i as int);
                }
                return i;
            }
        }
        proof {
            lemma_first_index_none(endpoints, p);
        }
        let index: usize = self.udp_endpoints.len();
        self.udp_endpoints.push(
            UdpEndpoint {
                inbound: InboundQueue::new(),
                addr: SocketAddr { ip: self.canonical_address, port },
            },
        );
        proof {
            let created = EndpointView {
                inbound: Seq::empty(),
                addr: SocketAddr { ip: self.canonical_address, port },
            };
            assert(self@.udp_endpoints =~= endpoints.push(created));
        }
        index
    }

    /// Delivers a packet, at `now`, to the endpoint of the port that it is destined for.
    pub fn deliver_packet(&mut self, now: Nanos, data: InTransitData)
        requires
            old(self).wf(),
        ensures
            final(self).wf(),
            final(self)@ == old(self)@.delivered(now, data@),
    {
        let port: u16 = data.transmit.destination.port;
        let index: usize = self.udp_endpoint(port);
        let ghost node = self@;
        let ghost packet = data@;
        assert(node.udp_endpoints[index as int] == self.udp_endpoints@[index as int]@);
        self.udp_endpoints[index].inbound.send(now, data, 0);
        proof {
            let updated = EndpointView {
                inbound: enqueued(
                    node.udp_endpoints[index as int].inbound,
                    QueuedView { data: packet, sent: now, arrives_at: now },
                ),
                ..node.udp_endpoints[index as int]
            };
            assert(self@.udp_endpoints =~= node.udp_endpoints.update(index as int, updated));
            assert(self@ =~= old(self)@.delivered(now, packet));
        }
    }

    pub fn id(&self) -> (r: &String)
        ensures
            *r == self@.id,
    {
        &self.id
    }

    pub fn keylog(&self) -> (r: &InMemoryKeyLog)
        ensures
            r@ == self@.keylog,
    {
        &self.keylog
    }

    pub fn addresses(&self) -> (r: &Vec<IpAddr>)
        ensures
            r@ == self@.addresses,
    {
        &self.addresses
    }

    pub fn socket_addr(&self, port: u16) -> (r: SocketAddr)
        ensures
            r == (SocketAddr { ip: self@.canonical_address, port }),
    {
        SocketAddr { ip: self.canonical_address, port }
    }

    pub fn status_str(&self) -> (r: &'static str)
        ensures
            r@ == match self@.status {
                NodeStatus::Up => "UP"@,
                NodeStatus::Down => "DOWN"@,
            },
    {
        match self.status {
            NodeStatus::Up => "UP",
            NodeStatus::Down => "DOWN",
        }
    }

    pub fn outbound_buffer(&self) -> (r: OutboundBuffer)
        ensures
            r == self@.outbound_buffer,
    {
        self.outbound_buffer
    }

    pub fn is_down(&self) -> (r: bool)
        ensures
            r == (self@.status == NodeStatus::Down),
    {
        match self.status {
            NodeStatus::Up => false,
            NodeStatus::Down => true,
        }
    }

    /// Changes the status. The result says whether the node came up, so that those who wait for
    /// that have to be notified.
    pub fn update_status(&mut self, update: UpdateNodeStatus) -> (came_up: bool)
        ensures
            final(self)@ == old(self)@.updated_status(update),
            old(self).wf() ==> final(self).wf(),
            came_up == (old(self)@.status == NodeStatus::Down && update == UpdateNodeStatus::Up),
    {
        match (self.status, update) {
            (NodeStatus::Down, UpdateNodeStatus::Down) | (NodeStatus::Up, UpdateNodeStatus::Up) => {
                // No update
                false
            },
            (NodeStatus::Up, UpdateNodeStatus::Down) => {
                self.status = NodeStatus::Down;
                false
            },
            (NodeStatus::Down, UpdateNodeStatus::Up) => {
                self.status = NodeStatus::Up;
                true
            },
        }
    }

    /// From now on, packets that are in the buffer at `now` count as dropped.
    pub fn clear_buffer(&mut self, now: Nanos)
        ensures
            final(self)@ == (NodeView { last_buffer_clear: Some(now), ..old(self)@ }),
            old(self).wf() ==> final(self).wf(),
    {
        self.last_buffer_clear = Some(now);
    }
}

} // verus!
