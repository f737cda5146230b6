//! A simulated UDP/IP network.
//!
//! An [`InMemoryNetwork`] is the state of the network. Its functions take the current time, change
//! the state and say what has to happen next; whoever runs the simulation waits, and draws random
//! numbers, on its behalf.

pub mod accounting;
pub mod arrivals;
pub mod blueprint;
pub mod connected;
pub mod connectivity;
pub mod delivery;
pub mod event;
pub mod event_processing;
pub mod forwarding;
pub mod handling;
pub mod inbound_queue;
pub mod ip;
pub mod known_routes;
pub mod laws;
pub mod link;
pub mod naming;
pub mod node;
pub mod origin;
pub mod outbound_buffer;
pub mod pacing;
pub mod repeatability;
pub mod route;
pub mod routing;
pub mod run;
pub mod sending;
pub mod setup;
pub mod spec;
pub mod statuses;
pub mod ties;
pub mod traced;
pub mod travel;

use crate::network::accounting::{packet_accounted_for, reserved, Ticket};
use crate::network::ip::IpAddr;
use crate::network::link::{LinkView, NetworkLink};
use crate::network::node::{Node, NodeView};
use crate::network::route::Route;
use crate::network::routing::{has_routes, link_between, walk};
use crate::random::{draw_u128, drawn_u128};
use crate::search::{first_index, lemma_first_index_is, lemma_first_index_none};
use crate::sorting::{is_stable_sort, stable_sort};
use crate::text::texts;
use crate::time::Nanos;
use crate::tracing::tracer::{SimulationStepTracer, TracerView};
use crate::transmit::{InTransitData, OwnedTransmit, PacketId, PacketView};
use vstd::prelude::*;

verus! {

/// A packet that arrived: the nodes on its way, with the time at which it reached each of them, and
/// its content.
pub struct PacketArrived {
    pub path: Vec<(Nanos, String)>,
    pub content: Vec<u8>,
}

/// A simulated UDP/IP network.
pub struct InMemoryNetwork {
    pub nodes: Vec<Node>,
    pub links: Vec<NetworkLink>,
    /// The addresses of all nodes, each with the routes that leave from there, the cheapest one
    /// first
    pub routes_by_addr: Vec<(IpAddr, Vec<Route>)>,
    pub tracer: SimulationStepTracer,
    pub rng_state: u64,
    pub next_transmit_number: u64,
    /// The reservations of space in the nodes' outbound buffers, in the order in which they were
    /// made
    pub tickets: Vec<Ticket>,
    /// Messages that are still to be shown
    pub messages: Vec<String>,
}

/// The content of an [`InMemoryNetwork`].
#[verifier::ext_equal]
pub struct NetworkView {
    pub nodes: Seq<NodeView>,
    pub links: Seq<LinkView>,
    pub routes_by_addr: Seq<(IpAddr, Seq<Route>)>,
    pub tracer: TracerView,
    pub rng_state: u64,
    pub next_transmit_number: u64,
    pub tickets: Seq<Ticket>,
    pub messages: Seq<Seq<char>>,
}

pub open spec fn node_views(nodes: Seq<Node>) -> Seq<NodeView> {
    nodes.map_values(|n: Node| n@)
}

pub open spec fn link_views(links: Seq<NetworkLink>) -> Seq<LinkView> {
    links.map_values(|l: NetworkLink| l@)
}

pub open spec fn routes_view(routes: Seq<(IpAddr, Vec<Route>)>) -> Seq<(IpAddr, Seq<Route>)> {
    routes.map_values(|r: (IpAddr, Vec<Route>)| (r.0, r.1@))
}

impl View for InMemoryNetwork {
    type V = NetworkView;

    open spec fn view(&self) -> NetworkView {
        NetworkView {
            nodes: node_views(self.nodes@),
            links: link_views(self.links@),
            routes_by_addr: routes_view(self.routes_by_addr@),
            tracer: self.tracer@,
            rng_state: self.rng_state,
            next_transmit_number: self.next_transmit_number,
            tickets: self.tickets@,
            messages: texts(self.messages@),
        }
    }
}

/// No two nodes share an id.
pub open spec fn node_ids_distinct(nodes: Seq<NodeView>) -> bool {
    forall|i: int, j: int|
        0 <= i < j < nodes.len() ==> (#[trigger] nodes[i]).id@ != (#[trigger] nodes[j]).id@
}

/// No address occurs twice.
pub open spec fn addresses_distinct(nodes: Seq<NodeView>) -> bool {
    forall|i: int, a: int, j: int, b: int|
        0 <= i < nodes.len() && 0 <= a < nodes[i].addresses.len() && 0 <= j < nodes.len() && 0 <= b
            < nodes[j].addresses.len() && #[trigger] nodes[i].addresses[a]
            == #[trigger] nodes[j].addresses[b] ==> i == j && a == b
}

/// No two links share an id.
pub open spec fn link_ids_distinct(links: Seq<LinkView>) -> bool {
    forall|i: int, j: int|
        0 <= i < j < links.len() ==> (#[trigger] links[i]).id@ != (#[trigger] links[j]).id@
}

/// No two links connect the same addresses in the same direction.
pub open spec fn link_pairs_distinct(links: Seq<LinkView>) -> bool {
    forall|i: int, j: int|
        0 <= i < j < links.len() ==> (#[trigger] links[i]).source != (#[trigger] links[j]).source
            || links[i].target != links[j].target
}

/// The index of the node with the given address.
pub open spec fn node_with_address(nodes: Seq<NodeView>, ip: IpAddr) -> Option<int> {
    first_index(nodes, |n: NodeView| n.addresses.contains(ip))
}

/// The index of the node with the given id.
pub open spec fn node_with_id(nodes: Seq<NodeView>, id: Seq<char>) -> Option<int> {
    first_index(nodes, |n: NodeView| n.id@ == id)
}

/// The index of the link with the given id.
pub open spec fn link_with_id(links: Seq<LinkView>, id: Seq<char>) -> Option<int> {
    first_index(links, |l: LinkView| l.id@ == id)
}

impl NetworkView {
    /// Every packet that is waiting in a node or at a link has its space reserved.
    pub open spec fn packets_accounted_for(self) -> bool {
        &&& forall|n: int, k: int|
            0 <= n < self.nodes.len() && 0 <= k < self.nodes[n].outbound.len()
                ==> packet_accounted_for(
                self.tickets,
                n,
                #[trigger] self.nodes[n].outbound[k].data,
                self.nodes[n].outbound[k].ticket,
            )
        &&& forall|l: int, k: int|
            0 <= l < self.links.len() && 0 <= k < self.links[l].outgoing.len()
                ==> packet_accounted_for(
                self.tickets,
                self.links[l].outgoing[k].src_node as int,
                #[trigger] self.links[l].outgoing[k].data,
                self.links[l].outgoing[k].ticket,
            )
        &&& forall|l: int|
            0 <= l < self.links.len() ==> ((#[trigger] self.links[l]).current matches Some(p)
                ==> packet_accounted_for(self.tickets, p.src_node as int, p.data, p.ticket))
    }

    /// The space that is in use in each node's buffer is what the packets take that were neither
    /// sent nor given back.
    pub open spec fn buffers_accounted_for(self) -> bool {
        &&& forall|t: int|
            0 <= t < self.tickets.len() ==> (#[trigger] self.tickets[t]).node < self.nodes.len()
        &&& forall|n: int|
            0 <= n < self.nodes.len() ==> (#[trigger] self.nodes[n]).outbound_buffer.used
                == reserved(self.tickets, n)
    }

    pub open spec fn wf(self) -> bool {
        &&& forall|n: int| 0 <= n < self.nodes.len() ==> (#[trigger] self.nodes[n]).wf()
        &&& forall|l: int| 0 <= l < self.links.len() ==> (#[trigger] self.links[l]).wf()
        &&& node_ids_distinct(self.nodes)
        &&& addresses_distinct(self.nodes)
        &&& link_ids_distinct(self.links)
        &&& link_pairs_distinct(self.links)
        &&& forall|n: int, a: int|
            0 <= n < self.nodes.len() && 0 <= a < self.nodes[n].addresses.len() ==> has_routes(
                self.routes_by_addr,
                #[trigger] self.nodes[n].addresses[a],
            )
        &&& crate::network::routing::routes_sorted(self.routes_by_addr)
        &&& self.buffers_accounted_for()
        &&& self.packets_accounted_for()
    }

    /// The links that could take a packet from the node towards `dest`, the preferred one first.
    pub open spec fn walk_links(self, node: int, dest: IpAddr) -> Seq<usize> {
        walk(self.links, self.routes_by_addr, self.nodes[node].addresses, dest)
    }

    /// A new packet from the given node.
    pub open spec fn new_packet(self, source_id: Seq<char>, transmit: OwnedTransmit) -> PacketView {
        PacketView {
            id: drawn_u128(self.rng_state).1,
            duplicate: false,
            source_id,
            transmit: transmit@,
            number: self.next_transmit_number,
        }
    }

    /// The network after a packet was created.
    pub open spec fn packet_created(self) -> NetworkView {
        NetworkView {
            rng_state: drawn_u128(self.rng_state).0,
            next_transmit_number: if self.next_transmit_number == u64::MAX {
                0
            } else {
                (self.next_transmit_number + 1) as u64
            },
            ..self
        }
    }
}

impl InMemoryNetwork {
    pub open spec fn wf(self) -> bool {
        self@.wf()
    }

    /// The ids of all nodes, sorted.
    pub fn get_node_ids(&self) -> (ids: Vec<String>)
        ensures
            is_stable_sort(self@.nodes.map_values(|n: NodeView| n.id), ids@),
    {
        let mut ids: Vec<String> = Vec::new();
        let ghost all = self@.nodes.map_values(|n: NodeView| n.id);
        for i in 0..self.nodes.len()
            invariant
                all == self@.nodes.map_values(|n: NodeView| n.id),
                ids@ == all.take(i as int),
        {
            ids.push(self.nodes[i].id.clone());
            assert(ids@ =~= all.take(i + 1));
        }
        assert(all.take(self.nodes@.len() as int) =~= all);
        stable_sort(ids)
    }

    /// The node with the given address, as an index.
    pub fn node(&self, ip: IpAddr) -> (r: Option<usize>)
        ensures
            match r {
                Some(i) => node_with_address(self@.nodes, ip) == Some(i as int) && i
                    < self@.nodes.len(),
                None => node_with_address(self@.nodes, ip) is None,
            },
    {
        let ghost nodes = self@.nodes;
        let ghost p = |n: NodeView| n.addresses.contains(ip);
        for i in 0..self.nodes.len()
            invariant
                nodes == self@.nodes,
                p == (|n: NodeView| n.addresses.contains(ip)),
                forall|j: int| 0 <= j < i ==> !p(#[trigger] nodes[j]),
        {
            assert(nodes[i as int] == self.nodes@[i as int]@);
            let addresses = &self.nodes[i].addresses;
            let mut a: usize = 0;
            while a < addresses.len()
                invariant
                    i < nodes.len(),
                    a <= addresses@.len(),
                    nodes == self@.nodes,
                    p == (|n: NodeView| n.addresses.contains(ip)),
                    forall|j: int| 0 <= j < i ==> !p(#[trigger] nodes[j]),
                    addresses@ == nodes[i as int].addresses,
                    forall|b: int| 0 <= b < a ==> #[trigger] addresses@[b] != ip,
                decreases addresses@.len() - a,
            {
                if addresses[a] == ip {
                    proof {
                        assert(nodes[i as int].addresses[a as int] == ip);
                        lemma_first_index_is(nodes, p, i as int);
                    }
                    return Some(i);
                }
                a = a + 1;
            }
            assert(!p(nodes[i as int]));
        }
        proof {
            lemma_first_index_none(nodes, p);
        }
        None
    }

    /// The node with the given id, as an index.
    pub fn node_by_id(&self, id: &String) -> (r: Option<usize>)
        ensures
            match r {
                Some(i) => node_with_id(self@.nodes, id@) == Some(i as int) && i
                    < self@.nodes.len(),
                None => node_with_id(self@.nodes, id@) is None,
            },
    {
        let ghost nodes = self@.nodes;
        let ghost p = |n: NodeView| n.id@ == id@;
        for i in 0..self.nodes.len()
            invariant
                nodes == self@.nodes,
                p == (|n: NodeView| n.id@ == id@),
                forall|j: int| 0 <= j < i ==> !p(#[trigger] nodes[j]),
        {
            assert(nodes[i as int] == self.nodes@[i as int]@);
            if self.nodes[i].id == *id {
                proof {
                    lemma_first_index_is(nodes, p, i as int);
                }
                return Some(i);
            }
        }
        proof {
            lemma_first_index_none(nodes, p);
        }
        None
    }

    /// The link with the given id, as an index.
    pub fn link_by_id(&self, id: &String) -> (r: Option<usize>)
        ensures
            match r {
                Some(i) => link_with_id(self@.links, id@) == Some(i as int) && i
                    < self@.links.len(),
                None => link_with_id(self@.links, id@) is None,
            },
    {
        let ghost links = self@.links;
        let ghost p = |l: LinkView| l.id@ == id@;
        for i in 0..self.links.len()
            invariant
                links == self@.links,
                p == (|l: LinkView| l.id@ == id@),
                forall|j: int| 0 <= j < i ==> !p(#[trigger] links[j]),
        {
            assert(links[i as int] == self.links@[i as int]@);
            if self.links[i].id == *id {
                proof {
                    lemma_first_index_is(links, p, i as int);
                }
                return Some(i);
            }
        }
        proof {
            lemma_first_index_none(links, p);
        }
        None
    }

    /// The link between two addresses, as an index.
    pub fn link_between(&self, source: IpAddr, target: IpAddr) -> (r: Option<usize>)
        ensures
            r == link_between(self@.links, source, target),
            r matches Some(i) ==> i < self@.links.len() && self@.links[i as int].source == source
                && self@.links[i as int].target == target,
    {
        let ghost links = self@.links;
        let ghost p = |l: LinkView| l.source == source && l.target == target;
        for i in 0..self.links.len()
            invariant
                links == self@.links,
                p == (|l: LinkView| l.source == source && l.target == target),
                forall|j: int| 0 <= j < i ==> !p(#[trigger] links[j]),
        {
            assert(links[i as int] == self.links@[i as int]@);
            if self.links[i].source == source && self.links[i].target == target {
                proof {
                    lemma_first_index_is(links, p, i as int);
                }
                return Some(i);
            }
        }
        proof {
            lemma_first_index_none(links, p);
        }
        None
    }

    /// Draws the id of a new packet. Ids depend on nothing but the state of the generator, so that
    /// simulations can be repeated.
    pub fn new_packet_id(&mut self) -> (id: PacketId)
        ensures
            id == drawn_u128(old(self).rng_state).1,
            final(self)@ == (NetworkView {
                rng_state: drawn_u128(old(self).rng_state).0,
                ..old(self)@
            }),
            old(self).wf() ==> final(self).wf(),
    {
        let (rng_state, id) = draw_u128(self.rng_state);
        self.rng_state = rng_state;
        id
    }

    /// The status of a link, as text.
    pub fn get_link_status(&self, link_id: &String) -> (r: &'static str)
        requires
            link_with_id(self@.links, link_id@) is Some,
        ensures
            r@ == match self@.links[link_with_id(self@.links, link_id@)->0].status {
                link::LinkStatus::Up => "UP"@,
                link::LinkStatus::Down => "DOWN"@,
            },
    {
        match self.link_by_id(link_id) {
            Some(i) => self.links[i].status_str(),
            None => "",
        }
    }

    /// The status of a node, as text.
    pub fn get_node_status(&self, node_id: &String) -> (r: &'static str)
        requires
            node_with_id(self@.nodes, node_id@) is Some,
        ensures
            r@ == match self@.nodes[node_with_id(self@.nodes, node_id@)->0].status {
                node::NodeStatus::Up => "UP"@,
                node::NodeStatus::Down => "DOWN"@,
            },
    {
        match self.node_by_id(node_id) {
            Some(i) => self.nodes[i].status_str(),
            None => "",
        }
    }

    /// The bandwidth of a link, in bits per second.
    pub fn get_link_bandwidth_bps(&self, link_id: &String) -> (r: usize)
        requires
            link_with_id(self@.links, link_id@) is Some,
        ensures
            r == self@.links[link_with_id(self@.links, link_id@)->0].bandwidth_bps,
    {
        match self.link_by_id(link_id) {
            Some(i) => self.links[i].bandwidth_bps,
            None => 0,
        }
    }

    /// Whether there is a route from the node to `dest`, even if it is inactive at the moment
    /// because a link is down.
    pub fn has_route_to(&self, node: usize, dest: IpAddr) -> (r: bool)
        requires
            self.wf(),
            node < self@.nodes.len(),
        ensures
            r == (self@.walk_links(node as int, dest).len() > 0),
    {
        self.walk_links(node, dest).len() > 0
    }

    /// A new packet that the given node sends.
    pub fn in_transit_data(&mut self, source_id: String, transmit: OwnedTransmit) -> (data:
        InTransitData)
        ensures
            data@ == old(self)@.new_packet(source_id@, transmit),
            final(self)@ == old(self)@.packet_created(),
            old(self).wf() ==> final(self).wf(),
    {
        let id: PacketId = self.new_packet_id();
        let number: u64 = self.next_transmit_number;
        self.next_transmit_number = if number == u64::MAX {
            0
        } else {
            number + 1
        };
        InTransitData { id, duplicate: false, source_id, transmit, number }
    }
}

} // verus!
