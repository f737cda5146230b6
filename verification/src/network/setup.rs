//! Sets up a network.

use crate::network::accounting::reserved;
use crate::network::event::NetworkEvents;
use crate::network::ip::{IpAddr, Ipv4Cidr};
use crate::network::link::NetworkLink;
use crate::network::node::{is_new_node, node_error, Node, NodeError};
use crate::network::route::Route;
use crate::network::routing::{has_routes, routes_sorted};
use crate::network::spec::{NetworkInterface, NetworkLinkSpec, NetworkNodeSpec, NetworkSpec};
use crate::network::{
    addresses_distinct, link_ids_distinct, link_pairs_distinct, link_views, node_ids_distinct,
    routes_view, InMemoryNetwork, NetworkView,
};
use crate::search::{first_index, lemma_first_index, lemma_first_index_is, lemma_first_index_none};
use crate::sorting::{is_stable_sort, stable_sort};
use crate::text::{decimal, push_decimal, texts};
use crate::time::{elapsed, elapsed_spec, Nanos, SPAN_MAX};
use crate::tracing::tracer::{SimulationStepTracer, TracerView};
use vstd::prelude::*;

verus! {

/// Why a network cannot be set up.
pub enum InitError {
    /// Time has passed since the tracer was created
    OldTracer,
    /// Time has passed since the start of the simulation
    OldStart,
    LinkAddressConflict { id: String, other: String, source: IpAddr, target: IpAddr },
    DuplicateLinkId { id: String },
    TooFewNodes { found: usize },
    Node { error: NodeError },
    NodeAddressConflict { id: String, other: String, address: IpAddr },
    DuplicateNodeId { id: String },
}

impl InitError {
    pub open spec fn spec_addresses(self) -> Seq<IpAddr> {
        match self {
            InitError::LinkAddressConflict { source, target, .. } => seq![source, target],
            InitError::NodeAddressConflict { address, .. } => seq![address],
            _ => Seq::empty(),
        }
    }

    /// The error's message, in which the addresses are shown as given.
    pub open spec fn text(self, shown: Seq<Seq<char>>) -> Seq<char> {
        match self {
            InitError::OldTracer => "attempted to initialize network with an old tracer"@,
            InitError::OldStart => "attempted to initialize network with an old start instant"@,
            InitError::LinkAddressConflict { id, other, .. } => "links "@ + id@ + " and "@ + other@
                + " share the same address pair: "@ + shown[0] + " -> "@ + shown[1],
            InitError::DuplicateLinkId { id } => "there is more than one link with id "@ + id@,
            InitError::TooFewNodes { found } =>
                "Expected at least two nodes in network graph, found "@ + decimal(found as nat),
            InitError::Node { error } => match error {
                NodeError::NoInterfaces { id } => "Node "@ + id@ + " has no interfaces"@,
                NodeError::InterfaceWithoutAddress { id } => "Node "@ + id@
                    + " has an interface without any address"@,
            },
            InitError::NodeAddressConflict { id, other, .. } => "nodes "@ + id@ + " and "@ + other@
                + " share the same address: "@ + shown[0],
            InitError::DuplicateNodeId { id } => "there are multiple nodes with id "@ + id@,
        }
    }

    /// The addresses that the error's message shows.
    pub fn addresses(&self) -> (r: Vec<IpAddr>)
        ensures
            r@ == self.spec_addresses(),
    {
        let mut addresses: Vec<IpAddr> = Vec::new();
        match self {
            InitError::LinkAddressConflict { source, target, .. } => {
                addresses.push(*source);
                addresses.push(*target);
            },
            InitError::NodeAddressConflict { address, .. } => addresses.push(*address),
            _ => {},
        }
        assert(addresses@ =~= self.spec_addresses());
        addresses
    }

    /// The error's message, in which the addresses are shown as given.
    pub fn message(&self, shown: &Vec<String>) -> (r: String)
        requires
            shown@.len() == self.spec_addresses().len(),
        ensures
            r@ == self.text(texts(shown@)),
    {
        match self {
            InitError::OldTracer => {
                "attempted to initialize network with an old tracer".to_owned()
            },
            InitError::OldStart => {
                "attempted to initialize network with an old start instant".to_owned()
            },
            InitError::LinkAddressConflict { id, other, .. } => {
                let mut text = "links ".to_owned();
                text.append(id.as_str());
                text.append(" and ");
                text.append(other.as_str());
                text.append(" share the same address pair: ");
                text.append(shown[0].as_str());
                text.append(" -> ");
                text.append(shown[1].as_str());
                text
            },
            InitError::DuplicateLinkId { id } => {
                let mut text = "there is more than one link with id ".to_owned();
                text.append(id.as_str());
                text
            },
            InitError::TooFewNodes { found } => {
                let mut text = "Expected at least two nodes in network graph, found ".to_owned();
                push_decimal(&mut text, *found as u128);
                text
            },
            InitError::Node { error } => match error {
                NodeError::NoInterfaces { id } => {
                    let mut text = "Node ".to_owned();
                    text.append(id.as_str());
                    text.append(" has no interfaces");
                    text
                },
                NodeError::InterfaceWithoutAddress { id } => {
                    let mut text = "Node ".to_owned();
                    text.append(id.as_str());
                    text.append(" has an interface without any address");
                    text
                },
            },
            InitError::NodeAddressConflict { id, other, .. } => {
                let mut text = "nodes ".to_owned();
                text.append(id.as_str());
                text.append(" and ");
                text.append(other.as_str());
                text.append(" share the same address: ");
                text.append(shown[0].as_str());
                text
            },
            InitError::DuplicateNodeId { id } => {
                let mut text = "there are multiple nodes with id ".to_owned();
                text.append(id.as_str());
                text
            },
        }
    }
}

/// The conflict between a link and the earlier ones, if there is one.
pub open spec fn link_error(earlier: Seq<NetworkLinkSpec>, l: NetworkLinkSpec) -> Option<InitError> {
    match first_index(
        earlier,
        |e: NetworkLinkSpec| e.source == l.source && e.target == l.target,
    ) {
        Some(i) => Some(
            InitError::LinkAddressConflict {
                id: l.id,
                other: earlier[i].id,
                source: l.source,
                target: l.target,
            },
        ),
        None => if first_index(earlier, |e: NetworkLinkSpec| e.id@ == l.id@) is Some {
            Some(InitError::DuplicateLinkId { id: l.id })
        } else {
            None
        },
    }
}

/// The first conflict between links.
pub open spec fn links_error(links: Seq<NetworkLinkSpec>) -> Option<InitError>
    decreases links.len(),
{
    if links.len() == 0 {
        None
    } else {
        match links_error(links.drop_last()) {
            Some(e) => Some(e),
            None => link_error(links.drop_last(), links.last()),
        }
    }
}

/// The first conflict between the node's first `count` addresses and those before them.
pub open spec fn address_error(
    earlier: Seq<NetworkNodeSpec>,
    node: NetworkNodeSpec,
    count: nat,
) -> Option<InitError>
    decreases count,
{
    if count == 0 {
        None
    } else {
        match address_error(earlier, node, (count - 1) as nat) {
            Some(e) => Some(e),
            None => {
                let address = node.spec_addresses()[count - 1];
                match first_index(
                    earlier,
                    |n: NetworkNodeSpec| n.spec_addresses().contains(address),
                ) {
                    Some(i) => Some(
                        InitError::NodeAddressConflict {
                            id: node.id,
                            other: earlier[i].id,
                            address,
                        },
                    ),
                    None => if node.spec_addresses().take(count - 1).contains(address) {
                        Some(
                            InitError::NodeAddressConflict {
                                id: node.id,
                                other: node.id,
                                address,
                            },
                        )
                    } else {
                        None
                    },
                }
            },
        }
    }
}

/// What is wrong with a node, given the earlier ones.
pub open spec fn single_node_error(
    earlier: Seq<NetworkNodeSpec>,
    node: NetworkNodeSpec,
) -> Option<InitError> {
    match node_error(node) {
        Some(error) => Some(InitError::Node { error }),
        None => match address_error(earlier, node, node.spec_addresses().len()) {
            Some(e) => Some(e),
            None => if first_index(earlier, |n: NetworkNodeSpec| n.id@ == node.id@) is Some {
                Some(InitError::DuplicateNodeId { id: node.id })
            } else {
                None
            },
        },
    }
}

/// The first thing that is wrong with the nodes.
pub open spec fn nodes_error(nodes: Seq<NetworkNodeSpec>) -> Option<InitError>
    decreases nodes.len(),
{
    if nodes.len() == 0 {
        None
    } else {
        match nodes_error(nodes.drop_last()) {
            Some(e) => Some(e),
            None => single_node_error(nodes.drop_last(), nodes.last()),
        }
    }
}

/// Why the network cannot be set up at `now`, if so. When time is warped, nothing may have happened
/// since the start of the simulation.
pub open spec fn init_error(
    spec: NetworkSpec,
    tracer: TracerView,
    start: Nanos,
    now: Nanos,
    disable_time_warping: bool,
) -> Option<InitError> {
    if !disable_time_warping && elapsed_spec(tracer.simulation_start, now) != 0 {
        Some(InitError::OldTracer)
    } else if !disable_time_warping && elapsed_spec(start, now) != 0 {
        Some(InitError::OldStart)
    } else {
        match links_error(spec.links@) {
            Some(e) => Some(e),
            None => if spec.nodes@.len() < 2 {
                Some(InitError::TooFewNodes { found: spec.nodes@.len() as usize })
            } else {
                nodes_error(spec.nodes@)
            },
        }
    }
}

/// The addresses of an interface, each with the interface's routes.
pub open spec fn interface_entries(interface: NetworkInterface) -> Seq<(IpAddr, Seq<Route>)> {
    interface.addresses@.map_values(|a: Ipv4Cidr| (a.spec_as_ip_addr(), interface.routes@))
}

/// The addresses of a node, each with the routes of its interface.
pub open spec fn node_entries(node: NetworkNodeSpec) -> Seq<(IpAddr, Seq<Route>)> {
    node.interfaces@.flat_map(|i: NetworkInterface| interface_entries(i))
}

/// The addresses of all nodes, each with the routes of its interface.
pub open spec fn all_entries(nodes: Seq<NetworkNodeSpec>) -> Seq<(IpAddr, Seq<Route>)> {
    nodes.flat_map(|n: NetworkNodeSpec| node_entries(n))
}

/// The entries, with the routes of each one sorted by cost.
pub open spec fn are_sorted_entries(
    sorted: Seq<(IpAddr, Seq<Route>)>,
    entries: Seq<(IpAddr, Seq<Route>)>,
) -> bool {
    &&& sorted.len() == entries.len()
    &&& forall|k: int|
        0 <= k < sorted.len() ==> (#[trigger] sorted[k]).0 == entries[k].0 && is_stable_sort(
            entries[k].1,
            sorted[k].1,
        )
}

/// The ends of the links.
pub open spec fn link_ends(links: Seq<NetworkLinkSpec>) -> Seq<(IpAddr, IpAddr)> {
    links.map_values(|l: NetworkLinkSpec| (l.source, l.target))
}

/// A network before its first event.
pub open spec fn is_initial(
    network: NetworkView,
    spec: NetworkSpec,
    tracer: TracerView,
    rng_state: u64,
    now: Nanos,
) -> bool {
    &&& network.nodes.len() == spec.nodes@.len()
    &&& forall|n: int|
        0 <= n < network.nodes.len() ==> is_new_node(
            #[trigger] network.nodes[n],
            spec.nodes@[n],
            link_ends(spec.links@),
        )
    &&& network.links == spec.links@.map_values(
        |l: NetworkLinkSpec| NetworkLink::of_spec(l, now),
    )
    &&& are_sorted_entries(network.routes_by_addr, all_entries(spec.nodes@))
    &&& network.tracer == tracer
    &&& network.rng_state == rng_state
    &&& network.next_transmit_number == 0
    &&& network.tickets == Seq::<crate::network::accounting::Ticket>::empty()
    &&& network.messages == Seq::<Seq<char>>::empty()
}

/// A network after the events that set the initial statuses took effect.
pub open spec fn is_initialized(
    network: NetworkView,
    spec: NetworkSpec,
    events: NetworkEvents,
    tracer: TracerView,
    rng_state: u64,
    now: Nanos,
) -> bool {
    exists|initial: NetworkView| #[trigger]
        is_initial(initial, spec, tracer, rng_state, now) && network
            == initial.link_events_processed(
            events.initial_link_events@,
            now,
        ).node_events_processed(events.initial_node_events@, now)
}

proof fn lemma_links_error_prefix(links: Seq<NetworkLinkSpec>, n: int)
    requires
        0 <= n <= links.len(),
        links_error(links.take(n)) is Some,
    ensures
        links_error(links) == links_error(links.take(n)),
    decreases links.len() - n,
{
    if n == links.len() {
        assert(links.take(n) =~= links);
    } else {
        assert(links.take(n + 1).drop_last() =~= links.take(n));
        lemma_links_error_prefix(links, n + 1);
    }
}

proof fn lemma_nodes_error_prefix(nodes: Seq<NetworkNodeSpec>, n: int)
    requires
        0 <= n <= nodes.len(),
        nodes_error(nodes.take(n)) is Some,
    ensures
        nodes_error(nodes) == nodes_error(nodes.take(n)),
    decreases nodes.len() - n,
{
    if n == nodes.len() {
        assert(nodes.take(n) =~= nodes);
    } else {
        assert(nodes.take(n + 1).drop_last() =~= nodes.take(n));
        lemma_nodes_error_prefix(nodes, n + 1);
    }
}

proof fn lemma_address_error_prefix(
    earlier: Seq<NetworkNodeSpec>,
    node: NetworkNodeSpec,
    n: nat,
    count: nat,
)
    requires
        n <= count,
        address_error(earlier, node, n) is Some,
    ensures
        address_error(earlier, node, count) == address_error(earlier, node, n),
    decreases count - n,
{
    if n < count {
        lemma_address_error_prefix(earlier, node, n, (count - 1) as nat);
    }
}

fn check_links(links: &Vec<NetworkLinkSpec>) -> (r: Result<(), InitError>)
    ensures
        match r {
            Ok(_) => links_error(links@) is None,
            Err(e) => links_error(links@) == Some(e),
        },
{
    for i in 0..links.len()
        invariant
            links_error(links@.take(i as int)) is None,
    {
        let l = &links[i];
        let ghost earlier = links@.take(i as int);
        let ghost same_pair = |e: NetworkLinkSpec| e.source == l.source && e.target == l.target;
        let ghost same_id = |e: NetworkLinkSpec| e.id@ == l.id@;
        proof {
            assert(links@.take(i + 1).drop_last() =~= earlier);
            assert(links@.take(i + 1).last() == *l);
        }
        for j in 0..i
            invariant
                i < links@.len(),
                *l == links@[i as int],
                earlier == links@.take(i as int),
                links_error(earlier) is None,
                links@.take(i + 1).drop_last() == earlier,
                links@.take(i + 1).last() == *l,
                same_pair == (|e: NetworkLinkSpec| e.source == l.source && e.target == l.target),
                forall|k: int| 0 <= k < j ==> !same_pair(#[trigger] earlier[k]),
        {
            assert(earlier[j as int] == links@[j as int]);
            if links[j].source == l.source && links[j].target == l.target {
                proof {
                    lemma_first_index_is(earlier, same_pair, j as int);
                    lemma_links_error_prefix(links@, i + 1);
                }
                return Err(
                    InitError::LinkAddressConflict {
                        id: l.id.clone(),
                        other: links[j].id.clone(),
                        source: l.source,
                        target: l.target,
                    },
                );
            }
        }
        proof {
            lemma_first_index_none(earlier, same_pair);
        }
        for j in 0..i
            invariant
                i < links@.len(),
                *l == links@[i as int],
                earlier == links@.take(i as int),
                links_error(earlier) is None,
                links@.take(i + 1).drop_last() == earlier,
                links@.take(i + 1).last() == *l,
                same_pair == (|e: NetworkLinkSpec| e.source == l.source && e.target == l.target),
                same_id == (|e: NetworkLinkSpec| e.id@ == l.id@),
                first_index(earlier, same_pair) is None,
                forall|k: int| 0 <= k < j ==> !same_id(#[trigger] earlier[k]),
        {
            assert(earlier[j as int] == links@[j as int]);
            if links[j].id == l.id {
                proof {
                    lemma_first_index_is(earlier, same_id, j as int);
                    lemma_links_error_prefix(links@, i + 1);
                }
                return Err(InitError::DuplicateLinkId { id: l.id.clone() });
            }
        }
        proof {
            lemma_first_index_none(earlier, same_id);
        }
    }
    assert(links@.take(links@.len() as int) =~= links@);
    Ok(())
}

fn has_address(node: &NetworkNodeSpec, address: IpAddr) -> (r: bool)
    ensures
        r == node.spec_addresses().contains(address),
{
    let addresses = node.addresses();
    for i in 0..addresses.len()
        invariant
            addresses@ == node.spec_addresses(),
            forall|k: int| 0 <= k < i ==> #[trigger] addresses@[k] != address,
    {
        if addresses[i] == address {
            return true;
        }
    }
    false
}

fn check_addresses(nodes: &Vec<NetworkNodeSpec>, i: usize) -> (r: Result<(), InitError>)
    requires
        i < nodes@.len(),
    ensures
        ({
            let node = nodes@[i as int];
            let error = address_error(nodes@.take(i as int), node, node.spec_addresses().len());
            match r {
                Ok(_) => error is None,
                Err(e) => error == Some(e),
            }
        }),
{
    let node = &nodes[i];
    let ghost earlier = nodes@.take(i as int);
    let addresses = node.addresses();
    for a in 0..addresses.len()
        invariant
            i < nodes@.len(),
            *node == nodes@[i as int],
            earlier == nodes@.take(i as int),
            addresses@ == node.spec_addresses(),
            address_error(earlier, *node, a as nat) is None,
    {
        let address = addresses[a];
        let ghost owns = |n: NetworkNodeSpec| n.spec_addresses().contains(address);
        for j in 0..i
            invariant
                i < nodes@.len(),
                a < addresses@.len(),
                address == addresses@[a as int],
                *node == nodes@[i as int],
                earlier == nodes@.take(i as int),
                addresses@ == node.spec_addresses(),
                address_error(earlier, *node, a as nat) is None,
                owns == (|n: NetworkNodeSpec| n.spec_addresses().contains(address)),
                forall|k: int| 0 <= k < j ==> !owns(#[trigger] earlier[k]),
        {
            assert(earlier[j as int] == nodes@[j as int]);
            if has_address(&nodes[j], address) {
                proof {
                    lemma_first_index_is(earlier, owns, j as int);
                    lemma_address_error_prefix(
                        earlier,
                        *node,
                        (a + 1) as nat,
                        node.spec_addresses().len(),
                    );
                }
                return Err(
                    InitError::NodeAddressConflict {
                        id: node.id.clone(),
                        other: nodes[j].id.clone(),
                        address,
                    },
                );
            }
        }
        proof {
            lemma_first_index_none(earlier, owns);
        }
        for b in 0..a
            invariant
                i < nodes@.len(),
                a < addresses@.len(),
                address == addresses@[a as int],
                *node == nodes@[i as int],
                earlier == nodes@.take(i as int),
                addresses@ == node.spec_addresses(),
                address_error(earlier, *node, a as nat) is None,
                owns == (|n: NetworkNodeSpec| n.spec_addresses().contains(address)),
                first_index(earlier, owns) is None,
                forall|k: int| 0 <= k < b ==> #[trigger] addresses@[k] != address,
        {
            if addresses[b] == address {
                proof {
                    assert(node.spec_addresses().take(a as int)[b as int] == address);
                    lemma_address_error_prefix(
                        earlier,
                        *node,
                        (a + 1) as nat,
                        node.spec_addresses().len(),
                    );
                }
                return Err(
                    InitError::NodeAddressConflict {
                        id: node.id.clone(),
                        other: node.id.clone(),
                        address,
                    },
                );
            }
        }
        assert(!node.spec_addresses().take(a as int).contains(address));
    }
    Ok(())
}

fn check_nodes(nodes: &Vec<NetworkNodeSpec>) -> (r: Result<(), InitError>)
    ensures
        match r {
            Ok(_) => nodes_error(nodes@) is None,
            Err(e) => nodes_error(nodes@) == Some(e),
        },
{
    for i in 0..nodes.len()
        invariant
            nodes_error(nodes@.take(i as int)) is None,
    {
        let node = &nodes[i];
        let ghost earlier = nodes@.take(i as int);
        proof {
            assert(nodes@.take(i + 1).drop_last() =~= earlier);
            assert(nodes@.take(i + 1).last() == *node);
        }
        if node.interfaces.len() == 0 {
            proof {
                lemma_nodes_error_prefix(nodes@, i + 1);
            }
            return Err(
                InitError::Node { error: NodeError::NoInterfaces { id: node.id.clone() } },
            );
        }
        if node.interfaces[0].addresses.len() == 0 {
            proof {
                lemma_nodes_error_prefix(nodes@, i + 1);
            }
            return Err(
                InitError::Node {
                    error: NodeError::InterfaceWithoutAddress { id: node.id.clone() },
                },
            );
        }
        match check_addresses(nodes, i) {
            Ok(_) => {},
            Err(e) => {
                proof {
                    lemma_nodes_error_prefix(nodes@, i + 1);
                }
                return Err(e);
            },
        }
        let ghost same_id = |n: NetworkNodeSpec| n.id@ == node.id@;
        for j in 0..i
            invariant
                i < nodes@.len(),
                *node == nodes@[i as int],
                earlier == nodes@.take(i as int),
                nodes_error(earlier) is None,
                nodes@.take(i + 1).drop_last() == earlier,
                nodes@.take(i + 1).last() == *node,
                node_error(*node) is None,
                address_error(earlier, *node, node.spec_addresses().len()) is None,
                same_id == (|n: NetworkNodeSpec| n.id@ == node.id@),
                forall|k: int| 0 <= k < j ==> !same_id(#[trigger] earlier[k]),
        {
            assert(earlier[j as int] == nodes@[j as int]);
            if nodes[j].id == node.id {
                proof {
                    lemma_first_index_is(earlier, same_id, j as int);
                    lemma_nodes_error_prefix(nodes@, i + 1);
                }
                return Err(InitError::DuplicateNodeId { id: node.id.clone() });
            }
        }
        proof {
            lemma_first_index_none(earlier, same_id);
        }
    }
    assert(nodes@.take(nodes@.len() as int) =~= nodes@);
    Ok(())
}

proof fn lemma_links_distinct(links: Seq<NetworkLinkSpec>)
    requires
        links_error(links) is None,
    ensures
        forall|i: int, j: int|
            0 <= i < j < links.len() ==> (#[trigger] links[i]).id@ != (#[trigger] links[j]).id@
                && (links[i].source != links[j].source || links[i].target != links[j].target),
    decreases links.len(),
{
    if links.len() > 0 {
        let front = links.drop_last();
        let l = links.last();
        lemma_links_distinct(front);
        let same_pair = |e: NetworkLinkSpec| e.source == l.source && e.target == l.target;
        let same_id = |e: NetworkLinkSpec| e.id@ == l.id@;
        lemma_first_index(front, same_pair);
        lemma_first_index(front, same_id);
        assert forall|i: int, j: int| 0 <= i < j < links.len() implies (#[trigger] links[i]).id@
            != (#[trigger] links[j]).id@ && (links[i].source != links[j].source || links[i].target
            != links[j].target) by {
            if j == links.len() - 1 {
                assert(!same_pair(front[i]));
                assert(!same_id(front[i]));
            } else {
                assert(front[i].id@ != front[j].id@);
            }
        }
    }
}

proof fn lemma_address_ok(
    earlier: Seq<NetworkNodeSpec>,
    node: NetworkNodeSpec,
    count: nat,
    a: int,
)
    requires
        address_error(earlier, node, count) is None,
        0 <= a < count <= node.spec_addresses().len(),
    ensures
        forall|i: int|
            0 <= i < earlier.len() ==> !(#[trigger] earlier[i]).spec_addresses().contains(
                node.spec_addresses()[a],
            ),
        !node.spec_addresses().take(a).contains(node.spec_addresses()[a]),
    decreases count,
{
    if a < count - 1 {
        lemma_address_ok(earlier, node, (count - 1) as nat, a);
    } else {
        let address = node.spec_addresses()[a];
        let owns = |n: NetworkNodeSpec| n.spec_addresses().contains(address);
        lemma_first_index(earlier, owns);
        assert forall|i: int| 0 <= i < earlier.len() implies !(
        #[trigger] earlier[i]).spec_addresses().contains(address) by {
            assert(!owns(earlier[i]));
        }
    }
}

proof fn lemma_nodes_distinct(nodes: Seq<NetworkNodeSpec>)
    requires
        nodes_error(nodes) is None,
    ensures
        forall|i: int| 0 <= i < nodes.len() ==> node_error(#[trigger] nodes[i]) is None,
        forall|i: int, j: int|
            0 <= i < j < nodes.len() ==> (#[trigger] nodes[i]).id@ != (#[trigger] nodes[j]).id@,
        forall|i: int, a: int, j: int, b: int|
            0 <= i < nodes.len() && 0 <= a < nodes[i].spec_addresses().len() && 0 <= j
                < nodes.len() && 0 <= b < nodes[j].spec_addresses().len()
                && #[trigger] nodes[i].spec_addresses()[a]
                == #[trigger] nodes[j].spec_addresses()[b] ==> i == j && a == b,
    decreases nodes.len(),
{
    if nodes.len() > 0 {
        let front = nodes.drop_last();
        let node = nodes.last();
        let last = nodes.len() - 1;
        lemma_nodes_distinct(front);
        let same_id = |n: NetworkNodeSpec| n.id@ == node.id@;
        lemma_first_index(front, same_id);
        assert forall|i: int| 0 <= i < nodes.len() implies node_error(
            #[trigger] nodes[i],
        ) is None by {
            if i < last {
                assert(node_error(front[i]) is None);
            }
        }
        assert forall|i: int, j: int| 0 <= i < j < nodes.len() implies (#[trigger] nodes[i]).id@
            != (#[trigger] nodes[j]).id@ by {
            if j == last {
                assert(!same_id(front[i]));
            } else {
                assert(front[i].id@ != front[j].id@);
            }
        }
        assert forall|i: int, a: int, j: int, b: int|
            0 <= i < nodes.len() && 0 <= a < nodes[i].spec_addresses().len() && 0 <= j
                < nodes.len() && 0 <= b < nodes[j].spec_addresses().len()
                && #[trigger] nodes[i].spec_addresses()[a]
                == #[trigger] nodes[j].spec_addresses()[b] implies i == j && a == b by {
            let len = node.spec_addresses().len();
            if i < last && j < last {
                assert(front[i].spec_addresses()[a] == front[j].spec_addresses()[b]);
            } else if i == last && j < last {
                lemma_address_ok(front, node, len, a);
                assert(!front[j].spec_addresses().contains(node.spec_addresses()[a]));
            } else if i < last && j == last {
                lemma_address_ok(front, node, len, b);
                assert(!front[i].spec_addresses().contains(node.spec_addresses()[b]));
            } else {
                lemma_address_ok(front, node, len, a);
                lemma_address_ok(front, node, len, b);
                if a < b {
                    assert(node.spec_addresses().take(b)[a] == node.spec_addresses()[b]);
                } else if b < a {
                    assert(node.spec_addresses().take(a)[b] == node.spec_addresses()[a]);
                }
            }
        }
    }
}

fn copy_routes(routes: &Vec<Route>) -> (r: Vec<Route>)
    ensures
        r@ == routes@,
{
    let mut copy: Vec<Route> = Vec::new();
    for i in 0..routes.len()
        invariant
            copy@ == routes@.take(i as int),
    {
        copy.push(routes[i]);
        assert(copy@ =~= routes@.take(i + 1));
    }
    assert(routes@.take(routes@.len() as int) =~= routes@);
    copy
}

proof fn lemma_sorted_entries_push(
    sorted: Seq<(IpAddr, Seq<Route>)>,
    entries: Seq<(IpAddr, Seq<Route>)>,
    address: IpAddr,
    routes: Seq<Route>,
    sorted_routes: Seq<Route>,
)
    requires
        are_sorted_entries(sorted, entries),
        is_stable_sort(routes, sorted_routes),
    ensures
        are_sorted_entries(sorted.push((address, sorted_routes)), entries.push((address, routes))),
{
    let sorted2 = sorted.push((address, sorted_routes));
    let entries2 = entries.push((address, routes));
    assert forall|k: int| 0 <= k < sorted2.len() implies (#[trigger] sorted2[k]).0 == entries2[k].0
        && is_stable_sort(entries2[k].1, sorted2[k].1) by {
        if k < sorted.len() {
            assert(sorted[k].0 == entries[k].0);
        }
    }
}

fn push_interface_entries(
    entries: &mut Vec<(IpAddr, Vec<Route>)>,
    interface: &NetworkInterface,
    Ghost(before): Ghost<Seq<(IpAddr, Seq<Route>)>>,
)
    requires
        are_sorted_entries(routes_view(old(entries)@), before),
    ensures
        are_sorted_entries(routes_view(final(entries)@), before + interface_entries(*interface)),
{
    let ghost added = interface_entries(*interface);
    assert(before + added.take(0) =~= before);
    for i in 0..interface.addresses.len()
        invariant
            added == interface_entries(*interface),
            are_sorted_entries(routes_view(entries@), before + added.take(i as int)),
    {
        let address = interface.addresses[i].as_ip_addr();
        let routes = stable_sort(copy_routes(&interface.routes));
        proof {
            lemma_sorted_entries_push(
                routes_view(entries@),
                before + added.take(i as int),
                address,
                interface.routes@,
                routes@,
            );
            assert((before + added.take(i as int)).push((address, interface.routes@)) =~= before
                + added.take(i + 1));
        }
        let ghost views = routes_view(entries@);
        let ghost sorted = routes@;
        entries.push((address, routes));
        assert(routes_view(entries@) =~= views.push((address, sorted)));
    }
    assert(added.take(interface.addresses@.len() as int) =~= added);
}

fn address_routes(nodes: &Vec<NetworkNodeSpec>) -> (r: Vec<(IpAddr, Vec<Route>)>)
    ensures
        are_sorted_entries(routes_view(r@), all_entries(nodes@)),
{
    let mut entries: Vec<(IpAddr, Vec<Route>)> = Vec::new();
    let ghost f = |n: NetworkNodeSpec| node_entries(n);
    assert(nodes@.take(0).flat_map(f) =~= Seq::empty());
    for n in 0..nodes.len()
        invariant
            f == (|n: NetworkNodeSpec| node_entries(n)),
            are_sorted_entries(routes_view(entries@), nodes@.take(n as int).flat_map(f)),
    {
        let node = &nodes[n];
        let ghost before = nodes@.take(n as int).flat_map(f);
        let ghost g = |i: NetworkInterface| interface_entries(i);
        assert(node.interfaces@.take(0).flat_map(g) =~= Seq::empty());
        assert(before + node.interfaces@.take(0).flat_map(g) =~= before);
        for i in 0..node.interfaces.len()
            invariant
                g == (|i: NetworkInterface| interface_entries(i)),
                are_sorted_entries(
                    routes_view(entries@),
                    before + node.interfaces@.take(i as int).flat_map(g),
                ),
        {
            let ghost so_far = before + node.interfaces@.take(i as int).flat_map(g);
            push_interface_entries(&mut entries, &node.interfaces[i], Ghost(so_far));
            proof {
                node.interfaces@.lemma_flat_map_take_append(g, i as int);
                assert(so_far + interface_entries(node.interfaces@[i as int]) =~= before
                    + node.interfaces@.take(i + 1).flat_map(g));
            }
        }
        proof {
            assert(node.interfaces@.take(node.interfaces@.len() as int) =~= node.interfaces@);
            nodes@.lemma_flat_map_take_append(f, n as int);
        }
    }
    assert(nodes@.take(nodes@.len() as int) =~= nodes@);
    entries
}

proof fn lemma_node_entries_keys(interfaces: Seq<NetworkInterface>)
    ensures
        interfaces.flat_map(|i: NetworkInterface| interface_entries(i)).map_values(
            |e: (IpAddr, Seq<Route>)| e.0,
        ) == crate::network::spec::interface_addresses(interfaces),
    decreases interfaces.len(),
{
    let g = |i: NetworkInterface| interface_entries(i);
    let h = |i: NetworkInterface| i.spec_addresses();
    let key = |e: (IpAddr, Seq<Route>)| e.0;
    if interfaces.len() == 0 {
        assert(interfaces.flat_map(g) =~= Seq::empty());
        assert(interfaces.flat_map(h) =~= Seq::empty());
        assert(interfaces.flat_map(g).map_values(key) =~= interfaces.flat_map(h));
    } else {
        let last = interfaces.len() - 1;
        let front = interfaces.drop_last();
        lemma_node_entries_keys(front);
        assert(interfaces.take(last) =~= front);
        assert(interfaces.take(last + 1) =~= interfaces);
        interfaces.lemma_flat_map_take_append(g, last);
        interfaces.lemma_flat_map_take_append(h, last);
        assert(interface_entries(interfaces[last]).map_values(key)
            =~= interfaces[last].spec_addresses());
        assert(interfaces.flat_map(g).map_values(key) =~= front.flat_map(g).map_values(key)
            + interface_entries(interfaces[last]).map_values(key));
        assert(interfaces.flat_map(h) =~= front.flat_map(h) + interfaces[last].spec_addresses());
    }
}

proof fn lemma_all_entries_contain(nodes: Seq<NetworkNodeSpec>, n: int, e: (IpAddr, Seq<Route>))
    requires
        0 <= n < nodes.len(),
        node_entries(nodes[n]).contains(e),
    ensures
        all_entries(nodes).contains(e),
    decreases nodes.len(),
{
    let f = |n: NetworkNodeSpec| node_entries(n);
    let last = nodes.len() - 1;
    let front = nodes.drop_last();
    assert(nodes.take(last) =~= front);
    assert(nodes.take(last + 1) =~= nodes);
    nodes.lemma_flat_map_take_append(f, last);
    let before = all_entries(front);
    if n < last {
        lemma_all_entries_contain(front, n, e);
        let k = choose|k: int| 0 <= k < before.len() && before[k] == e;
        assert(all_entries(nodes)[k] == e);
    } else {
        let added = node_entries(nodes[last]);
        let k = choose|k: int| 0 <= k < added.len() && added[k] == e;
        assert(all_entries(nodes)[before.len() + k] == e);
    }
}

/// Every address of every node has an entry.
proof fn lemma_entries_complete(
    sorted: Seq<(IpAddr, Seq<Route>)>,
    nodes: Seq<NetworkNodeSpec>,
    n: int,
    a: int,
)
    requires
        are_sorted_entries(sorted, all_entries(nodes)),
        0 <= n < nodes.len(),
        0 <= a < nodes[n].spec_addresses().len(),
    ensures
        has_routes(sorted, nodes[n].spec_addresses()[a]),
{
    let key = |e: (IpAddr, Seq<Route>)| e.0;
    lemma_node_entries_keys(nodes[n].interfaces@);
    let entries = node_entries(nodes[n]);
    assert(entries.map_values(key) == nodes[n].spec_addresses());
    assert(entries.map_values(key)[a] == entries[a].0);
    lemma_all_entries_contain(nodes, n, entries[a]);
    let all = all_entries(nodes);
    let k = choose|k: int| 0 <= k < all.len() && all[k] == entries[a];
    assert(sorted[k].0 == all[k].0);
}

/// A network before its first event is well-formed.
proof fn lemma_initial_wf(
    network: NetworkView,
    spec: NetworkSpec,
    tracer: TracerView,
    rng_state: u64,
    now: Nanos,
)
    requires
        is_initial(network, spec, tracer, rng_state, now),
        links_error(spec.links@) is None,
        nodes_error(spec.nodes@) is None,
        forall|n: int| 0 <= n < network.nodes.len() ==> (#[trigger] network.nodes[n]).wf(),
        forall|l: int| 0 <= l < network.links.len() ==> (#[trigger] network.links[l]).wf(),
    ensures
        network.wf(),
{
    lemma_links_distinct(spec.links@);
    lemma_nodes_distinct(spec.nodes@);
    assert(forall|n: int|
        0 <= n < network.nodes.len() ==> is_new_node(
            #[trigger] network.nodes[n],
            spec.nodes@[n],
            link_ends(spec.links@),
        ));
    assert(node_ids_distinct(network.nodes)) by {
        assert forall|i: int, j: int| 0 <= i < j < network.nodes.len() implies (
        #[trigger] network.nodes[i]).id@ != (#[trigger] network.nodes[j]).id@ by {
            assert(spec.nodes@[i].id@ != spec.nodes@[j].id@);
        }
    }
    assert(addresses_distinct(network.nodes)) by {
        assert forall|i: int, a: int, j: int, b: int|
            0 <= i < network.nodes.len() && 0 <= a < network.nodes[i].addresses.len() && 0 <= j
                < network.nodes.len() && 0 <= b < network.nodes[j].addresses.len()
                && #[trigger] network.nodes[i].addresses[a]
                == #[trigger] network.nodes[j].addresses[b] implies i == j && a == b by {
            assert(spec.nodes@[i].spec_addresses()[a] == spec.nodes@[j].spec_addresses()[b]);
        }
    }
    assert(link_ids_distinct(network.links)) by {
        assert forall|i: int, j: int| 0 <= i < j < network.links.len() implies (
        #[trigger] network.links[i]).id@ != (#[trigger] network.links[j]).id@ by {
            assert(spec.links@[i].id@ != spec.links@[j].id@);
        }
    }
    assert(link_pairs_distinct(network.links)) by {
        assert forall|i: int, j: int| 0 <= i < j < network.links.len() implies (
        #[trigger] network.links[i]).source != (#[trigger] network.links[j]).source
            || network.links[i].target != network.links[j].target by {
            assert(spec.links@[i].id@ != spec.links@[j].id@);
        }
    }
    assert forall|n: int, a: int|
        0 <= n < network.nodes.len() && 0 <= a < network.nodes[n].addresses.len() implies has_routes(
        network.routes_by_addr,
        #[trigger] network.nodes[n].addresses[a],
    ) by {
        lemma_entries_complete(network.routes_by_addr, spec.nodes@, n, a);
    }
    assert(routes_sorted(network.routes_by_addr));
    assert forall|n: int| 0 <= n < network.nodes.len() implies (
    #[trigger] network.nodes[n]).outbound_buffer.used == reserved(network.tickets, n) by {}
}

impl InMemoryNetwork {
    /// Sets up a network at `now`, and lets the events take effect that set the initial statuses.
    pub fn initialize(
        network_spec: &NetworkSpec,
        events: &NetworkEvents,
        tracer: SimulationStepTracer,
        rng_state: u64,
        start: Nanos,
        now: Nanos,
        disable_time_warping: bool,
    ) -> (r: Result<Self, InitError>)
        requires
            now <= SPAN_MAX,
            forall|n: int|
                0 <= n < network_spec.nodes@.len() ==> (#[trigger] network_spec.nodes@[n]).wf(),
            forall|l: int|
                0 <= l < network_spec.links@.len() ==> (#[trigger] network_spec.links@[l]).delay
                    <= SPAN_MAX && network_spec.links@[l].extra_delay <= SPAN_MAX,
        ensures
            match r {
                Ok(network) => {
                    &&& init_error(
                        *network_spec,
                        tracer@,
                        start,
                        now,
                        disable_time_warping,
                    ) is None
                    &&& network.wf()
                    &&& is_initialized(
                        network@,
                        *network_spec,
                        *events,
                        tracer@,
                        rng_state,
                        now,
                    )
                },
                Err(e) => init_error(
                    *network_spec,
                    tracer@,
                    start,
                    now,
                    disable_time_warping,
                ) == Some(e),
            },
    {
        if !disable_time_warping {
            // Time warping is enabled, so no time may have passed
            if !tracer.is_fresh(now) {
                return Err(InitError::OldTracer);
            }
            if elapsed(start, now) != 0 {
                return Err(InitError::OldStart);
            }
        }
        match check_links(&network_spec.links) {
            Ok(_) => {},
            Err(e) => {
                return Err(e);
            },
        }
        if network_spec.nodes.len() < 2 {
            return Err(InitError::TooFewNodes { found: network_spec.nodes.len() });
        }
        match check_nodes(&network_spec.nodes) {
            Ok(_) => {},
            Err(e) => {
                return Err(e);
            },
        }
        proof {
            lemma_nodes_distinct(network_spec.nodes@);
        }

        let mut links: Vec<NetworkLink> = Vec::new();
        let mut links_addr_map: Vec<(IpAddr, IpAddr)> = Vec::new();
        let ghost link_of = |l: NetworkLinkSpec| NetworkLink::of_spec(l, now);
        for i in 0..network_spec.links.len()
            invariant
                now <= SPAN_MAX,
                forall|l: int|
                    0 <= l < network_spec.links@.len() ==> (#[trigger] network_spec.links@[l]).delay
                        <= SPAN_MAX && network_spec.links@[l].extra_delay <= SPAN_MAX,
                link_of == (|l: NetworkLinkSpec| NetworkLink::of_spec(l, now)),
                link_views(links@) == network_spec.links@.take(i as int).map_values(link_of),
                links_addr_map@ == link_ends(network_spec.links@.take(i as int)),
                forall|k: int| 0 <= k < links@.len() ==> (#[trigger] links@[k]).wf(),
        {
            let l = &network_spec.links[i];
            let ghost views = link_views(links@);
            let link = NetworkLink::new(l, now);
            let ghost view = link@;
            links.push(link);
            links_addr_map.push((l.source, l.target));
            proof {
                assert(link_views(links@) =~= views.push(view));
                assert(network_spec.links@.take(i + 1).map_values(link_of)
                    =~= network_spec.links@.take(i as int).map_values(link_of).push(view));
                assert(link_ends(network_spec.links@.take(i + 1)) =~= link_ends(
                    network_spec.links@.take(i as int),
                ).push((l.source, l.target)));
            }
        }
        assert(network_spec.links@.take(network_spec.links@.len() as int) =~= network_spec.links@);

        let mut nodes: Vec<Node> = Vec::new();
        for i in 0..network_spec.nodes.len()
            invariant
                forall|n: int|
                    0 <= n < network_spec.nodes@.len() ==> (#[trigger] network_spec.nodes@[n]).wf(),
                forall|n: int|
                    0 <= n < network_spec.nodes@.len() ==> node_error(
                        #[trigger] network_spec.nodes@[n],
                    ) is None,
                links_addr_map@ == link_ends(network_spec.links@),
                nodes@.len() == i,
                forall|n: int|
                    0 <= n < nodes@.len() ==> (#[trigger] nodes@[n]).wf() && is_new_node(
                        nodes@[n]@,
                        network_spec.nodes@[n],
                        link_ends(network_spec.links@),
                    ),
        {
            match Node::new(&network_spec.nodes[i], &links_addr_map) {
                Ok(node) => {
                    nodes.push(node);
                },
                Err(error) => {
                    return Err(InitError::Node { error });
                },
            }
        }

        let routes_by_addr = address_routes(&network_spec.nodes);
        let ghost tracer_view = tracer@;
        let mut network = InMemoryNetwork {
            nodes,
            links,
            routes_by_addr,
            tracer,
            rng_state,
            next_transmit_number: 0,
            tickets: Vec::new(),
            messages: Vec::new(),
        };
        let ghost initial = network@;
        proof {
            assert(initial.messages =~= Seq::<Seq<char>>::empty());
            assert forall|n: int| 0 <= n < initial.nodes.len() implies is_new_node(
                #[trigger] initial.nodes[n],
                network_spec.nodes@[n],
                link_ends(network_spec.links@),
            ) && initial.nodes[n].wf() by {
                assert(initial.nodes[n] == network.nodes@[n]@);
                assert(network.nodes@[n].wf());
            }
            assert forall|l: int| 0 <= l < initial.links.len() implies (
            #[trigger] initial.links[l]).wf() by {
                assert(initial.links[l] == network.links@[l]@);
                assert(network.links@[l].wf());
            }
            assert(is_initial(initial, *network_spec, tracer_view, rng_state, now));
            lemma_initial_wf(initial, *network_spec, tracer_view, rng_state, now);
        }

        for i in 0..events.initial_link_events.len()
            invariant
                network.wf(),
                network@ == initial.link_events_processed(
                    events.initial_link_events@.take(i as int),
                    now,
                ),
        {
            proof {
                assert(events.initial_link_events@.take(i + 1).drop_last()
                    =~= events.initial_link_events@.take(i as int));
            }
            let _came_up = network.process_link_event(events.initial_link_events[i].clone(), now);
        }
        let ghost linked = network@;
        assert(events.initial_link_events@.take(events.initial_link_events@.len() as int)
            =~= events.initial_link_events@);
        for i in 0..events.initial_node_events.len()
            invariant
                network.wf(),
                network@ == linked.node_events_processed(
                    events.initial_node_events@.take(i as int),
                    now,
                ),
        {
            proof {
                assert(events.initial_node_events@.take(i + 1).drop_last()
                    =~= events.initial_node_events@.take(i as int));
            }
            let _came_up = network.process_node_event(events.initial_node_events[i].clone(), now);
        }
        assert(events.initial_node_events@.take(events.initial_node_events@.len() as int)
            =~= events.initial_node_events@);
        Ok(network)
    }
}

} // verus!
