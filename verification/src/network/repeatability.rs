//! Setting up a network twice gives the same network.

use crate::network::event::{LinkEventPayload, NetworkEvents, NodeEventPayload};
use crate::network::ip::{IpAddr, Ipv4Cidr};
use crate::network::link::LinkView;
use crate::network::node::{
    are_connected_routes, are_node_routes, are_node_routes_split_at, cidrs, configured_routes,
    connections, is_connected_route, is_new_node, NodeView,
};
use crate::network::route::Route;
use crate::network::setup::{
    all_entries, are_sorted_entries, is_initial, is_initialized, link_ends,
};
use crate::network::spec::{NetworkNodeSpec, NetworkSpec};
use crate::network::{link_with_id, node_with_id, NetworkView};
use crate::search::lemma_first_index;
use crate::sorting::law_stable_sort_is_unique;
use crate::time::Nanos;
use crate::tracing::tracer::TracerView;
use vstd::prelude::*;

verus! {

proof fn lemma_connected_routes_unique(
    a: Seq<(IpAddr, Route)>,
    b: Seq<(IpAddr, Route)>,
    connections: Seq<(Ipv4Cidr, IpAddr)>,
)
    requires
        are_connected_routes(a, connections),
        are_connected_routes(b, connections),
    ensures
        a == b,
{
    assert forall|i: int| 0 <= i < a.len() implies a[i] == b[i] by {
        assert(is_connected_route(a[i], connections[i]));
        assert(is_connected_route(b[i], connections[i]));
    }
    assert(a =~= b);
}

/// A node's settings and the links determine its routes.
proof fn lemma_node_routes_unique(
    a: Seq<(IpAddr, Route)>,
    b: Seq<(IpAddr, Route)>,
    node: NetworkNodeSpec,
    links_addr_map: Seq<(IpAddr, IpAddr)>,
)
    requires
        are_node_routes(a, node, links_addr_map),
        are_node_routes(b, node, links_addr_map),
    ensures
        a == b,
{
    let n = choose|n: int| #[trigger] are_node_routes_split_at(a, node, links_addr_map, n);
    let m = choose|m: int| #[trigger] are_node_routes_split_at(b, node, links_addr_map, m);
    lemma_connected_routes_unique(
        a.take(n),
        b.take(m),
        connections(links_addr_map, cidrs(node.interfaces@)),
    );
    law_stable_sort_is_unique(configured_routes(node.interfaces@), a.skip(n), b.skip(m));
    assert(a =~= a.take(n) + a.skip(n));
    assert(b =~= b.take(m) + b.skip(m));
}

proof fn lemma_sorted_entries_unique(
    a: Seq<(IpAddr, Seq<Route>)>,
    b: Seq<(IpAddr, Seq<Route>)>,
    entries: Seq<(IpAddr, Seq<Route>)>,
)
    requires
        are_sorted_entries(a, entries),
        are_sorted_entries(b, entries),
    ensures
        a == b,
{
    assert forall|k: int| 0 <= k < a.len() implies a[k] == b[k] by {
        assert(a[k].0 == entries[k].0 && b[k].0 == entries[k].0);
        law_stable_sort_is_unique(entries[k].1, a[k].1, b[k].1);
    }
    assert(a =~= b);
}

/// Two networks that were set up at the same time, with the same settings, events and seed, are the
/// same.
pub proof fn law_same_settings_give_the_same_network(
    a: NetworkView,
    b: NetworkView,
    spec: NetworkSpec,
    events: NetworkEvents,
    tracer: TracerView,
    rng_state: u64,
    now: Nanos,
)
    requires
        is_initialized(a, spec, events, tracer, rng_state, now),
        is_initialized(b, spec, events, tracer, rng_state, now),
    ensures
        a == b,
{
    let links = events.initial_link_events@;
    let nodes = events.initial_node_events@;
    let x = choose|x: NetworkView| #[trigger]
        is_initial(x, spec, tracer, rng_state, now) && a == x.link_events_processed(
            links,
            now,
        ).node_events_processed(nodes, now);
    let y = choose|y: NetworkView| #[trigger]
        is_initial(y, spec, tracer, rng_state, now) && b == y.link_events_processed(
            links,
            now,
        ).node_events_processed(nodes, now);
    assert forall|n: int| 0 <= n < x.nodes.len() implies x.nodes[n] == y.nodes[n] by {
        assert(is_new_node(x.nodes[n], spec.nodes@[n], link_ends(spec.links@)));
        assert(is_new_node(y.nodes[n], spec.nodes@[n], link_ends(spec.links@)));
        lemma_node_routes_unique(
            x.nodes[n].routes,
            y.nodes[n].routes,
            spec.nodes@[n],
            link_ends(spec.links@),
        );
    }
    assert(x.nodes =~= y.nodes);
    lemma_sorted_entries_unique(x.routes_by_addr, y.routes_by_addr, all_entries(spec.nodes@));
    assert(x == y);
}

/// The links and the nodes have the same ids.
spec fn same_ids(before: NetworkView, after: NetworkView) -> bool {
    &&& after.nodes.len() == before.nodes.len()
    &&& forall|n: int|
        0 <= n < before.nodes.len() ==> (#[trigger] after.nodes[n]).id == before.nodes[n].id
    &&& after.links.len() == before.links.len()
    &&& forall|l: int|
        0 <= l < before.links.len() ==> (#[trigger] after.links[l]).id == before.links[l].id
}

proof fn lemma_link_events_keep_ids(
    network: NetworkView,
    events: Seq<LinkEventPayload>,
    now: Nanos,
)
    ensures
        same_ids(network, network.link_events_processed(events, now)),
    decreases events.len(),
{
    if events.len() > 0 {
        lemma_link_events_keep_ids(network, events.drop_last(), now);
        let before = network.link_events_processed(events.drop_last(), now);
        lemma_first_index(before.links, |l: LinkView| l.id@ == events.last().link_id@);
    }
}

proof fn lemma_node_events_keep_ids(
    network: NetworkView,
    events: Seq<NodeEventPayload>,
    now: Nanos,
)
    ensures
        same_ids(network, network.node_events_processed(events, now)),
    decreases events.len(),
{
    if events.len() > 0 {
        lemma_node_events_keep_ids(network, events.drop_last(), now);
        let before = network.node_events_processed(events.drop_last(), now);
        lemma_first_index(before.nodes, |n: NodeView| n.id@ == events.last().node_id@);
    }
}

proof fn lemma_node_is_known(nodes: Seq<NodeView>, n: int)
    requires
        0 <= n < nodes.len(),
    ensures
        node_with_id(nodes, nodes[n].id@) is Some,
{
    lemma_first_index(nodes, |v: NodeView| v.id@ == nodes[n].id@);
}

proof fn lemma_link_is_known(links: Seq<LinkView>, l: int)
    requires
        0 <= l < links.len(),
    ensures
        link_with_id(links, links[l].id@) is Some,
{
    lemma_first_index(links, |v: LinkView| v.id@ == links[l].id@);
}

/// A network knows the nodes and the links that it was set up with, by their ids.
pub proof fn law_configured_nodes_and_links_are_known(
    network: NetworkView,
    spec: NetworkSpec,
    events: NetworkEvents,
    tracer: TracerView,
    rng_state: u64,
    now: Nanos,
)
    requires
        is_initialized(network, spec, events, tracer, rng_state, now),
    ensures
        forall|n: int|
            0 <= n < spec.nodes@.len() ==> node_with_id(
                network.nodes,
                (#[trigger] spec.nodes@[n]).id@,
            ) is Some,
        forall|l: int|
            0 <= l < spec.links@.len() ==> link_with_id(
                network.links,
                (#[trigger] spec.links@[l]).id@,
            ) is Some,
{
    let link_events = events.initial_link_events@;
    let node_events = events.initial_node_events@;
    let initial = choose|initial: NetworkView| #[trigger]
        is_initial(initial, spec, tracer, rng_state, now) && network
            == initial.link_events_processed(link_events, now).node_events_processed(
            node_events,
            now,
        );
    let linked = initial.link_events_processed(link_events, now);
    lemma_link_events_keep_ids(initial, link_events, now);
    lemma_node_events_keep_ids(linked, node_events, now);
    assert forall|n: int| 0 <= n < spec.nodes@.len() implies node_with_id(
        network.nodes,
        (#[trigger] spec.nodes@[n]).id@,
    ) is Some by {
        assert(is_new_node(initial.nodes[n], spec.nodes@[n], link_ends(spec.links@)));
        assert(linked.nodes[n].id == initial.nodes[n].id);
        assert(network.nodes[n].id == linked.nodes[n].id);
        lemma_node_is_known(network.nodes, n);
    }
    assert forall|l: int| 0 <= l < spec.links@.len() implies link_with_id(
        network.links,
        (#[trigger] spec.links@[l]).id@,
    ) is Some by {
        assert(initial.links[l].id == spec.links@[l].id);
        assert(linked.links[l].id == initial.links[l].id);
        assert(network.links[l].id == linked.links[l].id);
        lemma_link_is_known(network.links, l);
    }
}

} // verus!
