//! What a network is like when it is set up, and which networks can be.

use crate::network::event::{LinkEventPayload, NetworkEvents, NodeEventPayload};
use crate::network::ip::IpAddr;
use crate::network::link::{LinkView, NetworkLink};
use crate::network::node::{are_node_routes, is_new_node, node_error, NodeError, NodeView};
use crate::network::route::Route;
use crate::network::routing::is_route_of;
use crate::network::setup::{
    address_error, all_entries, init_error, interface_entries, is_initial, is_initialized,
    link_ends, links_error, node_entries, nodes_error, InitError,
};
use crate::network::spec::{
    interface_addresses, NetworkInterface, NetworkLinkSpec, NetworkNodeSpec, NetworkSpec,
};
use crate::network::statuses::{distinct_link_ids, distinct_node_ids};
use crate::network::NetworkView;
use crate::search::{lemma_first_index, lemma_first_index_none};
use crate::sorting::lemma_same_elements;
use crate::text::decimal;
use crate::time::Nanos;
use crate::tracing::tracer::TracerView;
use vstd::prelude::*;

verus! {

proof fn lemma_link_events_keep_links(
    network: NetworkView,
    events: Seq<LinkEventPayload>,
    now: Nanos,
    link: int,
)
    requires
        0 <= link < network.links.len(),
    ensures
        ({
            let after = network.link_events_processed(events, now);
            &&& after.links.len() == network.links.len()
            &&& after.links[link] == LinkView {
                status: after.links[link].status,
                last_down: after.links[link].last_down,
                ..network.links[link]
            }
            &&& after.nodes == network.nodes
            &&& after.routes_by_addr == network.routes_by_addr
            &&& after.rng_state == network.rng_state
            &&& after.next_transmit_number == network.next_transmit_number
        }),
    decreases events.len(),
{
    if events.len() > 0 {
        lemma_link_events_keep_links(network, events.drop_last(), now, link);
        let before = network.link_events_processed(events.drop_last(), now);
        lemma_first_index(before.links, |l: LinkView| l.id@ == events.last().link_id@);
    }
}

proof fn lemma_node_events_keep_nodes(
    network: NetworkView,
    events: Seq<NodeEventPayload>,
    now: Nanos,
    node: int,
)
    requires
        0 <= node < network.nodes.len(),
    ensures
        ({
            let after = network.node_events_processed(events, now);
            &&& after.nodes.len() == network.nodes.len()
            &&& after.nodes[node] == NodeView {
                status: after.nodes[node].status,
                last_buffer_clear: after.nodes[node].last_buffer_clear,
                ..network.nodes[node]
            }
            &&& after.links == network.links
            &&& after.routes_by_addr == network.routes_by_addr
            &&& after.rng_state == network.rng_state
            &&& after.next_transmit_number == network.next_transmit_number
        }),
    decreases events.len(),
{
    if events.len() > 0 {
        lemma_node_events_keep_nodes(network, events.drop_last(), now, node);
        let before = network.node_events_processed(events.drop_last(), now);
        lemma_first_index(before.nodes, |n: NodeView| n.id@ == events.last().node_id@);
    }
}

proof fn lemma_node_events_keep_links(
    network: NetworkView,
    events: Seq<NodeEventPayload>,
    now: Nanos,
)
    ensures
        network.node_events_processed(events, now).links == network.links,
        network.node_events_processed(events, now).routes_by_addr == network.routes_by_addr,
        network.node_events_processed(events, now).rng_state == network.rng_state,
        network.node_events_processed(events, now).tickets == network.tickets,
        network.node_events_processed(events, now).next_transmit_number
            == network.next_transmit_number,
    decreases events.len(),
{
    if events.len() > 0 {
        lemma_node_events_keep_links(network, events.drop_last(), now);
    }
}

proof fn lemma_link_events_keep_nodes(
    network: NetworkView,
    events: Seq<LinkEventPayload>,
    now: Nanos,
)
    ensures
        network.link_events_processed(events, now).nodes == network.nodes,
        network.link_events_processed(events, now).routes_by_addr == network.routes_by_addr,
        network.link_events_processed(events, now).rng_state == network.rng_state,
        network.link_events_processed(events, now).tickets == network.tickets,
        network.link_events_processed(events, now).next_transmit_number
            == network.next_transmit_number,
    decreases events.len(),
{
    if events.len() > 0 {
        lemma_link_events_keep_nodes(network, events.drop_last(), now);
    }
}

/// The links of a network that was set up are the configured ones, in their order: they connect the
/// configured addresses, with the configured delays, bandwidth and ratios. They hold no packets.
pub proof fn law_links_are_set_up_as_configured(
    network: NetworkView,
    spec: NetworkSpec,
    events: NetworkEvents,
    tracer: TracerView,
    rng_state: u64,
    now: Nanos,
    link: int,
)
    requires
        is_initialized(network, spec, events, tracer, rng_state, now),
        0 <= link < spec.links@.len(),
        spec.links@[link].bandwidth_bps <= usize::MAX,
    ensures
        network.links.len() == spec.links@.len(),
        link_ends(spec.links@).len() == spec.links@.len(),
        link_ends(spec.links@)[link] == (network.links[link].source, network.links[link].target),
        ({
            let l = network.links[link];
            let configured = spec.links@[link];
            &&& l.id == configured.id
            &&& l.source == configured.source
            &&& l.target == configured.target
            &&& l.delay == configured.delay
            &&& l.bandwidth_bps == configured.bandwidth_bps
            &&& l.pacer.bandwidth_bps == configured.bandwidth_bps
            &&& l.congestion_event_ratio == configured.congestion_event_ratio
            &&& l.extra_delay == configured.extra_delay
            &&& l.extra_delay_ratio == configured.extra_delay_ratio
            &&& l.in_transit.len() == 0
            &&& l.outgoing.len() == 0
            &&& l.current is None
            &&& !l.waiting
            &&& l.pacer.batch.created == now
            &&& l.pacer.batch.delay == 0
        }),
{
    let initial = choose|initial: NetworkView| #[trigger]
        is_initial(initial, spec, tracer, rng_state, now) && network
            == initial.link_events_processed(
            events.initial_link_events@,
            now,
        ).node_events_processed(events.initial_node_events@, now);
    assert(initial.links[link] == NetworkLink::of_spec(spec.links@[link], now));
    lemma_link_events_keep_links(initial, events.initial_link_events@, now, link);
    lemma_node_events_keep_links(
        initial.link_events_processed(events.initial_link_events@, now),
        events.initial_node_events@,
        now,
    );
}

/// A network that was set up draws its first values from the given seed, numbers its packets from
/// zero, and has handed out no reservations.
pub proof fn law_networks_start_from_the_seed(
    network: NetworkView,
    spec: NetworkSpec,
    events: NetworkEvents,
    tracer: TracerView,
    seed: u64,
    now: Nanos,
)
    requires
        is_initialized(network, spec, events, tracer, seed, now),
    ensures
        network.rng_state == seed,
        network.next_transmit_number == 0,
        network.tickets.len() == 0,
{
    let initial = choose|initial: NetworkView| #[trigger]
        is_initial(initial, spec, tracer, seed, now) && network == initial.link_events_processed(
            events.initial_link_events@,
            now,
        ).node_events_processed(events.initial_node_events@, now);
    lemma_link_events_keep_nodes(initial, events.initial_link_events@, now);
    lemma_node_events_keep_links(
        initial.link_events_processed(events.initial_link_events@, now),
        events.initial_node_events@,
        now,
    );
}

/// One of the interfaces has the address.
pub open spec fn has_address(node: NetworkNodeSpec, address: IpAddr) -> bool {
    exists|i: int, a: int|
        0 <= i < node.interfaces@.len() && 0 <= a < node.interfaces@[i].addresses@.len()
            && IpAddr::V4((#[trigger] node.interfaces@[i].addresses@[a]).address) == address
}

proof fn lemma_addresses(interfaces: Seq<NetworkInterface>, address: IpAddr)
    ensures
        interface_addresses(interfaces).contains(address) <==> exists|i: int, a: int|
            0 <= i < interfaces.len() && 0 <= a < interfaces[i].addresses@.len() && IpAddr::V4(
                (#[trigger] interfaces[i].addresses@[a]).address,
            ) == address,
    decreases interfaces.len(),
{
    let f = |i: NetworkInterface| i.spec_addresses();
    let all = interface_addresses(interfaces);
    if interfaces.len() == 0 {
        assert(all =~= Seq::empty());
    } else {
        let last = interfaces.len() - 1;
        let front = interfaces.drop_last();
        lemma_addresses(front, address);
        assert(interfaces.take(last) =~= front);
        assert(interfaces.take(last + 1) =~= interfaces);
        interfaces.lemma_flat_map_take_append(f, last);
        let before = interface_addresses(front);
        let added = interfaces[last].spec_addresses();
        assert(all == before + added);
        if all.contains(address) {
            let k = choose|k: int| 0 <= k < all.len() && all[k] == address;
            if k < before.len() {
                assert(before[k] == address);
                let (i, a) = choose|i: int, a: int|
                    0 <= i < front.len() && 0 <= a < front[i].addresses@.len() && IpAddr::V4(
                        (#[trigger] front[i].addresses@[a]).address,
                    ) == address;
                assert(IpAddr::V4(interfaces[i].addresses@[a].address) == address);
            } else {
                let a = k - before.len();
                assert(added[a] == address);
                assert(IpAddr::V4(interfaces[last].addresses@[a].address) == address);
            }
        }
        if exists|i: int, a: int|
            0 <= i < interfaces.len() && 0 <= a < interfaces[i].addresses@.len() && IpAddr::V4(
                (#[trigger] interfaces[i].addresses@[a]).address,
            ) == address {
            let (i, a) = choose|i: int, a: int|
                0 <= i < interfaces.len() && 0 <= a < interfaces[i].addresses@.len() && IpAddr::V4(
                    (#[trigger] interfaces[i].addresses@[a]).address,
                ) == address;
            if i < last {
                assert(IpAddr::V4(front[i].addresses@[a].address) == address);
                let k = choose|k: int| 0 <= k < before.len() && before[k] == address;
                assert(all[k] == address);
            } else {
                assert(added[a] == address);
                assert(all[before.len() + a] == address);
            }
        }
    }
}

/// The nodes of a network that was set up are the configured ones, in their order: they have the
/// addresses of their interfaces, the first of which is the one that they send from, the configured
/// buffer, which is empty, and the configured ratios.
pub proof fn law_nodes_are_set_up_as_configured(
    network: NetworkView,
    spec: NetworkSpec,
    events: NetworkEvents,
    tracer: TracerView,
    rng_state: u64,
    now: Nanos,
    node: int,
    address: IpAddr,
)
    requires
        is_initialized(network, spec, events, tracer, rng_state, now),
        0 <= node < spec.nodes@.len(),
    ensures
        network.nodes.len() == spec.nodes@.len(),
        ({
            let n = network.nodes[node];
            let configured = spec.nodes@[node];
            &&& n.id == configured.id
            &&& n.canonical_address == IpAddr::V4(
                configured.interfaces@[0].addresses@[0].address,
            )
            &&& n.addresses.contains(address) <==> has_address(configured, address)
            &&& n.injected_failures.packet_loss_ratio == configured.packet_loss_ratio
            &&& n.injected_failures.packet_duplication_ratio == configured.packet_duplication_ratio
            &&& n.injected_failures.packet_loss_or_duplication_ratio
                == configured.packet_loss_or_duplication_ratio
            &&& n.outbound_buffer.capacity == configured.buffer_size_bytes
            &&& n.outbound_buffer.used == 0
            &&& n.outbound.len() == 0
            &&& n.udp_endpoints.len() == 0
            &&& n.keylog.len() == 0
            &&& are_node_routes(n.routes, configured, link_ends(spec.links@))
        }),
{
    let initial = choose|initial: NetworkView| #[trigger]
        is_initial(initial, spec, tracer, rng_state, now) && network
            == initial.link_events_processed(
            events.initial_link_events@,
            now,
        ).node_events_processed(events.initial_node_events@, now);
    assert(is_new_node(initial.nodes[node], spec.nodes@[node], link_ends(spec.links@)));
    lemma_link_events_keep_nodes(initial, events.initial_link_events@, now);
    lemma_node_events_keep_nodes(
        initial.link_events_processed(events.initial_link_events@, now),
        events.initial_node_events@,
        now,
        node,
    );
    lemma_addresses(spec.nodes@[node].interfaces@, address);
}

/// The address belongs to the interface, which has the routes.
pub open spec fn is_interface_entry(
    nodes: Seq<NetworkNodeSpec>,
    n: int,
    i: int,
    a: int,
    entry: (IpAddr, Seq<Route>),
) -> bool {
    &&& 0 <= n < nodes.len()
    &&& 0 <= i < nodes[n].interfaces@.len()
    &&& 0 <= a < nodes[n].interfaces@[i].addresses@.len()
    &&& entry.0 == IpAddr::V4(nodes[n].interfaces@[i].addresses@[a].address)
    &&& entry.1 == nodes[n].interfaces@[i].routes@
}

proof fn lemma_node_entry(interfaces: Seq<NetworkInterface>, i: int, a: int)
    requires
        0 <= i < interfaces.len(),
        0 <= a < interfaces[i].addresses@.len(),
    ensures
        interfaces.flat_map(|i: NetworkInterface| interface_entries(i)).contains(
            (IpAddr::V4(interfaces[i].addresses@[a].address), interfaces[i].routes@),
        ),
    decreases interfaces.len(),
{
    let f = |i: NetworkInterface| interface_entries(i);
    let e = (IpAddr::V4(interfaces[i].addresses@[a].address), interfaces[i].routes@);
    let last = interfaces.len() - 1;
    let front = interfaces.drop_last();
    assert(interfaces.take(last) =~= front);
    assert(interfaces.take(last + 1) =~= interfaces);
    interfaces.lemma_flat_map_take_append(f, last);
    let all = interfaces.flat_map(f);
    let before = front.flat_map(f);
    let added = interface_entries(interfaces[last]);
    if i < last {
        lemma_node_entry(front, i, a);
        let k = choose|k: int| 0 <= k < before.len() && before[k] == e;
        assert(all[k] == e);
    } else {
        assert(added[a] == e);
        assert(all[before.len() + a] == e);
    }
}

proof fn lemma_node_entry_comes_from(interfaces: Seq<NetworkInterface>, e: (IpAddr, Seq<Route>)) -> (r:
    (int, int))
    requires
        interfaces.flat_map(|i: NetworkInterface| interface_entries(i)).contains(e),
    ensures
        0 <= r.0 < interfaces.len(),
        0 <= r.1 < interfaces[r.0].addresses@.len(),
        e == (IpAddr::V4(interfaces[r.0].addresses@[r.1].address), interfaces[r.0].routes@),
    decreases interfaces.len(),
{
    let f = |i: NetworkInterface| interface_entries(i);
    let all = interfaces.flat_map(f);
    let k = choose|k: int| 0 <= k < all.len() && all[k] == e;
    if interfaces.len() == 0 {
        assert(all =~= Seq::empty());
        (0, 0)
    } else {
        let last = interfaces.len() - 1;
        let front = interfaces.drop_last();
        assert(interfaces.take(last) =~= front);
        assert(interfaces.take(last + 1) =~= interfaces);
        interfaces.lemma_flat_map_take_append(f, last);
        let before = front.flat_map(f);
        let added = interface_entries(interfaces[last]);
        if k < before.len() {
            assert(before[k] == e);
            lemma_node_entry_comes_from(front, e)
        } else {
            assert(added[k - before.len()] == e);
            (last, k - before.len())
        }
    }
}

proof fn lemma_entry(nodes: Seq<NetworkNodeSpec>, n: int, e: (IpAddr, Seq<Route>))
    requires
        0 <= n < nodes.len(),
        node_entries(nodes[n]).contains(e),
    ensures
        all_entries(nodes).contains(e),
    decreases nodes.len(),
{
    let f = |n: NetworkNodeSpec| node_entries(n);
    let last = nodes.len() - 1;
    let front = nodes.drop_last();
    assert(nodes.take(last) =~= front);
    assert(nodes.take(last + 1) =~= nodes);
    nodes.lemma_flat_map_take_append(f, last);
    let before = all_entries(front);
    if n < last {
        lemma_entry(front, n, e);
        let k = choose|k: int| 0 <= k < before.len() && before[k] == e;
        assert(all_entries(nodes)[k] == e);
    } else {
        let added = node_entries(nodes[last]);
        let k = choose|k: int| 0 <= k < added.len() && added[k] == e;
        assert(all_entries(nodes)[before.len() + k] == e);
    }
}

proof fn lemma_entry_comes_from(nodes: Seq<NetworkNodeSpec>, k: int) -> (r: (int, int, int))
    requires
        0 <= k < all_entries(nodes).len(),
    ensures
        is_interface_entry(nodes, r.0, r.1, r.2, all_entries(nodes)[k]),
    decreases nodes.len(),
{
    let f = |n: NetworkNodeSpec| node_entries(n);
    if nodes.len() == 0 {
        assert(all_entries(nodes) =~= Seq::empty());
        (0, 0, 0)
    } else {
        let last = nodes.len() - 1;
        let front = nodes.drop_last();
        assert(nodes.take(last) =~= front);
        assert(nodes.take(last + 1) =~= nodes);
        nodes.lemma_flat_map_take_append(f, last);
        let before = all_entries(front);
        let added = node_entries(nodes[last]);
        assert(all_entries(nodes) == before + added);
        if k < before.len() {
            lemma_entry_comes_from(front, k)
        } else {
            let e = added[k - before.len()];
            assert(added.contains(e));
            let (i, a) = lemma_node_entry_comes_from(nodes[last].interfaces@, e);
            (last, i, a)
        }
    }
}

/// No address belongs to two interfaces.
pub open spec fn interfaces_share_no_address(nodes: Seq<NetworkNodeSpec>) -> bool {
    forall|n: int, i: int, a: int, m: int, j: int, b: int|
        0 <= n < nodes.len() && 0 <= i < nodes[n].interfaces@.len() && 0 <= a
            < nodes[n].interfaces@[i].addresses@.len() && 0 <= m < nodes.len() && 0 <= j
            < nodes[m].interfaces@.len() && 0 <= b < nodes[m].interfaces@[j].addresses@.len() && (
        #[trigger] nodes[n].interfaces@[i].addresses@[a]).address == (
        #[trigger] nodes[m].interfaces@[j].addresses@[b]).address ==> n == m && i == j
}

/// The routes that leave from an address are those of the interface that it belongs to, neither more
/// nor less.
pub proof fn law_routes_are_set_up_as_configured(
    network: NetworkView,
    spec: NetworkSpec,
    events: NetworkEvents,
    tracer: TracerView,
    rng_state: u64,
    now: Nanos,
    node: int,
    interface: int,
    address: int,
    route: Route,
)
    requires
        is_initialized(network, spec, events, tracer, rng_state, now),
        interfaces_share_no_address(spec.nodes@),
        0 <= node < spec.nodes@.len(),
        0 <= interface < spec.nodes@[node].interfaces@.len(),
        0 <= address < spec.nodes@[node].interfaces@[interface].addresses@.len(),
    ensures
        ({
            let configured = spec.nodes@[node].interfaces@[interface];
            let ip = IpAddr::V4(configured.addresses@[address].address);
            (exists|k: int| #[trigger] is_route_of(network.routes_by_addr, k, ip, route))
                <==> configured.routes@.contains(route)
        }),
{
    let nodes = spec.nodes@;
    let initial = choose|initial: NetworkView| #[trigger]
        is_initial(initial, spec, tracer, rng_state, now) && network
            == initial.link_events_processed(
            events.initial_link_events@,
            now,
        ).node_events_processed(events.initial_node_events@, now);
    lemma_link_events_keep_nodes(initial, events.initial_link_events@, now);
    lemma_node_events_keep_links(
        initial.link_events_processed(events.initial_link_events@, now),
        events.initial_node_events@,
        now,
    );
    let sorted = network.routes_by_addr;
    let entries = all_entries(nodes);
    let configured = nodes[node].interfaces@[interface];
    let ip = IpAddr::V4(configured.addresses@[address].address);
    // All entries about the address hold the routes of the interface
    assert forall|k: int| 0 <= k < sorted.len() && (#[trigger] sorted[k]).0 == ip implies
        sorted[k].1.contains(route) == configured.routes@.contains(route) by {
        let (m, j, b) = lemma_entry_comes_from(nodes, k);
        assert(sorted[k].0 == entries[k].0);
        assert(nodes[m].interfaces@[j].addresses@[b].address
            == nodes[node].interfaces@[interface].addresses@[address].address);
        lemma_same_elements(entries[k].1, sorted[k].1);
    }
    if configured.routes@.contains(route) {
        let e = (ip, configured.routes@);
        lemma_node_entry(nodes[node].interfaces@, interface, address);
        lemma_entry(nodes, node, e);
        let h = choose|h: int| 0 <= h < entries.len() && entries[h] == e;
        assert(sorted[h].0 == ip);
        let p = |r: (IpAddr, Seq<Route>)| r.0 == ip;
        lemma_first_index(sorted, p);
        if crate::search::first_index(sorted, p) is None {
            assert(!p(sorted[h]));
        }
        let k = crate::search::first_index(sorted, p)->0;
        assert forall|j: int| 0 <= j < k implies (#[trigger] sorted[j]).0 != ip by {
            assert(!p(sorted[j]));
        }
        assert(is_route_of(sorted, k, ip, route));
    }
}

/// No two links lead from one address to the same other one.
pub open spec fn distinct_link_pairs(links: Seq<NetworkLinkSpec>) -> bool {
    forall|i: int, j: int|
        0 <= i < j < links.len() ==> (#[trigger] links[i]).source != (#[trigger] links[j]).source
            || links[i].target != links[j].target
}

proof fn lemma_links_are_sound(links: Seq<NetworkLinkSpec>)
    ensures
        links_error(links) is None <==> distinct_link_ids(links) && distinct_link_pairs(links),
    decreases links.len(),
{
    if links.len() > 0 {
        let front = links.drop_last();
        let l = links.last();
        let last = links.len() - 1;
        lemma_links_are_sound(front);
        let same_pair = |e: NetworkLinkSpec| e.source == l.source && e.target == l.target;
        let same_id = |e: NetworkLinkSpec| e.id@ == l.id@;
        lemma_first_index(front, same_pair);
        lemma_first_index(front, same_id);
        if links_error(links) is None {
            assert forall|i: int, j: int| 0 <= i < j < links.len() implies (#[trigger] links[i]).id@
                != (#[trigger] links[j]).id@ by {
                if j == last {
                    assert(!same_id(front[i]));
                } else {
                    assert(front[i].id@ != front[j].id@);
                }
            }
            assert forall|i: int, j: int| 0 <= i < j < links.len() implies (
            #[trigger] links[i]).source != (#[trigger] links[j]).source || links[i].target
                != links[j].target by {
                if j == last {
                    assert(!same_pair(front[i]));
                } else {
                    assert(front[i].source != front[j].source || front[i].target
                        != front[j].target);
                }
            }
        }
        if distinct_link_ids(links) && distinct_link_pairs(links) {
            assert forall|i: int, j: int| 0 <= i < j < front.len() implies (#[trigger] front[i]).id@
                != (#[trigger] front[j]).id@ by {
                assert(links[i].id@ != links[j].id@);
            }
            assert forall|i: int, j: int| 0 <= i < j < front.len() implies (
            #[trigger] front[i]).source != (#[trigger] front[j]).source || front[i].target
                != front[j].target by {
                assert(links[i].source != links[j].source || links[i].target != links[j].target);
            }
            assert forall|i: int| 0 <= i < front.len() implies !same_pair(#[trigger] front[i])
                && !same_id(front[i]) by {
                assert(links[i].id@ != links[last].id@);
                assert(links[i].source != links[last].source || links[i].target
                    != links[last].target);
            }
            lemma_first_index_none(front, same_pair);
            lemma_first_index_none(front, same_id);
        }
    }
}

/// Every node has an interface, and an address on its first one.
pub open spec fn nodes_have_addresses(nodes: Seq<NetworkNodeSpec>) -> bool {
    forall|n: int|
        0 <= n < nodes.len() ==> (#[trigger] nodes[n]).interfaces@.len() > 0
            && nodes[n].interfaces@[0].addresses@.len() > 0
}

/// No address occurs twice, neither at one node nor at two.
pub open spec fn distinct_addresses(nodes: Seq<NetworkNodeSpec>) -> bool {
    forall|i: int, a: int, j: int, b: int|
        0 <= i < nodes.len() && 0 <= a < nodes[i].spec_addresses().len() && 0 <= j < nodes.len()
            && 0 <= b < nodes[j].spec_addresses().len() && #[trigger] nodes[i].spec_addresses()[a]
            == #[trigger] nodes[j].spec_addresses()[b] ==> i == j && a == b
}

/// The node's address at the given place is new.
spec fn is_new_address(earlier: Seq<NetworkNodeSpec>, node: NetworkNodeSpec, a: int) -> bool {
    &&& forall|i: int|
        0 <= i < earlier.len() ==> !(#[trigger] earlier[i]).spec_addresses().contains(
            node.spec_addresses()[a],
        )
    &&& !node.spec_addresses().take(a).contains(node.spec_addresses()[a])
}

proof fn lemma_addresses_are_new(
    earlier: Seq<NetworkNodeSpec>,
    node: NetworkNodeSpec,
    count: nat,
)
    requires
        count <= node.spec_addresses().len(),
    ensures
        address_error(earlier, node, count) is None <==> forall|a: int|
            0 <= a < count ==> #[trigger] is_new_address(earlier, node, a),
    decreases count,
{
    if count > 0 {
        lemma_addresses_are_new(earlier, node, (count - 1) as nat);
        let address = node.spec_addresses()[count - 1];
        let owns = |n: NetworkNodeSpec| n.spec_addresses().contains(address);
        lemma_first_index(earlier, owns);
        if address_error(earlier, node, count) is None {
            assert forall|a: int| 0 <= a < count implies #[trigger] is_new_address(
                earlier,
                node,
                a,
            ) by {
                if a == count - 1 {
                    assert forall|i: int| 0 <= i < earlier.len() implies !(
                    #[trigger] earlier[i]).spec_addresses().contains(address) by {
                        assert(!owns(earlier[i]));
                    }
                }
            }
        }
        if forall|a: int| 0 <= a < count ==> #[trigger] is_new_address(earlier, node, a) {
            assert(is_new_address(earlier, node, count - 1));
            assert forall|i: int| 0 <= i < earlier.len() implies !owns(#[trigger] earlier[i]) by {}
            lemma_first_index_none(earlier, owns);
        }
    }
}

proof fn lemma_nodes_are_sound(nodes: Seq<NetworkNodeSpec>)
    ensures
        nodes_error(nodes) is None <==> nodes_have_addresses(nodes) && distinct_node_ids(nodes)
            && distinct_addresses(nodes),
    decreases nodes.len(),
{
    if nodes.len() > 0 {
        let front = nodes.drop_last();
        let node = nodes.last();
        let last = nodes.len() - 1;
        let all = node.spec_addresses();
        lemma_nodes_are_sound(front);
        lemma_addresses_are_new(front, node, all.len());
        let same_id = |n: NetworkNodeSpec| n.id@ == node.id@;
        lemma_first_index(front, same_id);
        if nodes_error(nodes) is None {
            assert forall|n: int| 0 <= n < nodes.len() implies (
            #[trigger] nodes[n]).interfaces@.len() > 0 && nodes[n].interfaces@[0].addresses@.len()
                > 0 by {
                if n < last {
                    assert(front[n].interfaces@.len() > 0);
                }
            }
            assert forall|i: int, j: int| 0 <= i < j < nodes.len() implies (#[trigger] nodes[i]).id@
                != (#[trigger] nodes[j]).id@ by {
                if j == last {
                    assert(!same_id(front[i]));
                } else {
                    assert(front[i].id@ != front[j].id@);
                }
            }
            assert forall|i: int, a: int, j: int, b: int|
                0 <= i < nodes.len() && 0 <= a < nodes[i].spec_addresses().len() && 0 <= j
                    < nodes.len() && 0 <= b < nodes[j].spec_addresses().len()
                    && #[trigger] nodes[i].spec_addresses()[a]
                    == #[trigger] nodes[j].spec_addresses()[b] implies i == j && a == b by {
                if i < last && j < last {
                    assert(front[i].spec_addresses()[a] == front[j].spec_addresses()[b]);
                } else if i == last && j < last {
                    assert(is_new_address(front, node, a));
                    assert(!front[j].spec_addresses().contains(all[a]));
                } else if i < last && j == last {
                    assert(is_new_address(front, node, b));
                    assert(!front[i].spec_addresses().contains(all[b]));
                } else {
                    assert(is_new_address(front, node, a));
                    assert(is_new_address(front, node, b));
                    if a < b {
                        assert(all.take(b)[a] == all[b]);
                    } else if b < a {
                        assert(all.take(a)[b] == all[a]);
                    }
                }
            }
        }
        if nodes_have_addresses(nodes) && distinct_node_ids(nodes) && distinct_addresses(nodes) {
            assert forall|n: int| 0 <= n < front.len() implies (
            #[trigger] front[n]).interfaces@.len() > 0 && front[n].interfaces@[0].addresses@.len()
                > 0 by {
                assert(nodes[n].interfaces@.len() > 0);
            }
            assert forall|i: int, j: int| 0 <= i < j < front.len() implies (#[trigger] front[i]).id@
                != (#[trigger] front[j]).id@ by {
                assert(nodes[i].id@ != nodes[j].id@);
            }
            assert forall|i: int, a: int, j: int, b: int|
                0 <= i < front.len() && 0 <= a < front[i].spec_addresses().len() && 0 <= j
                    < front.len() && 0 <= b < front[j].spec_addresses().len()
                    && #[trigger] front[i].spec_addresses()[a]
                    == #[trigger] front[j].spec_addresses()[b] implies i == j && a == b by {
                assert(nodes[i].spec_addresses()[a] == nodes[j].spec_addresses()[b]);
            }
            assert(nodes[last].interfaces@.len() > 0);
            assert forall|a: int| 0 <= a < all.len() implies #[trigger] is_new_address(
                front,
                node,
                a,
            ) by {
                assert forall|i: int| 0 <= i < front.len() implies !(
                #[trigger] front[i]).spec_addresses().contains(all[a]) by {
                    if front[i].spec_addresses().contains(all[a]) {
                        let theirs = front[i].spec_addresses();
                        let b = choose|b: int| 0 <= b < theirs.len() && theirs[b] == all[a];
                        assert(nodes[i].spec_addresses()[b] == nodes[last].spec_addresses()[a]);
                    }
                }
                if all.take(a).contains(all[a]) {
                    let b = choose|b: int| 0 <= b < a && all.take(a)[b] == all[a];
                    assert(nodes[last].spec_addresses()[b] == nodes[last].spec_addresses()[a]);
                }
            }
            assert forall|i: int| 0 <= i < front.len() implies !same_id(#[trigger] front[i]) by {
                assert(nodes[i].id@ != nodes[last].id@);
            }
            lemma_first_index_none(front, same_id);
        }
    }
}

/// A network can be set up exactly if it is sound: no two links share an id or lead from one address to
/// the same other one, there are at least two nodes, each with an address, no two nodes share an id, and
/// no address occurs twice. Where time is warped, none may have passed since the simulation and its
/// record started.
pub proof fn law_sound_networks_can_be_set_up(
    spec: NetworkSpec,
    tracer: TracerView,
    start: Nanos,
    now: Nanos,
    disable_time_warping: bool,
)
    ensures
        init_error(spec, tracer, start, now, disable_time_warping) is None <==> {
            &&& disable_time_warping || (now <= tracer.simulation_start && now <= start)
            &&& distinct_link_ids(spec.links@)
            &&& distinct_link_pairs(spec.links@)
            &&& spec.nodes@.len() >= 2
            &&& nodes_have_addresses(spec.nodes@)
            &&& distinct_node_ids(spec.nodes@)
            &&& distinct_addresses(spec.nodes@)
        },
{
    lemma_links_are_sound(spec.links@);
    lemma_nodes_are_sound(spec.nodes@);
}

/// The error tells the truth about the links and nodes.
pub open spec fn is_true_of(error: InitError, spec: NetworkSpec) -> bool {
    let links = spec.links@;
    let nodes = spec.nodes@;
    match error {
        InitError::LinkAddressConflict { id, other, source, target } => exists|i: int, j: int|
            0 <= i < j < links.len() && (#[trigger] links[i]).id == other && (
            #[trigger] links[j]).id == id && links[i].source == source && links[j].source == source
                && links[i].target == target && links[j].target == target,
        InitError::DuplicateLinkId { id } => exists|i: int, j: int|
            0 <= i < j < links.len() && (#[trigger] links[i]).id@ == id@ && (
            #[trigger] links[j]).id == id,
        InitError::TooFewNodes { found } => nodes.len() == found && found < 2,
        InitError::Node { error: NodeError::NoInterfaces { id } } => exists|n: int|
            0 <= n < nodes.len() && (#[trigger] nodes[n]).id == id && nodes[n].interfaces@.len()
                == 0,
        InitError::Node { error: NodeError::InterfaceWithoutAddress { id } } => exists|n: int|
            0 <= n < nodes.len() && (#[trigger] nodes[n]).id == id && nodes[n].interfaces@.len()
                > 0 && nodes[n].interfaces@[0].addresses@.len() == 0,
        InitError::NodeAddressConflict { id, other, address } => exists|m: int, n: int|
            0 <= m <= n < nodes.len() && (#[trigger] nodes[m]).id == other && (
            #[trigger] nodes[n]).id == id && nodes[m].spec_addresses().contains(address)
                && nodes[n].spec_addresses().contains(address),
        InitError::DuplicateNodeId { id } => exists|m: int, n: int|
            0 <= m < n < nodes.len() && (#[trigger] nodes[m]).id@ == id@ && (
            #[trigger] nodes[n]).id == id,
        _ => false,
    }
}

proof fn lemma_link_errors_are_true(spec: NetworkSpec, n: int)
    requires
        0 <= n <= spec.links@.len(),
        links_error(spec.links@.take(n)) is Some,
    ensures
        is_true_of(links_error(spec.links@.take(n))->0, spec),
    decreases n,
{
    let links = spec.links@;
    if n > 0 {
        let front = links.take(n - 1);
        assert(links.take(n).drop_last() =~= front);
        if links_error(front) is Some {
            lemma_link_errors_are_true(spec, n - 1);
        } else {
            let l = links[n - 1];
            assert(links.take(n).last() == l);
            let same_pair = |e: NetworkLinkSpec| e.source == l.source && e.target == l.target;
            let same_id = |e: NetworkLinkSpec| e.id@ == l.id@;
            lemma_first_index(front, same_pair);
            lemma_first_index(front, same_id);
            match crate::search::first_index(front, same_pair) {
                Some(i) => {
                    assert(front[i] == links[i]);
                },
                None => {
                    let i = crate::search::first_index(front, same_id)->0;
                    assert(front[i] == links[i]);
                },
            }
        }
    }
}

proof fn lemma_address_errors_are_true(spec: NetworkSpec, n: int, count: nat)
    requires
        0 <= n < spec.nodes@.len(),
        count <= spec.nodes@[n].spec_addresses().len(),
        address_error(spec.nodes@.take(n), spec.nodes@[n], count) is Some,
    ensures
        is_true_of(address_error(spec.nodes@.take(n), spec.nodes@[n], count)->0, spec),
    decreases count,
{
    if count > 0 {
        let nodes = spec.nodes@;
        let earlier = nodes.take(n);
        let node = nodes[n];
        if address_error(earlier, node, (count - 1) as nat) is Some {
            lemma_address_errors_are_true(spec, n, (count - 1) as nat);
        } else {
            let address = node.spec_addresses()[count - 1];
            let owns = |n: NetworkNodeSpec| n.spec_addresses().contains(address);
            lemma_first_index(earlier, owns);
            assert(node.spec_addresses().contains(address));
            if let Some(i) = crate::search::first_index(earlier, owns) {
                assert(earlier[i] == nodes[i]);
                assert(nodes[i].spec_addresses().contains(address));
            }
        }
    }
}

proof fn lemma_node_errors_are_true(spec: NetworkSpec, n: int)
    requires
        0 <= n <= spec.nodes@.len(),
        nodes_error(spec.nodes@.take(n)) is Some,
    ensures
        is_true_of(nodes_error(spec.nodes@.take(n))->0, spec),
    decreases n,
{
    let nodes = spec.nodes@;
    if n > 0 {
        let front = nodes.take(n - 1);
        assert(nodes.take(n).drop_last() =~= front);
        if nodes_error(front) is Some {
            lemma_node_errors_are_true(spec, n - 1);
        } else {
            let node = nodes[n - 1];
            assert(nodes.take(n).last() == node);
            if node_error(node) is None {
                let len = node.spec_addresses().len();
                if address_error(front, node, len) is Some {
                    lemma_address_errors_are_true(spec, n - 1, len);
                } else {
                    let same_id = |x: NetworkNodeSpec| x.id@ == node.id@;
                    lemma_first_index(front, same_id);
                    let i = crate::search::first_index(front, same_id)->0;
                    assert(front[i] == nodes[i]);
                }
            }
        }
    }
}

/// What is said to be wrong with a network is wrong with it.
pub proof fn law_errors_tell_the_truth(
    spec: NetworkSpec,
    tracer: TracerView,
    start: Nanos,
    now: Nanos,
    disable_time_warping: bool,
)
    requires
        spec.nodes@.len() <= usize::MAX,
    ensures
        match init_error(spec, tracer, start, now, disable_time_warping) {
            None => true,
            Some(InitError::OldTracer) => !disable_time_warping && now > tracer.simulation_start,
            Some(InitError::OldStart) => !disable_time_warping && now > start,
            Some(error) => is_true_of(error, spec),
        },
{
    assert(spec.links@.take(spec.links@.len() as int) =~= spec.links@);
    assert(spec.nodes@.take(spec.nodes@.len() as int) =~= spec.nodes@);
    if links_error(spec.links@) is Some {
        lemma_link_errors_are_true(spec, spec.links@.len() as int);
    } else if nodes_error(spec.nodes@) is Some {
        lemma_node_errors_are_true(spec, spec.nodes@.len() as int);
    }
}

/// Each error says what is wrong, and with which nodes, links and addresses.
pub proof fn law_errors_are_explained(
    id: String,
    other: String,
    source: IpAddr,
    target: IpAddr,
    found: usize,
    from: Seq<char>,
    to: Seq<char>,
)
    ensures
        InitError::OldTracer.text(Seq::empty())
            == "attempted to initialize network with an old tracer"@,
        InitError::OldStart.text(Seq::empty())
            == "attempted to initialize network with an old start instant"@,
        ({
            let error = InitError::LinkAddressConflict { id, other, source, target };
            &&& error.spec_addresses() == seq![source, target]
            &&& error.text(seq![from, to]) == "links "@ + id@ + " and "@ + other@
                + " share the same address pair: "@ + from + " -> "@ + to
        }),
        ({
            let error = InitError::NodeAddressConflict { id, other, address: source };
            &&& error.spec_addresses() == seq![source]
            &&& error.text(seq![from]) == "nodes "@ + id@ + " and "@ + other@
                + " share the same address: "@ + from
        }),
        ({
            let error = InitError::DuplicateLinkId { id };
            error.text(Seq::empty()) == "there is more than one link with id "@ + id@
        }),
        ({
            let error = InitError::DuplicateNodeId { id };
            error.text(Seq::empty()) == "there are multiple nodes with id "@ + id@
        }),
        ({
            let error = InitError::TooFewNodes { found };
            error.text(Seq::empty()) == "Expected at least two nodes in network graph, found "@
                + decimal(found as nat)
        }),
        ({
            let error = InitError::Node { error: NodeError::NoInterfaces { id } };
            error.text(Seq::empty()) == "Node "@ + id@ + " has no interfaces"@
        }),
        ({
            let error = InitError::Node { error: NodeError::InterfaceWithoutAddress { id } };
            error.text(Seq::empty()) == "Node "@ + id@ + " has an interface without any address"@
        }),
{
}


} // verus!
