//! How packets are created, and how nodes, links and endpoints are found for them.

use crate::network::ip::{IpAddr, Ipv4Cidr, SocketAddr};
use crate::network::link::{LinkView, PacketPacer};
use crate::network::node::{
    connections, endpoint_index, link_target, BufferedView, EndpointView, NodeView,
};
use crate::network::run::{drawn_for_links, NetworkStep};
use crate::network::{link_with_id, node_with_address, node_with_id, NetworkView};
use crate::random::{drawn_u128, Roll};
use crate::search::{lemma_first_index, lemma_first_index_is};
use crate::time::{Nanos, SPAN_MAX};
use crate::transmit::OwnedTransmit;
use vstd::prelude::*;

verus! {

/// Packets are created one after the other: each gets the next number, after the largest one zero,
/// and an id of its own from the generator. A packet that is created is not a copy, and carries what
/// it was created with. Creating it changes nothing else.
pub proof fn law_packets_are_numbered(
    network: NetworkView,
    source_id: Seq<char>,
    transmit: OwnedTransmit,
    other_id: Seq<char>,
    other: OwnedTransmit,
)
    ensures
        ({
            let first = network.new_packet(source_id, transmit);
            let between = network.packet_created();
            let second = between.new_packet(other_id, other);
            &&& first.number == network.next_transmit_number
            &&& second.number == if first.number == 0xffff_ffff_ffff_ffff {
                0
            } else {
                first.number + 1
            }
            &&& first.id == drawn_u128(network.rng_state).1
            &&& second.id == drawn_u128(drawn_u128(network.rng_state).0).1
            &&& !first.duplicate
            &&& first.source_id == source_id
            &&& first.transmit == transmit@
            &&& between.nodes == network.nodes
            &&& between.links == network.links
            &&& between.tickets == network.tickets
            &&& between.tracer == network.tracer
            &&& between.routes_by_addr == network.routes_by_addr
        }),
{
}

proof fn lemma_draws_go_on(
    network: NetworkView,
    node: int,
    packet: BufferedView,
    links: Seq<usize>,
    draw: spec_fn(u64) -> Roll,
    rng_state: u64,
    total: nat,
    count: nat,
)
    requires
        count <= total,
        network.rng_state == rng_state,
    ensures
        network.handed_to_links(
            node,
            packet,
            links,
            drawn_for_links(draw, rng_state, total).0,
            count,
        ).rng_state == drawn_for_links(draw, rng_state, count).1,
    decreases count,
{
    if count > 0 {
        lemma_draws_go_on(
            network,
            node,
            packet,
            links,
            draw,
            rng_state,
            total,
            (count - 1) as nat,
        );
        lemma_draws_are_kept(draw, rng_state, total, count);
    }
}

proof fn lemma_draws_are_kept(
    draw: spec_fn(u64) -> Roll,
    rng_state: u64,
    total: nat,
    count: nat,
)
    requires
        0 < count <= total,
    ensures
        ({
            let all = drawn_for_links(draw, rng_state, total).0;
            let first = draw(drawn_for_links(draw, rng_state, (count - 1) as nat).1);
            &&& all.len() == total
            &&& all[count - 1] == (first, draw(first.rng_state))
        }),
    decreases total,
{
    reveal_with_fuel(drawn_for_links, 2);
    if count < total {
        lemma_draws_are_kept(draw, rng_state, (total - 1) as nat, count);
    } else if total > 1 {
        lemma_draws_are_kept(draw, rng_state, (total - 1) as nat, (total - 1) as nat);
    }
}

/// Every draw goes on where the one before it ended: for each link that gets a packet two values are
/// drawn, one for its delay and one for its congestion mark, and the generator is left where the last
/// draw left it.
pub proof fn law_draws_go_on(
    network: NetworkView,
    node: int,
    draw: spec_fn(u64) -> Roll,
    k: int,
)
    requires
        network.allows(NetworkStep::Dispatch { node }),
        0 <= k < network.next_links(node).len(),
    ensures
        ({
            let n = network.next_links(node).len();
            let (rolls, state) = drawn_for_links(draw, network.rng_state, n);
            let after = network.dispatched(node, rolls);
            &&& rolls.len() == n
            &&& rolls[k].0 == draw(
                if k == 0 {
                    network.rng_state
                } else {
                    rolls[k - 1].1.rng_state
                },
            )
            &&& rolls[k].1 == draw(rolls[k].0.rng_state)
            &&& after.rng_state == rolls[n - 1].1.rng_state
            &&& after.next_transmit_number == network.next_transmit_number
            &&& after.routes_by_addr == network.routes_by_addr
        }),
{
    let total = network.next_links(node).len();
    let n = network.nodes[node];
    let popped = NetworkView {
        nodes: network.nodes.update(node, NodeView { outbound: n.outbound.skip(1), ..n }),
        ..network
    };
    lemma_draws_go_on(
        popped,
        node,
        n.outbound[0],
        network.next_links(node),
        draw,
        network.rng_state,
        total,
        total,
    );
    lemma_draws_are_kept(draw, network.rng_state, total, (k + 1) as nat);
    lemma_draws_are_kept(draw, network.rng_state, total, total);
    if k > 0 {
        lemma_draws_are_kept(draw, network.rng_state, total, k as nat);
    }
    lemma_rest_is_kept(
        popped,
        node,
        n.outbound[0],
        network.next_links(node),
        drawn_for_links(draw, network.rng_state, total).0,
        total,
    );
}

proof fn lemma_rest_is_kept(
    network: NetworkView,
    node: int,
    packet: BufferedView,
    links: Seq<usize>,
    rolls: Seq<(Roll, Roll)>,
    count: nat,
)
    ensures
        ({
            let after = network.handed_to_links(node, packet, links, rolls, count);
            &&& after.next_transmit_number == network.next_transmit_number
            &&& after.routes_by_addr == network.routes_by_addr
        }),
    decreases count,
{
    if count > 0 {
        lemma_rest_is_kept(network, node, packet, links, rolls, (count - 1) as nat);
    }
}

/// Packets that fit together within two milliseconds are sent together. While a batch is being sent,
/// a packet joins it if the batch stays that short, and otherwise waits until the batch is sent; once
/// it is sent, any packet can start a new batch.
pub proof fn law_packets_are_batched(pacer: PacketPacer, now: Nanos, packet_delay: Nanos)
    requires
        pacer.wf(),
        pacer.batch.created <= now <= SPAN_MAX,
        packet_delay <= SPAN_MAX,
    ensures
        ({
            let batch = pacer.batch;
            let after = pacer.sent(now, packet_delay);
            let sending = now < batch.created + batch.delay;
            let fits = !sending || batch.delay + packet_delay < 2_000_000;
            &&& pacer.spec_can_send(now, packet_delay) <==> fits
            &&& pacer.wait(now, packet_delay) == if fits {
                0
            } else {
                batch.created + batch.delay - now
            }
            &&& after.batch.created == if sending {
                batch.created
            } else {
                now
            }
            &&& after.batch.delay == if sending {
                batch.delay + packet_delay
            } else {
                packet_delay as int
            }
            &&& after.bandwidth_bps == pacer.bandwidth_bps
            &&& pacer.current(now).bandwidth_bps == pacer.bandwidth_bps
            &&& pacer.current(now).batch.created == after.batch.created
            &&& pacer.current(now).batch.delay + packet_delay == after.batch.delay
        }),
{
}

/// A node is found by each of its addresses and by its id, and a link by its id, if no other one
/// shares them. What nobody has is not found.
pub proof fn law_nodes_and_links_are_found(
    nodes: Seq<NodeView>,
    links: Seq<LinkView>,
    ip: IpAddr,
    id: String,
    i: int,
)
    ensures
        0 <= i < nodes.len() && nodes[i].addresses.contains(ip) && (forall|j: int|
            0 <= j < nodes.len() && (#[trigger] nodes[j]).addresses.contains(ip) ==> j == i)
            ==> node_with_address(nodes, ip) == Some(i),
        0 <= i < nodes.len() && nodes[i].id@ == id@ && (forall|j: int|
            0 <= j < nodes.len() && (#[trigger] nodes[j]).id@ == id@ ==> j == i) ==> node_with_id(
            nodes,
            id@,
        ) == Some(i),
        0 <= i < links.len() && links[i].id@ == id@ && (forall|j: int|
            0 <= j < links.len() && (#[trigger] links[j]).id@ == id@ ==> j == i) ==> link_with_id(
            links,
            id@,
        ) == Some(i),
        node_with_address(nodes, ip) is None <==> forall|j: int|
            0 <= j < nodes.len() ==> !(#[trigger] nodes[j]).addresses.contains(ip),
        node_with_id(nodes, id@) is None <==> forall|j: int|
            0 <= j < nodes.len() ==> (#[trigger] nodes[j]).id@ != id@,
        link_with_id(links, id@) is None <==> forall|j: int|
            0 <= j < links.len() ==> (#[trigger] links[j]).id@ != id@,
{
    let owns = |n: NodeView| n.addresses.contains(ip);
    let is_node = |n: NodeView| n.id@ == id@;
    let is_link = |l: LinkView| l.id@ == id@;
    lemma_first_index(nodes, owns);
    lemma_first_index(nodes, is_node);
    lemma_first_index(links, is_link);
    if let Some(k) = node_with_address(nodes, ip) {
        assert(owns(nodes[k]));
    } else {
        assert forall|j: int| 0 <= j < nodes.len() implies !(
        #[trigger] nodes[j]).addresses.contains(ip) by {
            assert(!owns(nodes[j]));
        }
    }
    if let Some(k) = node_with_id(nodes, id@) {
        assert(is_node(nodes[k]));
    } else {
        assert forall|j: int| 0 <= j < nodes.len() implies (#[trigger] nodes[j]).id@ != id@ by {
            assert(!is_node(nodes[j]));
        }
    }
    if let Some(k) = link_with_id(links, id@) {
        assert(is_link(links[k]));
    } else {
        assert forall|j: int| 0 <= j < links.len() implies (#[trigger] links[j]).id@ != id@ by {
            assert(!is_link(links[j]));
        }
    }
}

/// A port is opened once: the node gets an endpoint at its first address, without packets, unless
/// there is one for the port. From then on the endpoint is found, and opening the port again changes
/// nothing.
pub proof fn law_ports_are_opened_once(node: NodeView, port: u16)
    ensures
        ({
            let after = node.with_endpoint(port);
            let before_len = node.udp_endpoints.len();
            let known = exists|i: int|
                0 <= i < before_len && (#[trigger] node.udp_endpoints[i]).addr.port == port;
            let place = node.endpoint_for(port);
            &&& known ==> after == node
            &&& !known ==> {
                &&& after == NodeView { udp_endpoints: after.udp_endpoints, ..node }
                &&& after.udp_endpoints == node.udp_endpoints.push(
                    EndpointView {
                        inbound: Seq::empty(),
                        addr: SocketAddr { ip: node.canonical_address, port },
                    },
                )
            }
            &&& 0 <= place < after.udp_endpoints.len()
            &&& after.udp_endpoints[place].addr.port == port
            &&& after.endpoint_for(port) == place
            &&& after.with_endpoint(port) == after
        }),
{
    let serves = |e: EndpointView| e.addr.port == port;
    let before = node.udp_endpoints;
    let after = node.with_endpoint(port).udp_endpoints;
    lemma_first_index(before, serves);
    match endpoint_index(before, port) {
        Some(i) => {
            assert(serves(before[i]));
        },
        None => {
            assert forall|i: int| 0 <= i < before.len() implies (
            #[trigger] before[i]).addr.port != port by {
                assert(!serves(before[i]));
            }
            let n = before.len() as int;
            assert(serves(after[n]));
            assert forall|j: int| 0 <= j < n implies !serves(#[trigger] after[j]) by {
                assert(after[j] == before[j]);
            }
            lemma_first_index_is(after, serves, n);
        },
    }
}

/// A link leads from its source to its target; if several links leave from one address, the one that
/// is listed last counts.
pub proof fn law_the_last_link_counts(
    links: Seq<(IpAddr, IpAddr)>,
    source: IpAddr,
    target: IpAddr,
    from: IpAddr,
)
    ensures
        link_target(Seq::empty(), from) is None,
        link_target(links.push((source, target)), from) == if from == source {
            Some(target)
        } else {
            link_target(links, from)
        },
{
    assert(links.push((source, target)).drop_last() =~= links);
}

/// A node is connected over exactly those of its addresses from which a link leaves, in the order of
/// the addresses.
pub proof fn law_addresses_with_links_are_connected(
    links: Seq<(IpAddr, IpAddr)>,
    addresses: Seq<Ipv4Cidr>,
    address: Ipv4Cidr,
)
    ensures
        connections(links, Seq::empty()).len() == 0,
        connections(links, addresses.push(address)) == match link_target(
            links,
            IpAddr::V4(address.address),
        ) {
            Some(target) => connections(links, addresses).push((address, target)),
            None => connections(links, addresses),
        },
{
    let f = |a: Ipv4Cidr|
        match link_target(links, a.spec_as_ip_addr()) {
            Some(target) => Some((a, target)),
            None => None,
        };
    let all = addresses.push(address);
    let n = addresses.len() as int;
    assert(Seq::<Ipv4Cidr>::empty().filter_map(f) =~= Seq::empty());
    all.lemma_filter_map_take_succ(f, n);
    assert(all.take(n) =~= addresses);
    assert(all.take(n + 1) =~= all);
    match link_target(links, IpAddr::V4(address.address)) {
        Some(target) => {
            assert(connections(links, all) =~= connections(links, addresses).push(
                (address, target),
            ));
        },
        None => {
            assert(connections(links, all) =~= connections(links, addresses));
        },
    }
}

} // verus!
