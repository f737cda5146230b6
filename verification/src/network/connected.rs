//! Packets only travel between nodes that a link connects.

use crate::network::event::{LinkEventPayload, NetworkEventKind, NetworkEvents, NodeEventPayload};
use crate::network::laws::law_links_are_fifo;
use crate::network::link::{LinkEvent, LinkView, NetworkLink};
use crate::network::node::{BufferedView, NodeView};
use crate::network::routing::law_links_lead_towards_destination;
use crate::network::setup::{is_initial, is_initialized};
use crate::network::spec::NetworkSpec;
use crate::network::NetworkView;
use crate::random::Roll;
use crate::search::lemma_first_index;
use crate::time::Nanos;
use crate::tracing::tracer::TracerView;
use crate::transmit::PacketView;
use vstd::prelude::*;

verus! {

/// The packets that a link handles or has in its queue come from a node that the link leaves from.
pub open spec fn packets_at_connected_links(network: NetworkView) -> bool {
    &&& forall|l: int, k: int|
        0 <= l < network.links.len() && 0 <= k < network.links[l].outgoing.len()
            ==> is_connected(
            network,
            l,
            (#[trigger] network.links[l].outgoing[k]).src_node as int,
        )
    &&& forall|l: int|
        0 <= l < network.links.len() ==> ((#[trigger] network.links[l]).current matches Some(p)
            ==> is_connected(network, l, p.src_node as int))
}

/// The link leaves from one of the node's addresses.
pub open spec fn is_connected(network: NetworkView, link: int, node: int) -> bool {
    0 <= node < network.nodes.len() && network.nodes[node].addresses.contains(
        network.links[link].source,
    )
}

/// Packets only travel through links to which the node is connected: the links that a node chooses
/// for a packet leave from one of the node's addresses.
pub proof fn law_dispatching_chooses_connected_links(
    network: NetworkView,
    node: int,
    rolls: Seq<(Roll, Roll)>,
)
    requires
        packets_at_connected_links(network),
        0 <= node < network.nodes.len(),
        node <= usize::MAX,
        network.nodes[node].outbound.len() > 0,
        network.links.len() <= usize::MAX,
        rolls.len() == network.next_links(node).len(),
    ensures
        packets_at_connected_links(network.dispatched(node, rolls)),
{
    let n = network.nodes[node];
    let links = network.next_links(node);
    let popped = NetworkView {
        nodes: network.nodes.update(
            node,
            crate::network::node::NodeView { outbound: n.outbound.skip(1), ..n },
        ),
        ..network
    };
    assert forall|k: int| 0 <= k < links.len() implies #[trigger] links[k] < network.links.len()
        && n.addresses.contains(network.links[links[k] as int].source) by {
        assert(links.contains(links[k]));
        law_links_lead_towards_destination(
            network.links,
            network.routes_by_addr,
            n.addresses,
            n.outbound[0].data.transmit.destination.ip,
            links[k],
        );
    }
    assert(packets_at_connected_links(popped)) by {
        assert forall|l: int, k: int|
            0 <= l < popped.links.len() && 0 <= k < popped.links[l].outgoing.len() implies
            is_connected(popped, l, (#[trigger] popped.links[l].outgoing[k]).src_node as int) by {
            assert(is_connected(network, l, network.links[l].outgoing[k].src_node as int));
        }
        assert forall|l: int| 0 <= l < popped.links.len() implies ((
        #[trigger] popped.links[l]).current matches Some(p) ==> is_connected(
            popped,
            l,
            p.src_node as int,
        )) by {
            assert(popped.links[l] == network.links[l]);
        }
    }
    lemma_handing_keeps_connected(popped, node, n.outbound[0], links, rolls, links.len());
}

proof fn lemma_handing_keeps_connected(
    network: NetworkView,
    node: int,
    packet: BufferedView,
    links: Seq<usize>,
    rolls: Seq<(Roll, Roll)>,
    count: nat,
)
    requires
        packets_at_connected_links(network),
        0 <= node < network.nodes.len(),
        node <= usize::MAX,
        count <= links.len(),
        forall|k: int|
            0 <= k < links.len() ==> #[trigger] links[k] < network.links.len()
                && network.nodes[node].addresses.contains(network.links[links[k] as int].source),
    ensures
        ({
            let after = network.handed_to_links(node, packet, links, rolls, count);
            &&& packets_at_connected_links(after)
            &&& after.nodes == network.nodes
            &&& after.links.len() == network.links.len()
            &&& forall|l: int|
                0 <= l < network.links.len() ==> (#[trigger] after.links[l]).source
                    == network.links[l].source
        }),
    decreases count,
{
    if count > 0 {
        let before = network.handed_to_links(node, packet, links, rolls, (count - 1) as nat);
        lemma_handing_keeps_connected(network, node, packet, links, rolls, (count - 1) as nat);
        let link = links[count - 1] as int;
        let after = before.handed_to_link(node, packet, links, link, rolls[count - 1]);
        assert(network.nodes[node].addresses.contains(network.links[link].source));
        assert(before.links[link].source == network.links[link].source);
        assert forall|l: int| 0 <= l < network.links.len() implies (
        #[trigger] after.links[l]).source == network.links[l].source by {
            assert(before.links[l].source == network.links[l].source);
        }
        assert forall|l: int, k: int|
            0 <= l < after.links.len() && 0 <= k < after.links[l].outgoing.len() implies
            is_connected(after, l, (#[trigger] after.links[l].outgoing[k]).src_node as int) by {
            if k < before.links[l].outgoing.len() {
                assert(before.links[l].outgoing[k] == after.links[l].outgoing[k]);
                assert(is_connected(before, l, before.links[l].outgoing[k].src_node as int));
            }
        }
        assert forall|l: int| 0 <= l < after.links.len() implies ((
        #[trigger] after.links[l]).current matches Some(p) ==> is_connected(
            after,
            l,
            p.src_node as int,
        )) by {
            assert(before.links[l].current == after.links[l].current);
        }
    }
}

/// A packet stays at links that are connected to its node, whatever such a link does next.
pub proof fn law_steps_keep_packets_at_connected_links(
    network: NetworkView,
    link: int,
    event: LinkEvent,
    now: Nanos,
    packet_delay: Nanos,
)
    requires
        network.wf(),
        packets_at_connected_links(network),
        0 <= link < network.links.len(),
        link <= usize::MAX,
    ensures
        ({
            let next = network.links[link].step(
                link as usize,
                event,
                network.link_packet_handled(link),
                network.link_packet_node_down(link),
                now,
                packet_delay,
            ).0;
            packets_at_connected_links(
                NetworkView { links: network.links.update(link, next), ..network },
            )
        }),
{
    let before = network.links[link];
    let next = before.step(
        link as usize,
        event,
        network.link_packet_handled(link),
        network.link_packet_node_down(link),
        now,
        packet_delay,
    ).0;
    let after = NetworkView { links: network.links.update(link, next), ..network };
    law_links_are_fifo(
        before,
        link as usize,
        event,
        network.link_packet_handled(link),
        network.link_packet_node_down(link),
        now,
        packet_delay,
    );
    assert forall|l: int, k: int|
        0 <= l < after.links.len() && 0 <= k < after.links[l].outgoing.len() implies is_connected(
        after,
        l,
        (#[trigger] after.links[l].outgoing[k]).src_node as int,
    ) by {
        if l == link {
            let skipped = before.outgoing.len() - next.outgoing.len();
            assert(next.outgoing[k] == before.outgoing[k + skipped]);
            assert(is_connected(
                network,
                l,
                network.links[l].outgoing[k + skipped].src_node as int,
            ));
        } else {
            assert(is_connected(network, l, network.links[l].outgoing[k].src_node as int));
        }
    }
    assert forall|l: int| 0 <= l < after.links.len() implies ((
    #[trigger] after.links[l]).current matches Some(p) ==> is_connected(
        after,
        l,
        p.src_node as int,
    )) by {
        if l == link {
            if before.current is None && next.current is Some {
                assert(is_connected(network, l, network.links[l].outgoing[0].src_node as int));
            }
        } else {
            assert(after.links[l] == network.links[l]);
        }
    }
}

/// The nodes have the same addresses, and the links the same sources; no link got another packet.
pub(crate) open spec fn nothing_moved(before: NetworkView, after: NetworkView) -> bool {
    &&& after.nodes.len() == before.nodes.len()
    &&& forall|n: int|
        0 <= n < before.nodes.len() ==> (#[trigger] after.nodes[n]).addresses
            == before.nodes[n].addresses
    &&& after.links.len() == before.links.len()
    &&& forall|l: int|
        0 <= l < before.links.len() ==> {
            let link = #[trigger] after.links[l];
            &&& link.source == before.links[l].source
            &&& link.outgoing == before.links[l].outgoing
            &&& link.current is None || link.current == before.links[l].current
        }
}

pub(crate) proof fn lemma_nothing_moved(before: NetworkView, after: NetworkView)
    requires
        packets_at_connected_links(before),
        nothing_moved(before, after),
    ensures
        packets_at_connected_links(after),
{
    assert forall|l: int, k: int|
        0 <= l < after.links.len() && 0 <= k < after.links[l].outgoing.len() implies is_connected(
        after,
        l,
        (#[trigger] after.links[l].outgoing[k]).src_node as int,
    ) by {
        assert(after.links[l].outgoing[k] == before.links[l].outgoing[k]);
        let node = before.links[l].outgoing[k].src_node as int;
        assert(is_connected(before, l, node));
        assert(after.nodes[node].addresses == before.nodes[node].addresses);
    }
    assert forall|l: int| 0 <= l < after.links.len() implies ((
    #[trigger] after.links[l]).current matches Some(p) ==> is_connected(
        after,
        l,
        p.src_node as int,
    )) by {
        if after.links[l].current is Some {
            let node = before.links[l].current->0.src_node as int;
            assert(is_connected(before, l, node));
            assert(after.nodes[node].addresses == before.nodes[node].addresses);
        }
    }
}

/// Whatever arrives at a node, packets stay at links that are connected to their node.
pub proof fn law_nodes_keep_packets_at_connected_links(
    network: NetworkView,
    node: int,
    data: PacketView,
    roll: Roll,
    now: Nanos,
)
    requires
        packets_at_connected_links(network),
        0 <= node < network.nodes.len(),
    ensures
        packets_at_connected_links(network.forwarded(node, data, roll, now)),
{
    lemma_nothing_moved(network, network.forwarded(node, data, roll, now));
}

/// Whatever a link completes, packets stay at links that are connected to their node.
pub proof fn law_completing_keeps_packets_at_connected_links(
    network: NetworkView,
    link: int,
    now: Nanos,
    packet_delay: Nanos,
)
    requires
        network.wf(),
        packets_at_connected_links(network),
        0 <= link < network.links.len(),
        network.can_complete(link, now, packet_delay),
    ensures
        packets_at_connected_links(network.completed(link, now, packet_delay)),
{
    assert(network.links[link].current is Some);
    lemma_nothing_moved(network, network.completed(link, now, packet_delay));
}

proof fn lemma_event_moves_nothing(network: NetworkView, event: NetworkEventKind, now: Nanos)
    ensures
        nothing_moved(network, network.event_processed(event, now)),
{
    match event {
        NetworkEventKind::Link(link) => {
            lemma_first_index(network.links, |l: LinkView| l.id@ == link.link_id@);
        },
        NetworkEventKind::Node(node) => {
            lemma_first_index(network.nodes, |n: NodeView| n.id@ == node.node_id@);
        },
    }
}

/// Whatever network events change, packets stay at links that are connected to their node.
pub proof fn law_events_keep_packets_at_connected_links(
    network: NetworkView,
    event: NetworkEventKind,
    now: Nanos,
)
    requires
        packets_at_connected_links(network),
    ensures
        packets_at_connected_links(network.event_processed(event, now)),
{
    lemma_event_moves_nothing(network, event, now);
    lemma_nothing_moved(network, network.event_processed(event, now));
}

proof fn lemma_link_events_keep_connected(
    network: NetworkView,
    events: Seq<LinkEventPayload>,
    now: Nanos,
)
    requires
        packets_at_connected_links(network),
    ensures
        packets_at_connected_links(network.link_events_processed(events, now)),
    decreases events.len(),
{
    if events.len() > 0 {
        lemma_link_events_keep_connected(network, events.drop_last(), now);
        law_events_keep_packets_at_connected_links(
            network.link_events_processed(events.drop_last(), now),
            NetworkEventKind::Link(events.last()),
            now,
        );
    }
}

proof fn lemma_node_events_keep_connected(
    network: NetworkView,
    events: Seq<NodeEventPayload>,
    now: Nanos,
)
    requires
        packets_at_connected_links(network),
    ensures
        packets_at_connected_links(network.node_events_processed(events, now)),
    decreases events.len(),
{
    if events.len() > 0 {
        lemma_node_events_keep_connected(network, events.drop_last(), now);
        law_events_keep_packets_at_connected_links(
            network.node_events_processed(events.drop_last(), now),
            NetworkEventKind::Node(events.last()),
            now,
        );
    }
}

/// When a network has just been set up, all packets are at links that are connected to their node:
/// there are none yet.
pub proof fn law_new_network_has_packets_at_connected_links(
    network: NetworkView,
    spec: NetworkSpec,
    events: NetworkEvents,
    tracer: TracerView,
    rng_state: u64,
    now: Nanos,
)
    requires
        is_initialized(network, spec, events, tracer, rng_state, now),
    ensures
        packets_at_connected_links(network),
{
    let initial = choose|initial: NetworkView| #[trigger]
        is_initial(initial, spec, tracer, rng_state, now) && network
            == initial.link_events_processed(
            events.initial_link_events@,
            now,
        ).node_events_processed(events.initial_node_events@, now);
    assert forall|l: int| 0 <= l < initial.links.len() implies (
    #[trigger] initial.links[l]).outgoing.len() == 0 && initial.links[l].current is None by {
        assert(initial.links[l] == NetworkLink::of_spec(spec.links@[l], now));
    }
    assert(packets_at_connected_links(initial)) by {
        assert forall|l: int, k: int|
            0 <= l < initial.links.len() && 0 <= k < initial.links[l].outgoing.len() implies
            is_connected(
            initial,
            l,
            (#[trigger] initial.links[l].outgoing[k]).src_node as int,
        ) by {
            assert(initial.links[l].outgoing.len() == 0);
        }
    }
    lemma_link_events_keep_connected(initial, events.initial_link_events@, now);
    lemma_node_events_keep_connected(
        initial.link_events_processed(events.initial_link_events@, now),
        events.initial_node_events@,
        now,
    );
}

} // verus!
