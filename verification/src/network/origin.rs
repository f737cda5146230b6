//! Packets come from the nodes that send them.

use crate::network::event::{LinkEventPayload, NetworkEventKind, NetworkEvents, NodeEventPayload};
use crate::network::inbound_queue::{arrived, due, enqueued, QueuedView};
use crate::network::laws::{law_links_are_fifo, law_sending_needs_a_link_that_is_up};
use crate::network::link::{marked, LinkEvent, LinkView, NetworkLink};
use crate::network::node::{is_new_node, BufferedView, EndpointView, NodeView};
use crate::network::routing::law_links_lead_towards_destination;
use crate::network::run::{drawn_for_links, NetworkStep};
use crate::network::setup::{is_initial, is_initialized, link_ends};
use crate::network::spec::{NetworkNodeSpec, NetworkSpec, NodeKind};
use crate::network::NetworkView;
use crate::random::{drawn_u128, Roll};
use crate::search::lemma_first_index;
use crate::time::Nanos;
use crate::tracing::tracer::TracerView;
use crate::transmit::PacketView;
use vstd::prelude::*;

verus! {

/// All packets in the queue come from one of the sources.
pub open spec fn queue_from(queue: Seq<QueuedView>, sources: Set<Seq<char>>) -> bool {
    forall|k: int| 0 <= k < queue.len() ==> sources.contains((#[trigger] queue[k]).data.source_id)
}

/// All packets that the node holds come from one of the sources.
pub open spec fn node_from(node: NodeView, sources: Set<Seq<char>>) -> bool {
    &&& forall|k: int|
        0 <= k < node.outbound.len() ==> sources.contains(
            (#[trigger] node.outbound[k]).data.source_id,
        )
    &&& forall|e: int|
        0 <= e < node.udp_endpoints.len() ==> queue_from(
            (#[trigger] node.udp_endpoints[e]).inbound,
            sources,
        )
}

/// All packets that the link holds come from one of the sources.
pub open spec fn link_from(link: LinkView, sources: Set<Seq<char>>) -> bool {
    &&& forall|k: int|
        0 <= k < link.outgoing.len() ==> sources.contains(
            (#[trigger] link.outgoing[k]).data.source_id,
        )
    &&& link.current matches Some(p) ==> sources.contains(p.data.source_id)
    &&& queue_from(link.in_transit, sources)
}

/// All packets in the network come from one of the sources.
pub open spec fn packets_from(network: NetworkView, sources: Set<Seq<char>>) -> bool {
    &&& forall|n: int|
        0 <= n < network.nodes.len() ==> node_from(#[trigger] network.nodes[n], sources)
    &&& forall|l: int|
        0 <= l < network.links.len() ==> link_from(#[trigger] network.links[l], sources)
}

proof fn lemma_enqueued_from(queue: Seq<QueuedView>, packet: QueuedView, sources: Set<Seq<char>>)
    requires
        queue_from(queue, sources),
        sources.contains(packet.data.source_id),
    ensures
        queue_from(enqueued(queue, packet), sources),
{
    let at = packet.arrives_at;
    let pos = arrived(queue, at);
    lemma_first_index(queue, |p: QueuedView| p.arrives_at > at);
    let after = enqueued(queue, packet);
    assert forall|k: int| 0 <= k < after.len() implies sources.contains(
        (#[trigger] after[k]).data.source_id,
    ) by {
        if k < pos {
            assert(after[k] == queue[k]);
        } else if k > pos {
            assert(after[k] == queue[k - 1]);
        }
    }
}

proof fn lemma_skipped_from(queue: Seq<QueuedView>, n: int, sources: Set<Seq<char>>)
    requires
        queue_from(queue, sources),
        0 <= n <= queue.len(),
    ensures
        queue_from(queue.skip(n), sources),
        queue_from(queue.take(n), sources),
{
    assert forall|k: int| 0 <= k < queue.skip(n).len() implies sources.contains(
        (#[trigger] queue.skip(n)[k]).data.source_id,
    ) by {
        assert(queue.skip(n)[k] == queue[k + n]);
    }
    assert forall|k: int| 0 <= k < queue.take(n).len() implies sources.contains(
        (#[trigger] queue.take(n)[k]).data.source_id,
    ) by {
        assert(queue.take(n)[k] == queue[k]);
    }
}

proof fn lemma_endpoint_from(node: NodeView, port: u16, sources: Set<Seq<char>>)
    requires
        node_from(node, sources),
    ensures
        node_from(node.with_endpoint(port), sources),
        0 <= node.endpoint_for(port) < node.with_endpoint(port).udp_endpoints.len(),
{
    lemma_first_index(node.udp_endpoints, |e: EndpointView| e.addr.port == port);
    let after = node.with_endpoint(port);
    assert forall|e: int| 0 <= e < after.udp_endpoints.len() implies queue_from(
        (#[trigger] after.udp_endpoints[e]).inbound,
        sources,
    ) by {
        if e < node.udp_endpoints.len() {
            assert(after.udp_endpoints[e] == node.udp_endpoints[e]);
        }
    }
}

proof fn lemma_taken_in_from(
    network: NetworkView,
    node: int,
    data: PacketView,
    now: Nanos,
    sources: Set<Seq<char>>,
)
    requires
        packets_from(network, sources),
        0 <= node < network.nodes.len(),
        sources.contains(data.source_id),
    ensures
        packets_from(network.taken_in(node, data, now), sources),
        network.taken_in(node, data, now).nodes.len() == network.nodes.len(),
{
    let n = network.nodes[node];
    let after = network.taken_in(node, data, now);
    assert(node_from(n, sources));
    assert(node_from(after.nodes[node], sources)) by {
        if data.transmit.destination.ip == n.canonical_address {
            let port = data.transmit.destination.port;
            lemma_endpoint_from(n, port, sources);
            let opened = n.with_endpoint(port);
            let i = n.endpoint_for(port);
            lemma_enqueued_from(
                opened.udp_endpoints[i].inbound,
                QueuedView { data, sent: now, arrives_at: now },
                sources,
            );
            assert forall|e: int| 0 <= e < after.nodes[node].udp_endpoints.len() implies queue_from(
                (#[trigger] after.nodes[node].udp_endpoints[e]).inbound,
                sources,
            ) by {
                if e != i {
                    assert(after.nodes[node].udp_endpoints[e] == opened.udp_endpoints[e]);
                }
            }
        }
    }
    assert forall|m: int| 0 <= m < after.nodes.len() implies node_from(
        #[trigger] after.nodes[m],
        sources,
    ) by {
        if m != node {
            assert(after.nodes[m] == network.nodes[m]);
        }
    }
}

/// What arrives at a node may stay in the network, or a duplicate of it, but nothing else.
proof fn lemma_forwarded_from(
    network: NetworkView,
    node: int,
    data: PacketView,
    roll: Roll,
    now: Nanos,
    sources: Set<Seq<char>>,
)
    requires
        packets_from(network, sources),
        0 <= node < network.nodes.len(),
        sources.contains(data.source_id),
    ensures
        packets_from(network.forwarded(node, data, roll, now), sources),
{
    let n = network.nodes[node];
    let seen = NetworkView {
        tracer: network.tracer.packet_in_node(now, n.id, data, false),
        ..network
    };
    let (rng_state, id) = drawn_u128(roll.rng_state);
    let copy = PacketView { id, duplicate: true, ..data };
    let drawn = NetworkView { rng_state, ..seen };
    lemma_taken_in_from(drawn, node, data, now, sources);
    let first = drawn.taken_in(node, data, now);
    let told = NetworkView {
        tracer: first.tracer.injected_failures(now, n.id, copy, true, 0, false),
        ..first
    };
    lemma_taken_in_from(told, node, copy, now, sources);
    lemma_taken_in_from(
        NetworkView { rng_state: roll.rng_state, ..seen },
        node,
        data,
        now,
        sources,
    );
}

proof fn lemma_handed_from(
    network: NetworkView,
    node: int,
    packet: BufferedView,
    links: Seq<usize>,
    rolls: Seq<(Roll, Roll)>,
    count: nat,
    sources: Set<Seq<char>>,
)
    requires
        packets_from(network, sources),
        sources.contains(packet.data.source_id),
        count <= links.len(),
        forall|k: int| 0 <= k < links.len() ==> #[trigger] links[k] < network.links.len(),
    ensures
        packets_from(network.handed_to_links(node, packet, links, rolls, count), sources),
        network.handed_to_links(node, packet, links, rolls, count).links.len()
            == network.links.len(),
    decreases count,
{
    if count > 0 {
        lemma_handed_from(network, node, packet, links, rolls, (count - 1) as nat, sources);
        let before = network.handed_to_links(node, packet, links, rolls, (count - 1) as nat);
        let link = links[count - 1] as int;
        let after = before.handed_to_link(node, packet, links, link, rolls[count - 1]);
        assert(link_from(before.links[link], sources));
        assert(link_from(after.links[link], sources));
        assert forall|l: int| 0 <= l < after.links.len() implies link_from(
            #[trigger] after.links[l],
            sources,
        ) by {
            if l != link {
                assert(after.links[l] == before.links[l]);
            }
        }
        assert forall|n: int| 0 <= n < after.nodes.len() implies node_from(
            #[trigger] after.nodes[n],
            sources,
        ) by {
            assert(after.nodes[n] == before.nodes[n]);
        }
    }
}

proof fn lemma_dispatched_from(
    network: NetworkView,
    node: int,
    rolls: Seq<(Roll, Roll)>,
    sources: Set<Seq<char>>,
)
    requires
        packets_from(network, sources),
        0 <= node < network.nodes.len(),
        network.nodes[node].outbound.len() > 0,
        network.links.len() <= usize::MAX,
    ensures
        packets_from(network.dispatched(node, rolls), sources),
{
    let n = network.nodes[node];
    let links = network.next_links(node);
    let rest = NodeView { outbound: n.outbound.skip(1), ..n };
    let popped = NetworkView { nodes: network.nodes.update(node, rest), ..network };
    assert(node_from(n, sources));
    assert(sources.contains(n.outbound[0].data.source_id));
    assert(node_from(rest, sources)) by {
        assert forall|k: int| 0 <= k < rest.outbound.len() implies sources.contains(
            (#[trigger] rest.outbound[k]).data.source_id,
        ) by {
            assert(rest.outbound[k] == n.outbound[k + 1]);
        }
    }
    assert forall|m: int| 0 <= m < popped.nodes.len() implies node_from(
        #[trigger] popped.nodes[m],
        sources,
    ) by {
        if m != node {
            assert(popped.nodes[m] == network.nodes[m]);
        }
    }
    assert forall|k: int| 0 <= k < links.len() implies #[trigger] links[k] < popped.links.len() by {
        assert(links.contains(links[k]));
        law_links_lead_towards_destination(
            network.links,
            network.routes_by_addr,
            n.addresses,
            n.outbound[0].data.transmit.destination.ip,
            links[k],
        );
    }
    lemma_handed_from(popped, node, n.outbound[0], links, rolls, links.len(), sources);
}

/// Changing one link keeps the origins of all packets, if it keeps those of the link's packets.
proof fn lemma_link_changed_from(
    network: NetworkView,
    after: NetworkView,
    link: int,
    sources: Set<Seq<char>>,
)
    requires
        packets_from(network, sources),
        0 <= link < network.links.len(),
        after.links == network.links.update(link, after.links[link]),
        link_from(after.links[link], sources),
        after.nodes == network.nodes,
    ensures
        packets_from(after, sources),
{
    assert forall|l: int| 0 <= l < after.links.len() implies link_from(
        #[trigger] after.links[l],
        sources,
    ) by {
        if l != link {
            assert(after.links[l] == network.links[l]);
        }
    }
}

proof fn lemma_reacted_from(
    network: NetworkView,
    link: usize,
    event: LinkEvent,
    now: Nanos,
    packet_delay: Nanos,
    sources: Set<Seq<char>>,
)
    requires
        network.wf(),
        packets_from(network, sources),
        link < network.links.len(),
    ensures
        packets_from(
            NetworkView {
                links: network.links.update(
                    link as int,
                    network.links[link as int].step(
                        link,
                        event,
                        network.link_packet_handled(link as int),
                        network.link_packet_node_down(link as int),
                        now,
                        packet_delay,
                    ).0,
                ),
                ..network
            },
            sources,
        ),
{
    let before = network.links[link as int];
    let handled = network.link_packet_handled(link as int);
    let node_down = network.link_packet_node_down(link as int);
    let next = before.step(link, event, handled, node_down, now, packet_delay).0;
    assert(before.wf());
    assert(link_from(before, sources));
    law_links_are_fifo(before, link, event, handled, node_down, now, packet_delay);
    assert forall|k: int| 0 <= k < next.outgoing.len() implies sources.contains(
        (#[trigger] next.outgoing[k]).data.source_id,
    ) by {
        let skipped = before.outgoing.len() - next.outgoing.len();
        assert(next.outgoing[k] == before.outgoing[k + skipped]);
    }
    if before.current is None && next.current is Some {
        assert(sources.contains(before.outgoing[0].data.source_id));
    }
    lemma_link_changed_from(
        network,
        NetworkView { links: network.links.update(link as int, next), ..network },
        link as int,
        sources,
    );
}

proof fn lemma_completed_from(
    network: NetworkView,
    link: int,
    now: Nanos,
    packet_delay: Nanos,
    sources: Set<Seq<char>>,
)
    requires
        network.wf(),
        packets_from(network, sources),
        0 <= link < network.links.len(),
        network.can_complete(link, now, packet_delay),
    ensures
        packets_from(network.completed(link, now, packet_delay), sources),
{
    let l = network.links[link];
    let packet = l.current->0;
    let after = network.completed(link, now, packet_delay);
    assert(link_from(l, sources));
    assert(link_from(after.links[link], sources)) by {
        if after.links[link].in_transit != l.in_transit {
            law_sending_needs_a_link_that_is_up(
                network,
                link,
                now,
                packet_delay,
            );
            lemma_enqueued_from(
                l.in_transit,
                QueuedView {
                    data: marked(packet.data, packet.anomalies),
                    sent: now,
                    arrives_at: (now + l.delay + packet.anomalies.extra_delay) as Nanos,
                },
                sources,
            );
        }
    }
    let same_nodes = NetworkView { nodes: network.nodes, ..after };
    lemma_link_changed_from(network, same_nodes, link, sources);
    assert forall|n: int| 0 <= n < after.nodes.len() implies node_from(
        #[trigger] after.nodes[n],
        sources,
    ) by {
        assert(node_from(network.nodes[n], sources));
        assert(after.nodes[n].outbound == network.nodes[n].outbound);
        assert(after.nodes[n].udp_endpoints == network.nodes[n].udp_endpoints);
    }
}

proof fn lemma_came_out_from(
    network: NetworkView,
    link: int,
    packets: Seq<QueuedView>,
    draw: spec_fn(u64) -> Roll,
    now: Nanos,
    sources: Set<Seq<char>>,
)
    requires
        packets_from(network, sources),
        queue_from(packets, sources),
    ensures
        packets_from(network.all_came_out(link, packets, draw, now), sources),
    decreases packets.len(),
{
    if packets.len() > 0 {
        let front = packets.drop_last();
        assert forall|k: int| 0 <= k < front.len() implies sources.contains(
            (#[trigger] front[k]).data.source_id,
        ) by {
            assert(front[k] == packets[k]);
        }
        lemma_came_out_from(network, link, front, draw, now, sources);
        let before = network.all_came_out(link, front, draw, now);
        let packet = packets.last();
        assert(packet == packets[packets.len() - 1]);
        let left = before.left_link(link, packet, now);
        if let Some(node) = before.reached_node(link, packet) {
            lemma_first_index(
                before.nodes,
                |n: NodeView| n.addresses.contains(before.links[link].target),
            );
            lemma_forwarded_from(left, node, packet.data, draw(left.rng_state), now, sources);
        }
    }
}

proof fn lemma_event_from(
    network: NetworkView,
    event: NetworkEventKind,
    now: Nanos,
    sources: Set<Seq<char>>,
)
    requires
        packets_from(network, sources),
    ensures
        packets_from(network.event_processed(event, now), sources),
{
    let after = network.event_processed(event, now);
    match event {
        NetworkEventKind::Link(link) => {
            lemma_first_index(network.links, |l: LinkView| l.id@ == link.link_id@);
        },
        NetworkEventKind::Node(node) => {
            lemma_first_index(network.nodes, |n: NodeView| n.id@ == node.node_id@);
        },
    }
    assert forall|n: int| 0 <= n < after.nodes.len() implies node_from(
        #[trigger] after.nodes[n],
        sources,
    ) by {
        assert(node_from(network.nodes[n], sources));
        assert(after.nodes[n].outbound == network.nodes[n].outbound);
        assert(after.nodes[n].udp_endpoints == network.nodes[n].udp_endpoints);
    }
    assert forall|l: int| 0 <= l < after.links.len() implies link_from(
        #[trigger] after.links[l],
        sources,
    ) by {
        assert(link_from(network.links[l], sources));
        assert(after.links[l].outgoing == network.links[l].outgoing);
        assert(after.links[l].current == network.links[l].current);
        assert(after.links[l].in_transit == network.links[l].in_transit);
    }
}

proof fn lemma_read_from(
    network: NetworkView,
    node: int,
    endpoint: int,
    now: Nanos,
    max: usize,
    sources: Set<Seq<char>>,
)
    requires
        packets_from(network, sources),
        0 <= node < network.nodes.len(),
        0 <= endpoint < network.nodes[node].udp_endpoints.len(),
    ensures
        packets_from(network.read(node, endpoint, now, max), sources),
{
    let n = network.nodes[node];
    let after = network.read(node, endpoint, now, max);
    let inbound = n.udp_endpoints[endpoint].inbound;
    assert(node_from(n, sources));
    lemma_first_index(inbound, |p: QueuedView| p.arrives_at > now);
    lemma_skipped_from(
        inbound,
        due(inbound, now, max),
        sources,
    );
    assert forall|e: int| 0 <= e < after.nodes[node].udp_endpoints.len() implies queue_from(
        (#[trigger] after.nodes[node].udp_endpoints[e]).inbound,
        sources,
    ) by {
        if e != endpoint {
            assert(after.nodes[node].udp_endpoints[e] == n.udp_endpoints[e]);
        }
    }
    assert forall|m: int| 0 <= m < after.nodes.len() implies node_from(
        #[trigger] after.nodes[m],
        sources,
    ) by {
        if m != node {
            assert(after.nodes[m] == network.nodes[m]);
        }
    }
}

proof fn lemma_step_from(
    network: NetworkView,
    step: NetworkStep,
    draw: spec_fn(u64) -> Roll,
    sources: Set<Seq<char>>,
)
    requires
        packets_from(network, sources),
        network.allows(step),
        step matches NetworkStep::Send { node, .. } ==> sources.contains(
            network.nodes[node].id@,
        ),
    ensures
        packets_from(network.after(step, draw), sources),
{
    match step {
        NetworkStep::Send { node, transmit, now } => {
            let created = network.packet_created();
            lemma_forwarded_from(
                created,
                node,
                network.new_packet(network.nodes[node].id@, transmit),
                draw(created.rng_state),
                now,
                sources,
            );
        },
        NetworkStep::Dispatch { node } => {
            lemma_dispatched_from(
                network,
                node,
                drawn_for_links(draw, network.rng_state, network.next_links(node).len()).0,
                sources,
            );
        },
        NetworkStep::React { link, event, now, packet_delay } => {
            lemma_reacted_from(network, link as usize, event, now, packet_delay, sources);
        },
        NetworkStep::Complete { link, now, packet_delay } => {
            lemma_completed_from(network, link, now, packet_delay, sources);
        },
        NetworkStep::Deliver { link, now, max } => {
            let in_transit = network.links[link].in_transit;
            assert(link_from(network.links[link], sources));
            lemma_first_index(in_transit, |p: QueuedView| p.arrives_at > now);
            lemma_skipped_from(
                in_transit,
                due(in_transit, now, max),
                sources,
            );
            let taken = network.taken_from_link(link, now, max);
            lemma_link_changed_from(network, taken, link, sources);
            lemma_came_out_from(
                taken,
                link,
                network.at_link_end(link, now, max),
                draw,
                now,
                sources,
            );
        },
        NetworkStep::Read { node, endpoint, now, max } => {
            lemma_read_from(network, node, endpoint, now, max, sources);
        },
        NetworkStep::Event { kind, now } => {
            lemma_event_from(network, kind, now, sources);
        },
        NetworkStep::Open { node, port } => {
            assert(node_from(network.nodes[node], sources));
            lemma_endpoint_from(network.nodes[node], port, sources);
            let after = network.after(step, draw);
            assert forall|m: int| 0 <= m < after.nodes.len() implies node_from(
                #[trigger] after.nodes[m],
                sources,
            ) by {
                if m != node {
                    assert(after.nodes[m] == network.nodes[m]);
                }
            }
        },
        NetworkStep::Show => {},
    }
}

/// Packets are only sent at nodes whose id is among the sources.
pub open spec fn sends_from(
    network: NetworkView,
    steps: Seq<NetworkStep>,
    draw: spec_fn(u64) -> Roll,
    sources: Set<Seq<char>>,
) -> bool
    decreases steps.len(),
{
    steps.len() > 0 ==> sends_from(network, steps.drop_last(), draw, sources) && (
    steps.last() matches NetworkStep::Send { node, .. } ==> sources.contains(
        network.run(steps.drop_last(), draw).nodes[node].id@,
    ))
}

/// Packets are created where they are sent, and nowhere else: whatever is done to a network, its
/// packets come from the nodes at which packets are sent.
pub proof fn law_packets_come_from_their_senders(
    network: NetworkView,
    steps: Seq<NetworkStep>,
    draw: spec_fn(u64) -> Roll,
    sources: Set<Seq<char>>,
)
    requires
        packets_from(network, sources),
        network.allows_all(steps, draw),
        sends_from(network, steps, draw, sources),
    ensures
        packets_from(network.run(steps, draw), sources),
    decreases steps.len(),
{
    if steps.len() > 0 {
        law_packets_come_from_their_senders(network, steps.drop_last(), draw, sources);
        lemma_step_from(network.run(steps.drop_last(), draw), steps.last(), draw, sources);
    }
}

proof fn lemma_link_events_from(
    network: NetworkView,
    events: Seq<LinkEventPayload>,
    now: Nanos,
    sources: Set<Seq<char>>,
)
    requires
        packets_from(network, sources),
    ensures
        packets_from(network.link_events_processed(events, now), sources),
    decreases events.len(),
{
    if events.len() > 0 {
        lemma_link_events_from(network, events.drop_last(), now, sources);
        lemma_event_from(
            network.link_events_processed(events.drop_last(), now),
            NetworkEventKind::Link(events.last()),
            now,
            sources,
        );
    }
}

proof fn lemma_node_events_from(
    network: NetworkView,
    events: Seq<NodeEventPayload>,
    now: Nanos,
    sources: Set<Seq<char>>,
)
    requires
        packets_from(network, sources),
    ensures
        packets_from(network.node_events_processed(events, now), sources),
    decreases events.len(),
{
    if events.len() > 0 {
        lemma_node_events_from(network, events.drop_last(), now, sources);
        lemma_event_from(
            network.node_events_processed(events.drop_last(), now),
            NetworkEventKind::Node(events.last()),
            now,
            sources,
        );
    }
}

/// The ids of the hosts.
pub open spec fn host_ids(nodes: Seq<NetworkNodeSpec>) -> Set<Seq<char>> {
    Set::new(
        |id: Seq<char>|
            exists|n: int|
                0 <= n < nodes.len() && (#[trigger] nodes[n]).kind == NodeKind::Host && nodes[n].id@
                    == id,
    )
}

/// Packets are only created at hosts, if hosts are the only nodes at which packets are sent: from the
/// time the network is set up, all its packets come from hosts.
pub proof fn law_packets_are_only_created_at_hosts(
    network: NetworkView,
    spec: NetworkSpec,
    events: NetworkEvents,
    tracer: TracerView,
    rng_state: u64,
    now: Nanos,
    steps: Seq<NetworkStep>,
    draw: spec_fn(u64) -> Roll,
)
    requires
        is_initialized(network, spec, events, tracer, rng_state, now),
        network.allows_all(steps, draw),
        sends_from(network, steps, draw, host_ids(spec.nodes@)),
    ensures
        packets_from(network.run(steps, draw), host_ids(spec.nodes@)),
{
    let hosts = host_ids(spec.nodes@);
    let initial = choose|initial: NetworkView| #[trigger]
        is_initial(initial, spec, tracer, rng_state, now) && network
            == initial.link_events_processed(
            events.initial_link_events@,
            now,
        ).node_events_processed(events.initial_node_events@, now);
    assert forall|n: int| 0 <= n < initial.nodes.len() implies node_from(
        #[trigger] initial.nodes[n],
        hosts,
    ) by {
        assert(is_new_node(
            initial.nodes[n],
            spec.nodes@[n],
            link_ends(spec.links@),
        ));
    }
    assert forall|l: int| 0 <= l < initial.links.len() implies link_from(
        #[trigger] initial.links[l],
        hosts,
    ) by {
        assert(initial.links[l] == NetworkLink::of_spec(
            spec.links@[l],
            now,
        ));
    }
    lemma_link_events_from(initial, events.initial_link_events@, now, hosts);
    lemma_node_events_from(
        initial.link_events_processed(events.initial_link_events@, now),
        events.initial_node_events@,
        now,
        hosts,
    );
    law_packets_come_from_their_senders(network, steps, draw, hosts);
}

} // verus!
