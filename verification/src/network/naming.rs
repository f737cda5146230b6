//! Each ticket stands for one packet, over a whole run.

use crate::network::event::{NetworkEventKind, NetworkEvents};
use crate::network::handling::{
    law_new_network_holds_nothing, lemma_handing_keeps_tickets, lemma_next_links_exist,
};
use crate::network::inbound_queue::QueuedView;
use crate::network::laws::law_links_are_fifo;
use crate::network::link::{LinkView, OutgoingView};
use crate::network::node::{BufferedView, NodeStatus, NodeView};
use crate::network::run::{drawn_for_links, NetworkStep};
use crate::network::setup::is_initialized;
use crate::network::spec::NetworkSpec;
use crate::network::NetworkView;
use crate::random::{drawn_u128, Roll};
use crate::search::lemma_first_index;
use crate::time::Nanos;
use crate::tracing::tracer::TracerView;
use crate::transmit::PacketView;
use vstd::prelude::*;

verus! {

/// A packet that waits in a node, in its buffer or at one of its links.
#[verifier::ext_equal]
pub struct WaitingPacket {
    pub node: int,
    pub in_node_since: Nanos,
    pub data: PacketView,
}

/// The ticket stands for the packet.
pub open spec fn is_named(names: Seq<WaitingPacket>, ticket: usize, packet: WaitingPacket) -> bool {
    ticket < names.len() && names[ticket as int] == packet
}

/// The packet in the buffer of the node is the one that its ticket stands for.
pub open spec fn buffered_is_named(
    names: Seq<WaitingPacket>,
    node: int,
    packet: BufferedView,
) -> bool {
    is_named(
        names,
        packet.ticket,
        WaitingPacket { node, in_node_since: packet.in_node_since, data: packet.data },
    )
}

/// The packet at a link is the one that its ticket stands for.
pub open spec fn outgoing_is_named(names: Seq<WaitingPacket>, packet: OutgoingView) -> bool {
    is_named(
        names,
        packet.ticket,
        WaitingPacket {
            node: packet.src_node as int,
            in_node_since: packet.in_node_since,
            data: packet.data,
        },
    )
}

pub open spec fn node_is_named(names: Seq<WaitingPacket>, n: int, node: NodeView) -> bool {
    forall|k: int|
        0 <= k < node.outbound.len() ==> buffered_is_named(names, n, #[trigger] node.outbound[k])
}

pub open spec fn link_is_named(names: Seq<WaitingPacket>, link: LinkView) -> bool {
    &&& forall|k: int|
        0 <= k < link.outgoing.len() ==> outgoing_is_named(names, #[trigger] link.outgoing[k])
    &&& link.current matches Some(packet) ==> outgoing_is_named(names, packet)
}

/// Every packet that waits in the network is the one that its ticket stands for.
pub open spec fn tickets_name_packets(network: NetworkView, names: Seq<WaitingPacket>) -> bool {
    &&& forall|n: int|
        0 <= n < network.nodes.len() ==> node_is_named(names, n, #[trigger] network.nodes[n])
    &&& forall|l: int|
        0 <= l < network.links.len() ==> link_is_named(names, #[trigger] network.links[l])
}

/// There is a name for each ticket that was given out.
spec fn all_are_named(network: NetworkView, names: Seq<WaitingPacket>) -> bool {
    names.len() == network.tickets.len() && tickets_name_packets(network, names)
}

/// New tickets do not change what the others stand for.
proof fn lemma_more_names(
    network: NetworkView,
    names: Seq<WaitingPacket>,
    more: Seq<WaitingPacket>,
)
    requires
        tickets_name_packets(network, names),
        names.is_prefix_of(more),
    ensures
        tickets_name_packets(network, more),
{
    assert forall|t: int| 0 <= t < names.len() implies #[trigger] more[t] == names[t] by {
        assert(more.subrange(0, names.len() as int)[t] == names[t]);
    }
    assert forall|n: int| 0 <= n < network.nodes.len() implies node_is_named(
        more,
        n,
        #[trigger] network.nodes[n],
    ) by {
        assert(node_is_named(names, n, network.nodes[n]));
        assert forall|k: int| 0 <= k < network.nodes[n].outbound.len() implies buffered_is_named(
            more,
            n,
            #[trigger] network.nodes[n].outbound[k],
        ) by {
            assert(buffered_is_named(names, n, network.nodes[n].outbound[k]));
        }
    }
    assert forall|l: int| 0 <= l < network.links.len() implies link_is_named(
        more,
        #[trigger] network.links[l],
    ) by {
        assert(link_is_named(names, network.links[l]));
        assert forall|k: int| 0 <= k < network.links[l].outgoing.len() implies outgoing_is_named(
            more,
            #[trigger] network.links[l].outgoing[k],
        ) by {
            assert(outgoing_is_named(names, network.links[l].outgoing[k]));
        }
    }
}

proof fn lemma_taken_in_is_named(
    network: NetworkView,
    node: int,
    data: PacketView,
    now: Nanos,
    names: Seq<WaitingPacket>,
) -> (more: Seq<WaitingPacket>)
    requires
        all_are_named(network, names),
        0 <= node < network.nodes.len(),
        network.taken_in(node, data, now).tickets.len() <= usize::MAX,
    ensures
        all_are_named(network.taken_in(node, data, now), more),
        names.is_prefix_of(more),
        network.taken_in(node, data, now).nodes.len() == network.nodes.len(),
        network.taken_in(node, data, now).tickets.len() >= network.tickets.len(),
{
    let n = network.nodes[node];
    let after = network.taken_in(node, data, now);
    assert(node_is_named(names, node, n));
    if after.tickets.len() > network.tickets.len() {
        let more = names.push(WaitingPacket { node, in_node_since: now, data });
        assert(names =~= more.subrange(0, names.len() as int));
        lemma_more_names(network, names, more);
        assert(node_is_named(more, node, n));
        assert forall|m: int| 0 <= m < after.nodes.len() implies node_is_named(
            more,
            m,
            #[trigger] after.nodes[m],
        ) by {
            if m != node {
                assert(after.nodes[m] == network.nodes[m]);
            } else {
                assert forall|k: int| 0 <= k < after.nodes[m].outbound.len() implies
                    buffered_is_named(more, m, #[trigger] after.nodes[m].outbound[k]) by {
                    if k < n.outbound.len() {
                        assert(after.nodes[m].outbound[k] == n.outbound[k]);
                    }
                }
            }
        }
        more
    } else {
        assert forall|m: int| 0 <= m < after.nodes.len() implies node_is_named(
            names,
            m,
            #[trigger] after.nodes[m],
        ) by {
            assert(after.nodes[m].outbound == network.nodes[m].outbound);
        }
        assert(names =~= names.subrange(0, names.len() as int));
        names
    }
}

proof fn lemma_forwarded_is_named(
    network: NetworkView,
    node: int,
    data: PacketView,
    roll: Roll,
    now: Nanos,
    names: Seq<WaitingPacket>,
) -> (more: Seq<WaitingPacket>)
    requires
        all_are_named(network, names),
        0 <= node < network.nodes.len(),
        network.forwarded(node, data, roll, now).tickets.len() <= usize::MAX,
    ensures
        all_are_named(network.forwarded(node, data, roll, now), more),
        names.is_prefix_of(more),
        network.forwarded(node, data, roll, now).nodes.len() == network.nodes.len(),
{
    let n = network.nodes[node];
    let seen = NetworkView {
        tracer: network.tracer.packet_in_node(now, n.id, data, false),
        ..network
    };
    assert(names =~= names.subrange(0, names.len() as int));
    if n.status == NodeStatus::Down || n.loses(roll) {
        names
    } else if n.duplicates(roll) {
        let (rng_state, id) = drawn_u128(roll.rng_state);
        let copy = PacketView { id, duplicate: true, ..data };
        let drawn = NetworkView { rng_state, ..seen };
        let first = drawn.taken_in(node, data, now);
        let told = NetworkView {
            tracer: first.tracer.injected_failures(now, n.id, copy, true, 0, false),
            ..first
        };
        assert(told.taken_in(node, copy, now).tickets.len() >= first.tickets.len());
        let some = lemma_taken_in_is_named(drawn, node, data, now, names);
        let more = lemma_taken_in_is_named(told, node, copy, now, some);
        assert(names =~= more.subrange(0, names.len() as int)) by {
            assert(names =~= some.subrange(0, names.len() as int));
            assert(some =~= more.subrange(0, some.len() as int));
        }
        more
    } else {
        lemma_taken_in_is_named(
            NetworkView { rng_state: roll.rng_state, ..seen },
            node,
            data,
            now,
            names,
        )
    }
}

proof fn lemma_tickets_only_added(
    network: NetworkView,
    node: int,
    data: PacketView,
    roll: Roll,
    now: Nanos,
)
    ensures
        network.forwarded(node, data, roll, now).tickets.len() >= network.tickets.len(),
{
}

proof fn lemma_came_out_is_named(
    network: NetworkView,
    link: int,
    packets: Seq<QueuedView>,
    draw: spec_fn(u64) -> Roll,
    now: Nanos,
    names: Seq<WaitingPacket>,
) -> (more: Seq<WaitingPacket>)
    requires
        all_are_named(network, names),
        network.all_came_out(link, packets, draw, now).tickets.len() <= usize::MAX,
    ensures
        all_are_named(network.all_came_out(link, packets, draw, now), more),
        names.is_prefix_of(more),
    decreases packets.len(),
{
    assert(names =~= names.subrange(0, names.len() as int));
    if packets.len() == 0 {
        names
    } else {
        let before = network.all_came_out(link, packets.drop_last(), draw, now);
        let packet = packets.last();
        let left = before.left_link(link, packet, now);
        if let Some(node) = before.reached_node(link, packet) {
            lemma_tickets_only_added(left, node, packet.data, draw(left.rng_state), now);
        }
        let some = lemma_came_out_is_named(network, link, packets.drop_last(), draw, now, names);
        assert(all_are_named(left, some));
        match before.reached_node(link, packet) {
            Some(node) => {
                lemma_first_index(
                    before.nodes,
                    |n: NodeView| n.addresses.contains(before.links[link].target),
                );
                let more = lemma_forwarded_is_named(
                    left,
                    node,
                    packet.data,
                    draw(left.rng_state),
                    now,
                    some,
                );
                assert(names =~= more.subrange(0, names.len() as int)) by {
                    assert(names =~= some.subrange(0, names.len() as int));
                    assert(some =~= more.subrange(0, some.len() as int));
                }
                more
            },
            None => some,
        }
    }
}

proof fn lemma_handed_is_named(
    network: NetworkView,
    node: int,
    packet: BufferedView,
    links: Seq<usize>,
    rolls: Seq<(Roll, Roll)>,
    count: nat,
    names: Seq<WaitingPacket>,
)
    requires
        all_are_named(network, names),
        buffered_is_named(names, node, packet),
        0 <= node <= usize::MAX,
        count <= links.len(),
        forall|k: int| 0 <= k < links.len() ==> #[trigger] links[k] < network.links.len(),
    ensures
        all_are_named(network.handed_to_links(node, packet, links, rolls, count), names),
        network.handed_to_links(node, packet, links, rolls, count).links.len()
            == network.links.len(),
    decreases count,
{
    if count > 0 {
        lemma_handed_is_named(network, node, packet, links, rolls, (count - 1) as nat, names);
        let before = network.handed_to_links(node, packet, links, rolls, (count - 1) as nat);
        let link = links[count - 1] as int;
        let after = before.handed_to_link(node, packet, links, link, rolls[count - 1]);
        assert(link_is_named(names, before.links[link]));
        assert(link_is_named(names, after.links[link]));
        assert forall|l: int| 0 <= l < after.links.len() implies link_is_named(
            names,
            #[trigger] after.links[l],
        ) by {
            if l != link {
                assert(after.links[l] == before.links[l]);
            }
        }
        assert forall|n: int| 0 <= n < after.nodes.len() implies node_is_named(
            names,
            n,
            #[trigger] after.nodes[n],
        ) by {
            assert(after.nodes[n] == before.nodes[n]);
        }
    }
}

proof fn lemma_dispatched_is_named(
    network: NetworkView,
    node: int,
    rolls: Seq<(Roll, Roll)>,
    names: Seq<WaitingPacket>,
)
    requires
        all_are_named(network, names),
        network.allows(NetworkStep::Dispatch { node }),
    ensures
        all_are_named(network.dispatched(node, rolls), names),
{
    let n = network.nodes[node];
    let links = network.next_links(node);
    let rest = NodeView { outbound: n.outbound.skip(1), ..n };
    let popped = NetworkView { nodes: network.nodes.update(node, rest), ..network };
    assert(node_is_named(names, node, n));
    assert(buffered_is_named(names, node, n.outbound[0]));
    assert(node_is_named(names, node, rest)) by {
        assert forall|k: int| 0 <= k < rest.outbound.len() implies buffered_is_named(
            names,
            node,
            #[trigger] rest.outbound[k],
        ) by {
            assert(rest.outbound[k] == n.outbound[k + 1]);
        }
    }
    assert forall|m: int| 0 <= m < popped.nodes.len() implies node_is_named(
        names,
        m,
        #[trigger] popped.nodes[m],
    ) by {
        if m != node {
            assert(popped.nodes[m] == network.nodes[m]);
        }
    }
    lemma_next_links_exist(network, node);
    lemma_handed_is_named(popped, node, n.outbound[0], links, rolls, links.len(), names);
}

/// Changing one link keeps all packets named, if it keeps those of the link named.
proof fn lemma_changed_link_is_named(
    before: NetworkView,
    after: NetworkView,
    link: int,
    names: Seq<WaitingPacket>,
)
    requires
        all_are_named(before, names),
        0 <= link < before.links.len(),
        after.links == before.links.update(link, after.links[link]),
        link_is_named(names, after.links[link]),
        after.nodes.len() == before.nodes.len(),
        forall|n: int|
            0 <= n < before.nodes.len() ==> (#[trigger] after.nodes[n]).outbound
                == before.nodes[n].outbound,
        after.tickets.len() == before.tickets.len(),
    ensures
        all_are_named(after, names),
{
    assert forall|n: int| 0 <= n < after.nodes.len() implies node_is_named(
        names,
        n,
        #[trigger] after.nodes[n],
    ) by {
        assert(node_is_named(names, n, before.nodes[n]));
    }
    assert forall|l: int| 0 <= l < after.links.len() implies link_is_named(
        names,
        #[trigger] after.links[l],
    ) by {
        if l != link {
            assert(after.links[l] == before.links[l]);
        }
    }
}

proof fn lemma_reacted_is_named(
    network: NetworkView,
    step: NetworkStep,
    draw: spec_fn(u64) -> Roll,
    link: int,
    names: Seq<WaitingPacket>,
)
    requires
        all_are_named(network, names),
        network.allows(step),
        step matches NetworkStep::React { link: l, .. } && l == link,
    ensures
        all_are_named(network.after(step, draw), names),
{
    let before = network.links[link];
    let after = network.after(step, draw).links[link];
    assert(link_is_named(names, before));
    if let NetworkStep::React { event, now, packet_delay, .. } = step {
        law_links_are_fifo(
            before,
            link as usize,
            event,
            network.link_packet_handled(link),
            network.link_packet_node_down(link),
            now,
            packet_delay,
        );
    }
    let taken = before.outgoing.len() - after.outgoing.len();
    assert forall|k: int| 0 <= k < after.outgoing.len() implies outgoing_is_named(
        names,
        #[trigger] after.outgoing[k],
    ) by {
        assert(after.outgoing[k] == before.outgoing[k + taken]);
        assert(outgoing_is_named(names, before.outgoing[k + taken]));
    }
    assert(after.current matches Some(packet) ==> outgoing_is_named(names, packet)) by {
        if before.current is None && after.current is Some {
            assert(outgoing_is_named(names, before.outgoing[0]));
        }
    }
    lemma_changed_link_is_named(network, network.after(step, draw), link, names);
}

/// The packets that wait are where they were, in the same order.
spec fn all_wait_where_they_did(before: NetworkView, after: NetworkView) -> bool {
    &&& after.tickets.len() == before.tickets.len()
    &&& after.nodes.len() == before.nodes.len()
    &&& forall|n: int|
        0 <= n < before.nodes.len() ==> (#[trigger] after.nodes[n]).outbound
            == before.nodes[n].outbound
    &&& after.links.len() == before.links.len()
    &&& forall|l: int|
        0 <= l < before.links.len() ==> (#[trigger] after.links[l]).outgoing
            == before.links[l].outgoing && after.links[l].current == before.links[l].current
}

proof fn lemma_same_packets_are_named(
    before: NetworkView,
    after: NetworkView,
    names: Seq<WaitingPacket>,
)
    requires
        all_are_named(before, names),
        all_wait_where_they_did(before, after),
    ensures
        all_are_named(after, names),
{
    assert forall|n: int| 0 <= n < after.nodes.len() implies node_is_named(
        names,
        n,
        #[trigger] after.nodes[n],
    ) by {
        assert(node_is_named(names, n, before.nodes[n]));
    }
    assert forall|l: int| 0 <= l < after.links.len() implies link_is_named(
        names,
        #[trigger] after.links[l],
    ) by {
        assert(link_is_named(names, before.links[l]));
        assert(after.links[l].outgoing == before.links[l].outgoing);
    }
}

proof fn lemma_event_keeps_names(
    network: NetworkView,
    kind: NetworkEventKind,
    now: Nanos,
    names: Seq<WaitingPacket>,
)
    requires
        all_are_named(network, names),
    ensures
        all_are_named(network.event_processed(kind, now), names),
{
    match kind {
        NetworkEventKind::Link(link) => {
            lemma_first_index(network.links, |l: LinkView| l.id@ == link.link_id@);
        },
        NetworkEventKind::Node(node) => {
            lemma_first_index(network.nodes, |n: NodeView| n.id@ == node.node_id@);
        },
    }
    lemma_same_packets_are_named(network, network.event_processed(kind, now), names);
}

proof fn lemma_step_is_named(
    network: NetworkView,
    step: NetworkStep,
    draw: spec_fn(u64) -> Roll,
    names: Seq<WaitingPacket>,
) -> (more: Seq<WaitingPacket>)
    requires
        all_are_named(network, names),
        network.allows(step),
        network.after(step, draw).tickets.len() <= usize::MAX,
    ensures
        all_are_named(network.after(step, draw), more),
        names.is_prefix_of(more),
{
    let after = network.after(step, draw);
    assert(names =~= names.subrange(0, names.len() as int));
    match step {
        NetworkStep::Send { node, transmit, now } => {
            let created = network.packet_created();
            lemma_same_packets_are_named(network, created, names);
            lemma_forwarded_is_named(
                created,
                node,
                network.new_packet(network.nodes[node].id@, transmit),
                draw(created.rng_state),
                now,
                names,
            )
        },
        NetworkStep::Dispatch { node } => {
            lemma_dispatched_is_named(
                network,
                node,
                drawn_for_links(draw, network.rng_state, network.next_links(node).len()).0,
                names,
            );
            names
        },
        NetworkStep::React { link, .. } => {
            lemma_reacted_is_named(network, step, draw, link, names);
            names
        },
        NetworkStep::Complete { link, .. } => {
            assert(link_is_named(names, network.links[link]));
            assert(link_is_named(names, after.links[link]));
            lemma_changed_link_is_named(network, after, link, names);
            names
        },
        NetworkStep::Deliver { link, now, max } => {
            let taken = network.taken_from_link(link, now, max);
            lemma_same_packets_are_named(network, taken, names);
            lemma_came_out_is_named(
                taken,
                link,
                network.at_link_end(link, now, max),
                draw,
                now,
                names,
            )
        },
        NetworkStep::Event { kind, now } => {
            lemma_event_keeps_names(network, kind, now, names);
            names
        },
        _ => {
            lemma_same_packets_are_named(network, after, names);
            names
        },
    }
}

proof fn lemma_came_out_adds_tickets(
    network: NetworkView,
    link: int,
    packets: Seq<QueuedView>,
    draw: spec_fn(u64) -> Roll,
    now: Nanos,
)
    ensures
        network.all_came_out(link, packets, draw, now).tickets.len() >= network.tickets.len(),
    decreases packets.len(),
{
    if packets.len() > 0 {
        lemma_came_out_adds_tickets(network, link, packets.drop_last(), draw, now);
        let before = network.all_came_out(link, packets.drop_last(), draw, now);
        let packet = packets.last();
        let left = before.left_link(link, packet, now);
        if let Some(node) = before.reached_node(link, packet) {
            lemma_tickets_only_added(left, node, packet.data, draw(left.rng_state), now);
        }
    }
}

proof fn lemma_step_adds_tickets(
    network: NetworkView,
    step: NetworkStep,
    draw: spec_fn(u64) -> Roll,
)
    requires
        network.allows(step),
    ensures
        network.after(step, draw).tickets.len() >= network.tickets.len(),
{
    match step {
        NetworkStep::Send { node, transmit, now } => {
            let created = network.packet_created();
            lemma_tickets_only_added(
                created,
                node,
                network.new_packet(network.nodes[node].id@, transmit),
                draw(created.rng_state),
                now,
            );
        },
        NetworkStep::Dispatch { node } => {
            lemma_handing_keeps_tickets(network, node, draw);
        },
        NetworkStep::Deliver { link, now, max } => {
            lemma_came_out_adds_tickets(
                network.taken_from_link(link, now, max),
                link,
                network.at_link_end(link, now, max),
                draw,
                now,
            );
        },
        _ => {},
    }
}

/// At all times of the run, every packet that waits is the one that its ticket stands for.
pub open spec fn always_name_packets(
    network: NetworkView,
    steps: Seq<NetworkStep>,
    draw: spec_fn(u64) -> Roll,
    names: Seq<WaitingPacket>,
) -> bool {
    forall|i: int|
        0 <= i <= steps.len() ==> tickets_name_packets(
            #[trigger] network.run(steps.take(i), draw),
            names,
        )
}

proof fn lemma_run_is_named(
    network: NetworkView,
    steps: Seq<NetworkStep>,
    draw: spec_fn(u64) -> Roll,
    names: Seq<WaitingPacket>,
) -> (more: Seq<WaitingPacket>)
    requires
        all_are_named(network, names),
        network.allows_all(steps, draw),
        network.run(steps, draw).tickets.len() <= usize::MAX,
    ensures
        all_are_named(network.run(steps, draw), more),
        always_name_packets(network, steps, draw, more),
    decreases steps.len(),
{
    assert(steps.take(steps.len() as int) =~= steps);
    if steps.len() == 0 {
        names
    } else {
        let earlier = steps.drop_last();
        let before = network.run(earlier, draw);
        lemma_step_adds_tickets(before, steps.last(), draw);
        let some = lemma_run_is_named(network, earlier, draw, names);
        let more = lemma_step_is_named(before, steps.last(), draw, some);
        assert forall|i: int| 0 <= i <= steps.len() implies tickets_name_packets(
            #[trigger] network.run(steps.take(i), draw),
            more,
        ) by {
            if i < steps.len() {
                assert(steps.take(i) =~= earlier.take(i));
                assert(tickets_name_packets(network.run(earlier.take(i), draw), some));
                lemma_more_names(network.run(earlier.take(i), draw), some, more);
            }
        }
        more
    }
}

/// Each ticket stands for one packet, from the time a network is set up: wherever and whenever two
/// packets wait that have the same ticket, they are the same packet, which the same node has got at
/// the same time. Tickets are numbered by machine integers, so there are no more of them than fit.
pub proof fn law_tickets_stand_for_one_packet(
    network: NetworkView,
    spec: NetworkSpec,
    events: NetworkEvents,
    tracer: TracerView,
    rng_state: u64,
    now: Nanos,
    steps: Seq<NetworkStep>,
    draw: spec_fn(u64) -> Roll,
)
    requires
        is_initialized(network, spec, events, tracer, rng_state, now),
        network.allows_all(steps, draw),
        network.run(steps, draw).tickets.len() <= usize::MAX,
    ensures
        exists|names: Seq<WaitingPacket>| #[trigger]
            always_name_packets(network, steps, draw, names),
{
    law_new_network_holds_nothing(network, spec, events, tracer, rng_state, now);
    let names = Seq::<WaitingPacket>::empty();
    assert(all_are_named(network, names));
    let more = lemma_run_is_named(network, steps, draw, names);
    assert(always_name_packets(network, steps, draw, more));
}

} // verus!
