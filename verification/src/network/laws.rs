//! What always holds of a network, whatever happens in it.

use crate::network::accounting::{reserved, Ticket, TicketState};
use crate::network::event::NetworkEventKind;
use crate::network::inbound_queue::{enqueued, QueuedView};
use crate::network::link::{marked, LinkAction, LinkEvent, LinkPhase, LinkStatus, LinkView};
use crate::network::node::{BufferedView, NodeStatus, NodeView};
use crate::network::NetworkView;
use crate::random::Roll;
use crate::time::Nanos;
use crate::transmit::PacketView;
use vstd::prelude::*;

verus! {

/// Nodes never exceed their configured buffer size: what the packets take that a node holds is never
/// more than the node's buffer has room for.
pub proof fn law_buffers_are_never_exceeded(network: NetworkView, node: int)
    requires
        network.wf(),
        0 <= node < network.nodes.len(),
    ensures
        reserved(network.tickets, node) <= network.nodes[node].outbound_buffer.capacity,
        reserved(network.tickets, node) == network.nodes[node].outbound_buffer.used,
{
    assert(network.nodes[node].wf());
}

/// A reservation that has ended does not come back, and reservations are never changed otherwise.
pub open spec fn reservations_kept(before: Seq<Ticket>, after: Seq<Ticket>) -> bool {
    &&& before.len() <= after.len()
    &&& forall|t: int|
        0 <= t < before.len() ==> (#[trigger] after[t]).node == before[t].node && after[t].size
            == before[t].size && (before[t].state != TicketState::Waiting ==> after[t].state
            == before[t].state)
}

/// Whatever arrives at a node, reservations that have ended stay that way.
pub proof fn law_forwarding_keeps_reservations(
    network: NetworkView,
    node: int,
    data: PacketView,
    roll: Roll,
    now: Nanos,
)
    ensures
        reservations_kept(network.tickets, network.forwarded(node, data, roll, now).tickets),
{
}

/// Whatever a link completes, reservations that have ended stay that way.
pub proof fn law_completing_keeps_reservations(
    network: NetworkView,
    link: int,
    now: Nanos,
    packet_delay: Nanos,
)
    requires
        network.wf(),
        0 <= link < network.links.len(),
        network.can_complete(link, now, packet_delay),
    ensures
        reservations_kept(network.tickets, network.completed(link, now, packet_delay).tickets),
{
}

/// A packet is sent at most once, however many links are asked to send it: a link puts the packet on
/// its way only if the packet's reservation has not ended yet, and ends it.
pub proof fn law_packet_is_sent_once(
    network: NetworkView,
    link: int,
    now: Nanos,
    packet_delay: Nanos,
)
    requires
        network.wf(),
        0 <= link < network.links.len(),
        network.can_complete(link, now, packet_delay),
    ensures
        ({
            let packet = network.links[link].current->0;
            let after = network.completed(link, now, packet_delay);
            let t = packet.ticket as int;
            &&& after.tickets[t].state != TicketState::Waiting
            &&& network.tickets[t].state != TicketState::Waiting ==> after.links[link].in_transit
                == network.links[link].in_transit
            &&& after.links[link].in_transit != network.links[link].in_transit
                ==> network.tickets[t].state == TicketState::Waiting && after.tickets[t].state
                == TicketState::Sent
            &&& forall|l: int|
                0 <= l < network.links.len() && l != link ==> #[trigger] after.links[l]
                    == network.links[l]
        }),
{
    let packet = network.links[link].current->0;
    assert(network.links[link].current is Some);
    assert(crate::network::accounting::packet_accounted_for(
        network.tickets,
        packet.src_node as int,
        packet.data,
        packet.ticket,
    ));
}

/// Packets are never transmitted through a link that is down, and a packet that is transmitted
/// arrives once the link's delay, and the extra delay that it was given, have passed.
pub proof fn law_sending_needs_a_link_that_is_up(
    network: NetworkView,
    link: int,
    now: Nanos,
    packet_delay: Nanos,
)
    requires
        network.wf(),
        0 <= link < network.links.len(),
        network.can_complete(link, now, packet_delay),
        network.completed(link, now, packet_delay).links[link].in_transit
            != network.links[link].in_transit,
    ensures
        network.links[link].status == LinkStatus::Up,
        ({
            let l = network.links[link];
            let packet = l.current->0;
            network.completed(link, now, packet_delay).links[link].in_transit == enqueued(
                l.in_transit,
                QueuedView {
                    data: marked(packet.data, packet.anomalies),
                    sent: now,
                    arrives_at: (now + l.delay + packet.anomalies.extra_delay) as Nanos,
                },
            )
        }),
{
}

/// Packets are lost upon arrival, also where they are destined for the node: if the draw asks for
/// it, the node records the packet and its loss, and keeps nothing of it.
pub proof fn law_packets_are_lost_upon_arrival(
    network: NetworkView,
    node: int,
    data: PacketView,
    roll: Roll,
    now: Nanos,
)
    requires
        0 <= node < network.nodes.len(),
        network.nodes[node].status == NodeStatus::Up,
        network.nodes[node].loses(roll),
    ensures
        ({
            let id = network.nodes[node].id;
            network.forwarded(node, data, roll, now) == NetworkView {
                rng_state: roll.rng_state,
                tracer: network.tracer.packet_in_node(now, id, data, false).dropped_randomly(
                    now,
                    id,
                    data,
                ),
                ..network
            }
        }),
{
}

/// Packets are only duplicated on purpose: unless the draw asks for it, a node at which a packet
/// arrives keeps at most one packet, and that is the packet itself.
pub proof fn law_only_injected_duplicates(
    network: NetworkView,
    node: int,
    data: PacketView,
    roll: Roll,
    now: Nanos,
)
    requires
        0 <= node < network.nodes.len(),
        !network.nodes[node].duplicates(roll),
    ensures
        ({
            let before = network.nodes[node];
            let after = network.forwarded(node, data, roll, now).nodes;
            &&& after == network.nodes.update(node, after[node])
            &&& after[node] == before || after[node] == before.delivered(now, data) || after[node]
                == before.buffered(
                BufferedView {
                    in_node_since: now,
                    data,
                    ticket: network.tickets.len() as usize,
                },
            )
        }),
{
    let after = network.forwarded(node, data, roll, now).nodes;
    assert(after =~= network.nodes.update(node, after[node]));
}

/// A node whose duplication ratio is zero never duplicates a packet, whatever the draw.
pub proof fn law_no_duplicates_at_ratio_zero(network: NetworkView, node: int, roll: Roll)
    requires
        network.wf(),
        0 <= node < network.nodes.len(),
        network.nodes[node].injected_failures.packet_duplication_ratio.bits == 0,
    ensures
        !network.nodes[node].duplicates(roll),
{
    assert(network.nodes[node].wf());
}

/// A node whose loss ratio is zero never loses a packet, whatever the draw.
pub proof fn law_no_loss_at_ratio_zero(node: NodeView, roll: Roll)
    requires
        node.injected_failures.packet_loss_ratio.bits == 0,
    ensures
        !node.loses(roll),
{
}

/// An injected duplicate is marked as such and has an id of its own; otherwise it is the same packet.
/// At the node that the packet is destined for, both are delivered, the duplicate last.
pub proof fn law_duplicates_are_marked(
    network: NetworkView,
    node: int,
    data: PacketView,
    roll: Roll,
    now: Nanos,
)
    requires
        0 <= node < network.nodes.len(),
    ensures
        ({
            let copy = PacketView {
                id: crate::random::drawn_u128(roll.rng_state).1,
                duplicate: true,
                ..data
            };
            let before = network.nodes[node];
            let after = network.forwarded(node, data, roll, now).nodes[node];
            &&& before.outbound.len() <= after.outbound.len() <= before.outbound.len() + 2
            &&& forall|k: int|
                0 <= k < before.outbound.len() ==> #[trigger] after.outbound[k]
                    == before.outbound[k]
            &&& forall|k: int|
                before.outbound.len() <= k < after.outbound.len() ==> (
                #[trigger] after.outbound[k]).data == data || after.outbound[k].data == copy
            &&& before.status == NodeStatus::Up && before.duplicates(roll)
                && data.transmit.destination.ip == before.canonical_address ==> after
                == before.delivered(now, data).delivered(now, copy)
        }),
{
}

/// Links handle their packets in the order in which they get them: a link takes the oldest packet
/// from its queue, only when it handles no other one, and leaves the rest of the queue as it is. It
/// neither makes up packets nor changes them.
pub proof fn law_links_are_fifo(
    link: LinkView,
    me: usize,
    event: LinkEvent,
    handled: bool,
    node_down: bool,
    now: Nanos,
    packet_delay: Nanos,
)
    requires
        link.wf(),
    ensures
        ({
            let next = link.step(me, event, handled, node_down, now, packet_delay).0;
            &&& link.outgoing.len() - 1 <= next.outgoing.len() <= link.outgoing.len()
            &&& next.outgoing == link.outgoing.skip(link.outgoing.len() - next.outgoing.len())
            &&& next.outgoing.len() < link.outgoing.len() ==> link.current is None
                && next.current is Some
            &&& next.current matches Some(p) ==> {
                let source = match link.current {
                    Some(q) => q,
                    None => link.outgoing[0],
                };
                &&& p.data == source.data
                &&& p.src_node == source.src_node
                &&& p.ticket == source.ticket
                &&& p.in_node_since == source.in_node_since
                &&& p.anomalies == source.anomalies
                &&& link.current is None ==> link.outgoing.len() > 0
            }
            &&& next.source == link.source
            &&& next.in_transit == link.in_transit
        }),
{
    assert(link.outgoing.skip(0) =~= link.outgoing);
}

/// How often a link lets others go first, if nobody handles the packet: once for each link that is
/// preferred over it.
pub open spec fn yields(preferred_links: Seq<usize>, me: usize) -> nat
    decreases preferred_links.len(),
{
    if preferred_links.len() == 0 || preferred_links[0] == me {
        0
    } else {
        1 + yields(preferred_links.skip(1), me)
    }
}

/// A link lets others go first exactly as often as [`yields`] says: as long as that number is not
/// zero, it yields, and then the number is smaller by one.
pub proof fn law_preferred_links_go_first(link: LinkView, me: usize)
    requires
        link.current is Some,
    ensures
        ({
            let before = yields(link.current->0.preferred_links, me);
            let (next, action) = link.yield_to_preferred(me, false);
            if before == 0 {
                action == LinkAction::Complete && next.phase == LinkPhase::Ready
            } else {
                action == LinkAction::Yield && next.phase == LinkPhase::Yielding && yields(
                    next.current->0.preferred_links,
                    me,
                ) == before - 1
            }
        }),
{
}

/// Of two links that were asked to send a packet, the preferred one yields less often.
pub proof fn law_preferred_link_yields_less(preferred_links: Seq<usize>, i: int, j: int)
    requires
        0 <= i < j < preferred_links.len(),
        preferred_links[i] != preferred_links[j],
        forall|k: int| 0 <= k < i ==> #[trigger] preferred_links[k] != preferred_links[i],
        forall|k: int| 0 <= k < j ==> #[trigger] preferred_links[k] != preferred_links[j],
    ensures
        yields(preferred_links, preferred_links[i]) < yields(preferred_links, preferred_links[j]),
{
    lemma_yields(preferred_links, i);
    lemma_yields(preferred_links, j);
}

proof fn lemma_yields(preferred_links: Seq<usize>, i: int)
    requires
        0 <= i < preferred_links.len(),
        forall|k: int| 0 <= k < i ==> #[trigger] preferred_links[k] != preferred_links[i],
    ensures
        yields(preferred_links, preferred_links[i]) == i,
    decreases preferred_links.len(),
{
    if i > 0 {
        assert(preferred_links[0] != preferred_links[i]);
        let rest = preferred_links.skip(1);
        assert(rest[i - 1] == preferred_links[i]);
        assert forall|k: int| 0 <= k < i - 1 implies #[trigger] rest[k] != rest[i - 1] by {
            assert(rest[k] == preferred_links[k + 1]);
        }
        lemma_yields(rest, i - 1);
    }
}

/// Network events neither create nor remove packets.
pub proof fn law_events_keep_packets(network: NetworkView, event: NetworkEventKind, now: Nanos)
    requires
        network.wf(),
    ensures
        ({
            let after = network.event_processed(event, now);
            &&& after.tickets == network.tickets
            &&& after.nodes.len() == network.nodes.len()
            &&& after.links.len() == network.links.len()
            &&& forall|n: int|
                0 <= n < network.nodes.len() ==> (#[trigger] after.nodes[n]).outbound
                    == network.nodes[n].outbound && after.nodes[n].udp_endpoints
                    == network.nodes[n].udp_endpoints
            &&& forall|l: int|
                0 <= l < network.links.len() ==> (#[trigger] after.links[l]).outgoing
                    == network.links[l].outgoing && after.links[l].in_transit
                    == network.links[l].in_transit
        }),
{
    match event {
        NetworkEventKind::Link(link) => {
            crate::search::lemma_first_index(
                network.links,
                |l: LinkView| l.id@ == link.link_id@,
            );
        },
        NetworkEventKind::Node(node) => {
            crate::search::lemma_first_index(
                network.nodes,
                |n: NodeView| n.id@ == node.node_id@,
            );
        },
    }
}

} // verus!
