//! How packets get onto links, through them and off them, told by what links and nodes hold before
//! and after.

use crate::network::accounting::{packet_accounted_for, TicketState};
use crate::network::arrivals::time_between;
use crate::network::handling::lemma_next_links_exist;
use crate::network::inbound_queue::{arrived, due, in_arrival_order, QueuedView};
use crate::network::link::{
    LinkAction, LinkEvent, LinkPhase, LinkStatus, LinkView, OutgoingView,
};
use crate::network::node::{BufferedView, NodeStatus, NodeView};
use crate::network::run::NetworkStep;
use crate::network::NetworkView;
use crate::quinn_interop::{all_read, filled, RecvMeta};
use crate::random::Roll;
use crate::search::lemma_first_index;
use crate::time::{Nanos, SPAN_MAX};
use crate::tracing::simulation_step::{
    DropReason, GenericPacketEvent, PacketDropped, PacketInTransit, PacketLostInTransit,
    SimulationStep, SimulationStepKind,
};
use crate::tracing::tracer::TracerView;
use crate::transmit::{EcnCodepoint, PacketView, TransmitView};
use vstd::prelude::*;

verus! {

/// The record has one more step, which happened at the given time.
pub open spec fn one_more_step(
    before: TracerView,
    after: TracerView,
    now: Nanos,
    kind: SimulationStepKind,
) -> bool {
    &&& after.steps.len() == before.steps.len() + 1
    &&& forall|s: int| 0 <= s < before.steps.len() ==> #[trigger] after.steps[s] == before.steps[s]
    &&& after.steps[before.steps.len() as int].relative_time == time_between(
        before.simulation_start,
        now,
    )
    &&& after.steps[before.steps.len() as int].kind == kind
}

/// The queue holds one more packet, at the given place: behind all that arrive no later, and in front
/// of all others.
pub open spec fn joins_at(
    before: Seq<QueuedView>,
    after: Seq<QueuedView>,
    packet: QueuedView,
    pos: int,
) -> bool {
    &&& 0 <= pos <= before.len()
    &&& after.len() == before.len() + 1
    &&& after[pos] == packet
    &&& forall|k: int|
        0 <= k < pos ==> #[trigger] after[k] == before[k] && before[k].arrives_at
            <= packet.arrives_at
    &&& forall|k: int|
        pos <= k < before.len() ==> #[trigger] before[k].arrives_at > packet.arrives_at && after[k
            + 1] == before[k]
}

/// The two packets differ in their congestion marks only.
pub open spec fn same_but_mark(a: PacketView, b: PacketView) -> bool {
    &&& a.id == b.id
    &&& a.duplicate == b.duplicate
    &&& a.source_id == b.source_id
    &&& a.number == b.number
    &&& a.transmit.source == b.transmit.source
    &&& a.transmit.destination == b.transmit.destination
    &&& a.transmit.contents == b.transmit.contents
    &&& a.transmit.segment_size == b.transmit.segment_size
    &&& a.transmit.ttl == b.transmit.ttl
}

/// The packet's buffer was cleared after the packet got there.
pub open spec fn cleared_since(node: NodeView, packet: OutgoingView) -> bool {
    match node.last_buffer_clear {
        Some(time) => packet.in_node_since < time,
        None => false,
    }
}

/// Only the packet's reservation has changed, to the given state.
pub open spec fn only_ticket_changes(
    before: NetworkView,
    after: NetworkView,
    ticket: int,
    state: TicketState,
) -> bool {
    &&& after.tickets.len() == before.tickets.len()
    &&& 0 <= ticket < before.tickets.len()
    &&& after.tickets[ticket].state == state
    &&& after.tickets[ticket].node == before.tickets[ticket].node
    &&& after.tickets[ticket].size == before.tickets[ticket].size
    &&& forall|t: int|
        0 <= t < before.tickets.len() && t != ticket ==> #[trigger] after.tickets[t]
            == before.tickets[t]
}

/// All links but the given one are as before, and that one is done with its packet and keeps its queue.
pub open spec fn only_link_turns_idle(before: NetworkView, after: NetworkView, link: int) -> bool {
    let a = before.links[link];
    let b = after.links[link];
    &&& after.links.len() == before.links.len()
    &&& forall|l: int|
        0 <= l < before.links.len() && l != link ==> #[trigger] after.links[l] == before.links[l]
    &&& b.current is None
    &&& b.phase == LinkPhase::Idle
    &&& b.outgoing == a.outgoing
    &&& b.status == a.status
    &&& b.last_down == a.last_down
    &&& b.waiting == a.waiting
    &&& b.id == a.id
    &&& b.source == a.source
    &&& b.target == a.target
    &&& b.delay == a.delay
}

/// A packet that nobody handled, and whose buffer was not cleared, is sent when its link completes it.
/// The link must be up and have bandwidth left. The packet arrives once the link's delay, and the extra
/// delay that it was given, have passed; it is marked if it was to experience congestion, and otherwise
/// unchanged. Its node gets the space back that the packet took.
pub proof fn law_packets_are_sent_as_they_are(
    network: NetworkView,
    link: int,
    now: Nanos,
    packet_delay: Nanos,
)
    requires
        network.allows(NetworkStep::Complete { link, now, packet_delay }),
        now <= SPAN_MAX,
        packet_delay <= SPAN_MAX,
        network.tickets[network.links[link].current->0.ticket as int].state
            == TicketState::Waiting,
        !cleared_since(
            network.nodes[network.links[link].current->0.src_node as int],
            network.links[link].current->0,
        ),
    ensures
        ({
            let packet = network.links[link].current->0;
            let node = packet.src_node as int;
            let before = network.links[link];
            let after = network.completed(link, now, packet_delay);
            let batch = before.pacer.batch;
            let booked = after.links[link].pacer.batch;
            &&& before.status == LinkStatus::Up
            &&& only_link_turns_idle(network, after, link)
            &&& only_ticket_changes(network, after, packet.ticket as int, TicketState::Sent)
            &&& exists|pos: int|
                0 <= pos < after.links[link].in_transit.len() && {
                    let sent = #[trigger] after.links[link].in_transit[pos];
                    &&& joins_at(before.in_transit, after.links[link].in_transit, sent, pos)
                    &&& sent.sent == now
                    &&& sent.arrives_at == now + before.delay + packet.anomalies.extra_delay
                    &&& same_but_mark(sent.data, packet.data)
                    &&& sent.data.transmit.ecn == if packet.anomalies.congestion_experienced {
                        Some(EcnCodepoint::Ce)
                    } else {
                        packet.data.transmit.ecn
                    }
                }
            &&& after.nodes.len() == network.nodes.len()
            &&& forall|n: int|
                0 <= n < network.nodes.len() && n != node ==> #[trigger] after.nodes[n]
                    == network.nodes[n]
            &&& after.nodes[node].outbound == network.nodes[node].outbound
            &&& after.nodes[node].outbound_buffer.capacity
                == network.nodes[node].outbound_buffer.capacity
            &&& after.nodes[node].outbound_buffer.used == network.nodes[node].outbound_buffer.used
                - packet.data.transmit.contents.len()
            &&& one_more_step(
                network.tracer,
                after.tracer,
                now,
                SimulationStepKind::PacketInTransit(
                    PacketInTransit {
                        packet_id: packet.data.id,
                        node_id: network.nodes[node].id,
                        link_id: before.id,
                    },
                ),
            )
            // The time that the packet takes is booked, in the current batch or in a new one
            &&& if time_between(batch.created, now) >= batch.delay {
                booked.created == now && booked.delay == packet_delay
            } else {
                &&& booked.created == batch.created
                &&& booked.delay == batch.delay + packet_delay
                &&& booked.delay < 2_000_000
            }
        }),
{
    let packet = network.links[link].current->0;
    let before = network.links[link];
    assert(before.wf());
    assert(packet_accounted_for(
        network.tickets,
        packet.src_node as int,
        packet.data,
        packet.ticket,
    ));
    let arrives_at = (now + before.delay + packet.anomalies.extra_delay) as Nanos;
    let after = network.completed(link, now, packet_delay).links[link];
    let pos = arrived(before.in_transit, arrives_at);
    let late = |p: QueuedView| p.arrives_at > arrives_at;
    lemma_first_index(before.in_transit, late);
    assert forall|k: int| 0 <= k < pos implies #[trigger] after.in_transit[k]
        == before.in_transit[k] && before.in_transit[k].arrives_at <= arrives_at by {
        assert(!late(before.in_transit[k]));
    }
    assert forall|k: int| pos <= k < before.in_transit.len() implies
        #[trigger] before.in_transit[k].arrives_at > arrives_at && after.in_transit[k + 1]
        == before.in_transit[k] by {
        assert(before.in_transit[pos].arrives_at <= before.in_transit[k].arrives_at);
    }
    assert(joins_at(before.in_transit, after.in_transit, after.in_transit[pos], pos));
    assert(network.nodes[packet.src_node as int].outbound_buffer.used
        >= packet.data.transmit.contents.len()) by {
        crate::network::accounting::lemma_reserved_update(
            network.tickets,
            packet.ticket as int,
            network.tickets[packet.ticket as int],
            packet.src_node as int,
        );
        assert(network.tickets[packet.ticket as int].node < network.nodes.len());
    }
}

/// A packet that nobody handled, but whose buffer was cleared since it got there, is dropped when its
/// link completes it: nothing is sent, no space is given back, and the drop is recorded.
pub proof fn law_cleared_packets_are_dropped(
    network: NetworkView,
    link: int,
    now: Nanos,
    packet_delay: Nanos,
)
    requires
        network.allows(NetworkStep::Complete { link, now, packet_delay }),
        network.tickets[network.links[link].current->0.ticket as int].state
            == TicketState::Waiting,
        cleared_since(
            network.nodes[network.links[link].current->0.src_node as int],
            network.links[link].current->0,
        ),
    ensures
        ({
            let packet = network.links[link].current->0;
            let after = network.completed(link, now, packet_delay);
            &&& only_link_turns_idle(network, after, link)
            &&& after.links[link].in_transit == network.links[link].in_transit
            &&& after.links[link].pacer == network.links[link].pacer
            &&& only_ticket_changes(network, after, packet.ticket as int, TicketState::Cleared)
            &&& after.nodes == network.nodes
            &&& one_more_step(
                network.tracer,
                after.tracer,
                now,
                SimulationStepKind::PacketDropped(
                    PacketDropped {
                        packet_id: packet.data.id,
                        node_id: network.nodes[packet.src_node as int].id,
                        reason: DropReason::BufferCleared,
                    },
                ),
            )
        }),
{
    let packet = network.links[link].current->0;
    assert(packet_accounted_for(
        network.tickets,
        packet.src_node as int,
        packet.data,
        packet.ticket,
    ));
}

/// A packet that another link handled is forgotten when its link completes it: nothing is sent,
/// nothing is recorded, and no bandwidth is used.
pub proof fn law_handled_packets_are_forgotten(
    network: NetworkView,
    link: int,
    now: Nanos,
    packet_delay: Nanos,
)
    requires
        network.allows(NetworkStep::Complete { link, now, packet_delay }),
        network.tickets[network.links[link].current->0.ticket as int].state
            != TicketState::Waiting,
    ensures
        ({
            let after = network.completed(link, now, packet_delay);
            &&& only_link_turns_idle(network, after, link)
            &&& after.links[link].in_transit == network.links[link].in_transit
            &&& after.links[link].pacer == network.links[link].pacer
            &&& after.tickets == network.tickets
            &&& after.nodes == network.nodes
            &&& after.tracer == network.tracer
        }),
{
}

/// The packet that a link gets when a node hands out one of its packets: the packet as it is, with the
/// links that it may take. It is given the link's extra delay if the first draw is smaller than the
/// link's ratio of delayed packets, and experiences congestion if the second draw is smaller than the
/// ratio of congestion events.
pub open spec fn is_handed_out(
    outgoing: OutgoingView,
    link: LinkView,
    node: int,
    packet: BufferedView,
    links: Seq<usize>,
    rolls: (Roll, Roll),
) -> bool {
    &&& outgoing.in_node_since == packet.in_node_since
    &&& outgoing.src_node == node
    &&& outgoing.data == packet.data
    &&& outgoing.ticket == packet.ticket
    &&& outgoing.preferred_links == links
    &&& outgoing.anomalies.extra_delay == if rolls.0.value.bits < link.extra_delay_ratio.bits {
        link.extra_delay
    } else {
        0
    }
    &&& outgoing.anomalies.congestion_experienced <==> rolls.1.value.bits
        < link.congestion_event_ratio.bits
}

/// The link is the same, but for its queue.
pub open spec fn same_but_queue(a: LinkView, b: LinkView) -> bool {
    b == LinkView { outgoing: b.outgoing, ..a }
}

proof fn lemma_handed_out(
    network: NetworkView,
    node: int,
    packet: BufferedView,
    links: Seq<usize>,
    rolls: Seq<(Roll, Roll)>,
    count: nat,
    k: int,
    link: int,
)
    requires
        0 <= node <= usize::MAX,
        0 <= link < network.links.len(),
        count <= links.len(),
        0 <= k < links.len() ==> links[k] == link,
        forall|i: int| 0 <= i < links.len() ==> #[trigger] links[i] < network.links.len(),
        forall|i: int| 0 <= i < links.len() && i != k ==> #[trigger] links[i] != link,
    ensures
        ({
            let before = network.links[link];
            let after = network.handed_to_links(node, packet, links, rolls, count);
            let queue = after.links[link].outgoing;
            &&& after.links.len() == network.links.len()
            &&& after.nodes == network.nodes
            &&& after.tickets == network.tickets
            &&& after.tracer == network.tracer
            &&& same_but_queue(before, after.links[link])
            &&& if 0 <= k < count {
                &&& queue.len() == before.outgoing.len() + 1
                &&& queue.take(before.outgoing.len() as int) == before.outgoing
                &&& is_handed_out(queue.last(), before, node, packet, links, rolls[k])
            } else {
                queue == before.outgoing
            }
        }),
    decreases count,
{
    if count > 0 {
        lemma_handed_out(network, node, packet, links, rolls, (count - 1) as nat, k, link);
        let before = network.handed_to_links(node, packet, links, rolls, (count - 1) as nat);
        let after = network.handed_to_links(node, packet, links, rolls, count);
        if k == count - 1 {
            assert(after.links[link].outgoing.take(network.links[link].outgoing.len() as int)
                =~= network.links[link].outgoing);
        } else {
            assert(links[count - 1] != link);
            assert(after.links[link] == before.links[link]);
        }
    }
}

/// A node hands out the oldest packet of its outbound buffer, and only that one: each of the links that
/// are offered the packet gets it at the end of its queue, and no other link gets anything. The packet
/// keeps its reservation.
pub proof fn law_the_oldest_packet_is_handed_out(
    network: NetworkView,
    node: int,
    rolls: Seq<(Roll, Roll)>,
    k: int,
    link: int,
)
    requires
        network.allows(NetworkStep::Dispatch { node }),
        0 <= link < network.links.len(),
        ({
            let links = network.walk_links(
                node,
                network.nodes[node].outbound[0].data.transmit.destination.ip,
            );
            &&& 0 <= k < links.len() ==> links[k] == link
            &&& forall|i: int| 0 <= i < links.len() && i != k ==> #[trigger] links[i] != link
        }),
    ensures
        ({
            let packet = network.nodes[node].outbound[0];
            let links = network.walk_links(node, packet.data.transmit.destination.ip);
            let before = network.links[link];
            let after = network.dispatched(node, rolls);
            let queue = after.links[link].outgoing;
            &&& after.tickets == network.tickets
            &&& after.tracer == network.tracer
            &&& after.nodes.len() == network.nodes.len()
            &&& forall|n: int|
                0 <= n < network.nodes.len() && n != node ==> #[trigger] after.nodes[n]
                    == network.nodes[n]
            &&& after.nodes[node] == NodeView {
                outbound: after.nodes[node].outbound,
                ..network.nodes[node]
            }
            &&& seq![packet] + after.nodes[node].outbound == network.nodes[node].outbound
            &&& same_but_queue(before, after.links[link])
            &&& if 0 <= k < links.len() {
                &&& queue.len() == before.outgoing.len() + 1
                &&& queue.take(before.outgoing.len() as int) == before.outgoing
                &&& is_handed_out(queue.last(), before, node, packet, links, rolls[k])
            } else {
                queue == before.outgoing
            }
        }),
{
    let n = network.nodes[node];
    let links = network.next_links(node);
    let popped = NetworkView {
        nodes: network.nodes.update(node, NodeView { outbound: n.outbound.skip(1), ..n }),
        ..network
    };
    lemma_next_links_exist(network, node);
    lemma_handed_out(popped, node, n.outbound[0], links, rolls, links.len(), k, link);
    assert(seq![n.outbound[0]] + n.outbound.skip(1) =~= n.outbound);
}

/// Packets come out of a queue when they arrive: those that come out are the first ones, and have
/// arrived; unless there is no room for more, those that stay have not.
pub open spec fn come_out(
    queue: Seq<QueuedView>,
    out: Seq<QueuedView>,
    rest: Seq<QueuedView>,
    now: Nanos,
    max: usize,
) -> bool {
    &&& out + rest == queue
    &&& out.len() <= max
    &&& forall|i: int| 0 <= i < out.len() ==> (#[trigger] out[i]).arrives_at <= now
    &&& out.len() < max ==> forall|i: int|
        0 <= i < rest.len() ==> (#[trigger] rest[i]).arrives_at > now
}

proof fn lemma_come_out(queue: Seq<QueuedView>, now: Nanos, max: usize)
    requires
        in_arrival_order(queue),
    ensures
        come_out(
            queue,
            queue.take(due(queue, now, max)),
            queue.skip(due(queue, now, max)),
            now,
            max,
        ),
        0 <= due(queue, now, max) <= queue.len(),
{
    let late = |p: QueuedView| p.arrives_at > now;
    lemma_first_index(queue, late);
    let n = due(queue, now, max);
    let out = queue.take(n);
    let rest = queue.skip(n);
    assert(out + rest =~= queue);
    assert forall|i: int| 0 <= i < out.len() implies (#[trigger] out[i]).arrives_at <= now by {
        assert(!late(queue[i]));
    }
    if n < max {
        assert forall|i: int| 0 <= i < rest.len() implies (#[trigger] rest[i]).arrives_at > now by {
            assert(queue[n].arrives_at <= queue[n + i].arrives_at);
        }
    }
}

/// Packets come off a link when they arrive at its end, in the order in which they arrive, neither
/// early nor late. Nothing else changes.
pub proof fn law_packets_come_off_links_when_they_arrive(
    network: NetworkView,
    link: int,
    now: Nanos,
    max: usize,
)
    requires
        network.wf(),
        0 <= link < network.links.len(),
    ensures
        ({
            let after = network.taken_from_link(link, now, max);
            &&& come_out(
                network.links[link].in_transit,
                network.at_link_end(link, now, max),
                after.links[link].in_transit,
                now,
                max,
            )
            &&& after == NetworkView { links: after.links, ..network }
            &&& after.links == network.links.update(
                link,
                LinkView { in_transit: after.links[link].in_transit, ..network.links[link] },
            )
        }),
{
    assert(network.links[link].wf());
    lemma_come_out(network.links[link].in_transit, now, max);
}

/// A packet that comes off a link reaches the node that has the link's target among its addresses,
/// unless the link went down after the packet was sent: then it is lost, and that is recorded. Nothing
/// else happens to it on the way.
pub proof fn law_packets_survive_links_that_stay_up(
    network: NetworkView,
    link: int,
    packet: QueuedView,
    now: Nanos,
)
    requires
        network.wf(),
        0 <= link < network.links.len(),
    ensures
        ({
            let l = network.links[link];
            let after = network.left_link(link, packet, now);
            let went_down = match l.last_down {
                Some(time) => time > packet.sent,
                None => false,
            };
            if went_down {
                &&& network.reached_node(link, packet) is None
                &&& after == NetworkView { tracer: after.tracer, ..network }
                &&& one_more_step(
                    network.tracer,
                    after.tracer,
                    now,
                    SimulationStepKind::PacketLostInTransit(
                        PacketLostInTransit { packet_id: packet.data.id, link_id: l.id },
                    ),
                )
            } else {
                &&& after == network
                &&& match network.reached_node(link, packet) {
                    Some(node) => 0 <= node < network.nodes.len()
                        && network.nodes[node].addresses.contains(l.target),
                    None => forall|n: int|
                        0 <= n < network.nodes.len()
                            ==> !(#[trigger] network.nodes[n]).addresses.contains(l.target),
                }
            }
        }),
{
    let target = network.links[link].target;
    let holds = |n: NodeView| n.addresses.contains(target);
    lemma_first_index(network.nodes, holds);
    if network.reached_node(link, packet) is None && !network.links[link].was_down_after(
        packet.sent,
    ) {
        assert forall|n: int| 0 <= n < network.nodes.len() implies !(
        #[trigger] network.nodes[n]).addresses.contains(target) by {
            assert(!holds(network.nodes[n]));
        }
    }
}

proof fn lemma_all_read(tracer: TracerView, now: Nanos, id: String, packets: Seq<QueuedView>, i: int)
    requires
        0 <= i < packets.len(),
    ensures
        ({
            let after = all_read(tracer, now, id, packets);
            let data = packets[i].data;
            &&& after.simulation_start == tracer.simulation_start
            &&& after.steps.len() == tracer.steps.len() + packets.len()
            &&& after.steps.take(tracer.steps.len() as int) == tracer.steps
            &&& after.steps[tracer.steps.len() + i] == (SimulationStep {
                relative_time: time_between(tracer.simulation_start, now) as Nanos,
                kind: SimulationStepKind::PacketDeliveredToApplication(
                    GenericPacketEvent {
                        packet_id: data.id,
                        packet_number: data.number,
                        packet_size_bytes: data.transmit.contents.len() as usize,
                        node_id: id,
                    },
                ),
            })
        }),
    decreases packets.len(),
{
    let front = packets.drop_last();
    let before = all_read(tracer, now, id, front);
    let after = all_read(tracer, now, id, packets);
    if front.len() > 0 {
        lemma_all_read(tracer, now, id, front, 0);
        if i < front.len() {
            lemma_all_read(tracer, now, id, front, i);
        }
    }
    assert(after.steps.take(tracer.steps.len() as int) =~= before.steps.take(
        tracer.steps.len() as int,
    ));
    assert(tracer.steps.take(tracer.steps.len() as int) =~= tracer.steps);
}

/// A reader gets the packets that have arrived at its endpoint, in the order in which they arrived, as
/// many as it has room for, and they are gone from the endpoint then. For each of them it is recorded
/// that the application got it.
pub proof fn law_readers_get_what_has_arrived(
    network: NetworkView,
    node: int,
    endpoint: int,
    now: Nanos,
    max: usize,
    i: int,
)
    requires
        network.wf(),
        0 <= node < network.nodes.len(),
        0 <= endpoint < network.nodes[node].udp_endpoints.len(),
        0 <= i < network.readable(node, endpoint, now, max).len(),
    ensures
        ({
            let before = network.nodes[node];
            let read = network.readable(node, endpoint, now, max);
            let after = network.read(node, endpoint, now, max);
            let n = network.tracer.steps.len() as int;
            &&& come_out(
                before.udp_endpoints[endpoint].inbound,
                read,
                after.nodes[node].udp_endpoints[endpoint].inbound,
                now,
                max,
            )
            &&& after.nodes.len() == network.nodes.len()
            &&& forall|m: int|
                0 <= m < network.nodes.len() && m != node ==> #[trigger] after.nodes[m]
                    == network.nodes[m]
            &&& forall|e: int|
                0 <= e < before.udp_endpoints.len() && e != endpoint
                    ==> #[trigger] after.nodes[node].udp_endpoints[e] == before.udp_endpoints[e]
            &&& after.nodes[node] == NodeView {
                udp_endpoints: after.nodes[node].udp_endpoints,
                ..before
            }
            &&& after.links == network.links
            &&& after.tickets == network.tickets
            &&& after.tracer.steps.len() == n + read.len()
            &&& after.tracer.steps.take(n) == network.tracer.steps
            &&& after.tracer.steps[n + i].relative_time == time_between(
                network.tracer.simulation_start,
                now,
            )
            &&& after.tracer.steps[n + i].kind == SimulationStepKind::PacketDeliveredToApplication(
                GenericPacketEvent {
                    packet_id: read[i].data.id,
                    packet_number: read[i].data.number,
                    packet_size_bytes: read[i].data.transmit.contents.len() as usize,
                    node_id: before.id,
                },
            )
        }),
{
    let before = network.nodes[node];
    assert(before.wf());
    lemma_come_out(before.udp_endpoints[endpoint].inbound, now, max);
    lemma_all_read(
        network.tracer,
        now,
        before.id,
        network.readable(node, endpoint, now, max),
        i,
    );
}

/// Where nothing has arrived, a reader gets nothing, and nothing changes.
pub proof fn law_readers_get_nothing_early(
    network: NetworkView,
    node: int,
    endpoint: int,
    now: Nanos,
    max: usize,
)
    requires
        network.wf(),
        0 <= node < network.nodes.len(),
        0 <= endpoint < network.nodes[node].udp_endpoints.len(),
        forall|i: int|
            0 <= i < network.nodes[node].udp_endpoints[endpoint].inbound.len() ==> (
            #[trigger] network.nodes[node].udp_endpoints[endpoint].inbound[i]).arrives_at > now,
    ensures
        network.readable(node, endpoint, now, max).len() == 0,
        network.read(node, endpoint, now, max) == network,
{
    let e = network.nodes[node].udp_endpoints[endpoint];
    assert(network.nodes[node].wf());
    lemma_come_out(e.inbound, now, max);
    let read = network.readable(node, endpoint, now, max);
    if read.len() > 0 {
        assert(read[0] == e.inbound[0]);
    }
    assert(e.inbound.skip(0) =~= e.inbound);
    let after = network.read(node, endpoint, now, max);
    assert(after.nodes[node].udp_endpoints =~= network.nodes[node].udp_endpoints);
    assert(after.nodes[node] =~= network.nodes[node]);
    assert(after.nodes =~= network.nodes);
}

/// What a reader learns of a packet, besides its contents: where it comes from and goes to, its size,
/// the size of its segments, which is that of the packet unless it has segments, and its mark. The
/// contents are at the start of the reader's buffer, whose end stays as it was.
pub proof fn law_readers_get_packets_as_they_were_sent(t: TransmitView, buf: Seq<u8>, i: int)
    requires
        t.contents.len() <= buf.len() <= usize::MAX,
        0 <= i < buf.len(),
    ensures
        ({
            let meta = RecvMeta::of(t);
            &&& meta.addr == t.source
            &&& meta.dst_ip == Some(t.destination.ip)
            &&& meta.len == t.contents.len()
            &&& meta.ecn == t.ecn
            &&& t.segment_size is None ==> meta.stride == t.contents.len()
            &&& t.segment_size is Some ==> meta.stride == t.segment_size->0
        }),
        filled(buf, t.contents).len() == buf.len(),
        filled(buf, t.contents)[i] == if i < t.contents.len() {
            t.contents[i]
        } else {
            buf[i]
        },
{
}

/// A link that handles no packet starts with the oldest one in its queue as soon as it is asked. If it
/// is up and has bandwidth left, it either completes the packet at once or lets the links go first that
/// are preferred over it. Otherwise it sleeps until there is bandwidth.
pub proof fn law_links_start_with_the_oldest_packet(
    link: LinkView,
    me: usize,
    event: LinkEvent,
    handled: bool,
    node_down: bool,
    now: Nanos,
    packet_delay: Nanos,
)
    requires
        link.wf(),
        link.phase == LinkPhase::Idle,
        link.outgoing.len() > 0,
        link.pacer.batch.created <= now <= SPAN_MAX,
        packet_delay <= SPAN_MAX,
    ensures
        ({
            let (next, action) = link.step(me, event, handled, node_down, now, packet_delay);
            let first = link.outgoing[0];
            let batch = link.pacer.batch;
            let free = now - batch.created >= batch.delay || batch.delay + packet_delay
                < 2_000_000;
            let preferred = first.preferred_links;
            &&& seq![first] + next.outgoing == link.outgoing
            &&& next.current is Some
            &&& next.current->0.data == first.data
            &&& next.current->0.ticket == first.ticket
            &&& next.current->0.anomalies == first.anomalies
            &&& next.current->0.in_node_since == first.in_node_since
            &&& next.current->0.src_node == first.src_node
            &&& if link.status == LinkStatus::Up && !link.waiting && free {
                if preferred.len() > 0 && preferred[0] != me && !handled {
                    action == LinkAction::Yield
                } else {
                    action == LinkAction::Complete
                }
            } else {
                &&& action == (LinkAction::SleepUntil {
                    until: if free {
                        now
                    } else {
                        (batch.created + batch.delay) as Nanos
                    },
                })
                &&& next.waiting
                &&& next.current->0.preferred_links == preferred
            }
        }),
{
    assert(seq![link.outgoing[0]] + link.outgoing.skip(1) =~= link.outgoing);
}

/// A link has nothing to do only if it handles no packet and has none in its queue.
pub proof fn law_links_rest_only_without_packets(
    link: LinkView,
    me: usize,
    event: LinkEvent,
    handled: bool,
    node_down: bool,
    now: Nanos,
    packet_delay: Nanos,
)
    requires
        link.wf(),
    ensures
        link.step(me, event, handled, node_down, now, packet_delay).1 == LinkAction::Park
            <==> link.current is None && link.outgoing.len() == 0,
{
}

/// A link that slept until there is bandwidth goes on once the link and the packet's node are up. While
/// one of them is down, it waits for that one, unless another link handles the packet.
pub proof fn law_links_wait_for_what_is_down(
    link: LinkView,
    me: usize,
    event: LinkEvent,
    handled: bool,
    node_down: bool,
    now: Nanos,
    packet_delay: Nanos,
)
    requires
        link.wf(),
        link.phase is Bandwidth || link.phase is LinkUp || link.phase is NodeUp,
    ensures
        ({
            let (next, action) = link.step(me, event, handled, node_down, now, packet_delay);
            let goes_on = action == LinkAction::Yield || action == LinkAction::Complete;
            let preferred = link.current->0.preferred_links;
            let asked_again = match link.phase {
                LinkPhase::Bandwidth { .. } => event == LinkEvent::Slept,
                LinkPhase::LinkUp => event == LinkEvent::LinkCameUp,
                _ => event == LinkEvent::NodeCameUp,
            };
            &&& event == LinkEvent::Handled ==> goes_on
            &&& event != LinkEvent::Handled && !asked_again ==> next == link
            &&& asked_again && link.status == LinkStatus::Up && !node_down ==> goes_on
            &&& asked_again && link.status == LinkStatus::Down && (node_down ==> link.phase
                is Bandwidth) ==> action == LinkAction::AwaitLinkUp
            &&& asked_again && link.status == LinkStatus::Up && node_down && !(link.phase
                is NodeUp) ==> action == (LinkAction::AwaitNodeUp {
                node: link.current->0.src_node,
            })
            &&& goes_on <==> !(action is SleepUntil) && !(action is AwaitLinkUp) && !(action
                is AwaitNodeUp)
            &&& goes_on ==> !next.waiting && (action == LinkAction::Yield <==> preferred.len() > 0
                && preferred[0] != me && !handled)
            &&& !goes_on ==> next.waiting == link.waiting && next.current == link.current
            &&& next.outgoing == link.outgoing
        }),
{
}

/// A link that let others go first looks at the next link that is preferred over it, and completes the
/// packet once there is none, or once another link has handled it.
pub proof fn law_links_let_preferred_ones_go_first(
    link: LinkView,
    me: usize,
    event: LinkEvent,
    handled: bool,
    node_down: bool,
    now: Nanos,
    packet_delay: Nanos,
)
    requires
        link.wf(),
        link.phase == LinkPhase::Yielding,
    ensures
        ({
            let (next, action) = link.step(me, event, handled, node_down, now, packet_delay);
            let preferred = link.current->0.preferred_links;
            let left = next.current->0.preferred_links;
            &&& preferred.len() == 0 ==> action == LinkAction::Complete
            &&& preferred.len() > 0 ==> seq![preferred[0]] + left == preferred
            &&& action == LinkAction::Yield <==> preferred.len() > 0 && preferred[0] != me
                && !handled
            &&& action == LinkAction::Complete <==> action != LinkAction::Yield
            &&& next.outgoing == link.outgoing
        }),
{
    let preferred = link.current->0.preferred_links;
    if preferred.len() > 0 {
        assert(seq![preferred[0]] + preferred.skip(1) =~= preferred);
    }
}

/// What a link waits for has happened: a packet is in its queue; its time is over; it is up; the node of
/// its packet is up. Where it waits on behalf of a packet, that also ends when the packet was handled.
pub proof fn law_waiting_ends_when_it_should(
    network: NetworkView,
    link: int,
    asked_for: LinkAction,
    now: Nanos,
)
    requires
        network.wf(),
        0 <= link < network.links.len(),
        network.links[link].current is Some,
    ensures
        ({
            let l = network.links[link];
            let packet = l.current->0;
            let event = network.link_event(link, asked_for, now);
            let handled = network.tickets[packet.ticket as int].state != TicketState::Waiting;
            let node_up = network.nodes[packet.src_node as int].status == NodeStatus::Up;
            match asked_for {
                LinkAction::Park => event == if l.outgoing.len() > 0 {
                    Some(LinkEvent::Woken)
                } else {
                    None
                },
                LinkAction::SleepUntil { until } => {
                    &&& handled ==> event == Some(LinkEvent::Handled)
                    &&& !handled && now >= until ==> event == Some(LinkEvent::Slept)
                    &&& !handled && now < until ==> event is None
                },
                LinkAction::AwaitLinkUp => {
                    &&& handled ==> event == Some(LinkEvent::Handled)
                    &&& !handled && l.status == LinkStatus::Up ==> event == Some(
                        LinkEvent::LinkCameUp,
                    )
                    &&& !handled && l.status == LinkStatus::Down ==> event is None
                },
                LinkAction::AwaitNodeUp { .. } => {
                    &&& handled ==> event == Some(LinkEvent::Handled)
                    &&& !handled && node_up ==> event == Some(LinkEvent::NodeCameUp)
                    &&& !handled && !node_up ==> event is None
                },
                LinkAction::Yield => event == Some(LinkEvent::Yielded),
                LinkAction::Complete => event is None,
            }
        }),
{
}

/// A link that handles no packet is woken up exactly when there is one in its queue.
pub proof fn law_links_are_woken_up(network: NetworkView, link: int, now: Nanos)
    ensures
        network.link_event(link, LinkAction::Park, now) is Some <==> network.links[link].outgoing.len()
            > 0,
{
}

} // verus!
