//! In which order links handle their packets, and which link handles a packet, over a whole run.

use crate::network::accounting::{packet_accounted_for, TicketState};
use crate::network::event::{LinkEventPayload, NetworkEventKind, NetworkEvents, NodeEventPayload};
use crate::network::inbound_queue::QueuedView;
use crate::network::laws::{law_events_keep_packets, law_links_are_fifo};
use crate::network::link::{LinkPhase, LinkView, OutgoingView, PacketBatch};
use crate::network::node::{is_new_node, BufferedView, NodeView};
use crate::network::routing::law_links_lead_towards_destination;
use crate::network::run::{drawn_for_links, NetworkStep};
use crate::network::setup::{is_initial, is_initialized, link_ends};
use crate::network::spec::NetworkSpec;
use crate::network::NetworkView;
use crate::random::Roll;
use crate::search::lemma_first_index;
use crate::time::Nanos;
use crate::tracing::simulation_step::DropReason;
use crate::tracing::tracer::TracerView;
use crate::transmit::PacketView;
use vstd::prelude::*;

verus! {

/// A packet as a link gets it, whichever links it may take.
pub open spec fn packet_itself(packet: OutgoingView) -> OutgoingView {
    OutgoingView { preferred_links: Seq::empty(), ..packet }
}

/// The packets that wait at a link, the oldest one first: the one that it is handling, and then its
/// queue.
pub open spec fn waiting_at(link: LinkView) -> Seq<OutgoingView> {
    let handled = match link.current {
        Some(packet) => seq![packet_itself(packet)],
        None => Seq::empty(),
    };
    handled + link.outgoing.map_values(|packet: OutgoingView| packet_itself(packet))
}

impl NetworkView {
    /// What the given link gets if a packet is handed to the first `count` of the links.
    pub open spec fn handed(
        self,
        node: int,
        packet: BufferedView,
        links: Seq<usize>,
        rolls: Seq<(Roll, Roll)>,
        count: nat,
        link: int,
    ) -> Seq<OutgoingView>
        decreases count,
    {
        if count == 0 {
            Seq::empty()
        } else {
            let earlier = self.handed(node, packet, links, rolls, (count - 1) as nat, link);
            if links[count - 1] == link {
                earlier.push(
                    OutgoingView {
                        in_node_since: packet.in_node_since,
                        src_node: node as usize,
                        data: packet.data,
                        anomalies: self.anomalies(link, rolls[count - 1]),
                        preferred_links: Seq::empty(),
                        ticket: packet.ticket,
                    },
                )
            } else {
                earlier
            }
        }
    }

    /// The packets that the link gets in a step.
    pub open spec fn handed_in(
        self,
        step: NetworkStep,
        draw: spec_fn(u64) -> Roll,
        link: int,
    ) -> Seq<OutgoingView> {
        match step {
            NetworkStep::Dispatch { node } => {
                let links = self.next_links(node);
                self.handed(
                    node,
                    self.nodes[node].outbound[0],
                    links,
                    drawn_for_links(draw, self.rng_state, links.len()).0,
                    links.len(),
                    link,
                )
            },
            _ => Seq::empty(),
        }
    }

    /// The packets that the link gets in a run, in this order.
    pub open spec fn all_handed(
        self,
        steps: Seq<NetworkStep>,
        draw: spec_fn(u64) -> Roll,
        link: int,
    ) -> Seq<OutgoingView>
        decreases steps.len(),
    {
        if steps.len() == 0 {
            Seq::empty()
        } else {
            self.all_handed(steps.drop_last(), draw, link) + self.run(
                steps.drop_last(),
                draw,
            ).handed_in(steps.last(), draw, link)
        }
    }

    /// The packet that the link completes in a step.
    pub open spec fn completed_in(self, step: NetworkStep, link: int) -> Seq<OutgoingView> {
        match step {
            NetworkStep::Complete { link: l, .. } if l == link => seq![
                packet_itself(self.links[link].current->0),
            ],
            _ => Seq::empty(),
        }
    }

    /// The packets that the link completes in a run, in this order.
    pub open spec fn all_completed(
        self,
        steps: Seq<NetworkStep>,
        draw: spec_fn(u64) -> Roll,
        link: int,
    ) -> Seq<OutgoingView>
        decreases steps.len(),
    {
        if steps.len() == 0 {
            Seq::empty()
        } else {
            self.all_completed(steps.drop_last(), draw, link) + self.run(
                steps.drop_last(),
                draw,
            ).completed_in(steps.last(), link)
        }
    }
}

/// Packets that arrive at a node change no link.
proof fn lemma_came_out_keeps_links(
    network: NetworkView,
    link: int,
    packets: Seq<QueuedView>,
    draw: spec_fn(u64) -> Roll,
    now: Nanos,
)
    ensures
        network.all_came_out(link, packets, draw, now).links == network.links,
    decreases packets.len(),
{
    if packets.len() > 0 {
        lemma_came_out_keeps_links(network, link, packets.drop_last(), draw, now);
    }
}

/// The links that a node chooses for a packet exist.
pub(crate) proof fn lemma_next_links_exist(network: NetworkView, node: int)
    requires
        network.links.len() <= usize::MAX,
    ensures
        forall|k: int|
            0 <= k < network.next_links(node).len() ==> #[trigger] network.next_links(node)[k]
                < network.links.len(),
{
    let links = network.next_links(node);
    assert forall|k: int| 0 <= k < links.len() implies #[trigger] links[k]
        < network.links.len() by {
        assert(links.contains(links[k]));
        law_links_lead_towards_destination(
            network.links,
            network.routes_by_addr,
            network.nodes[node].addresses,
            network.nodes[node].outbound[0].data.transmit.destination.ip,
            links[k],
        );
    }
}

/// A link that gets packets appends them to its queue, and changes in no other way.
proof fn lemma_handed(
    network: NetworkView,
    node: int,
    packet: BufferedView,
    links: Seq<usize>,
    rolls: Seq<(Roll, Roll)>,
    count: nat,
    link: int,
)
    requires
        0 <= link < network.links.len(),
        count <= links.len(),
        forall|k: int| 0 <= k < links.len() ==> #[trigger] links[k] < network.links.len(),
    ensures
        ({
            let after = network.handed_to_links(node, packet, links, rolls, count);
            &&& after.links.len() == network.links.len()
            &&& after.tickets == network.tickets
            &&& after.links[link] == LinkView {
                outgoing: after.links[link].outgoing,
                ..network.links[link]
            }
            &&& waiting_at(after.links[link]) == waiting_at(network.links[link]) + network.handed(
                node,
                packet,
                links,
                rolls,
                count,
                link,
            )
        }),
    decreases count,
{
    if count > 0 {
        lemma_handed(network, node, packet, links, rolls, (count - 1) as nat, link);
        let target = links[count - 1] as int;
        lemma_handed(network, node, packet, links, rolls, (count - 1) as nat, target);
        let before = network.handed_to_links(node, packet, links, rolls, (count - 1) as nat);
        let after = network.handed_to_links(node, packet, links, rolls, count);
        if target == link {
            let added = after.links[link].outgoing.last();
            let earlier = network.handed(node, packet, links, rolls, (count - 1) as nat, link);
            assert(after.links[link].outgoing == before.links[link].outgoing.push(added));
            assert(waiting_at(after.links[link]) =~= waiting_at(before.links[link]).push(
                packet_itself(added),
            ));
            assert(waiting_at(after.links[link]) =~= waiting_at(network.links[link])
                + earlier.push(packet_itself(added)));
        }
    } else {
        assert(waiting_at(network.links[link]) + Seq::<OutgoingView>::empty() =~= waiting_at(
            network.links[link],
        ));
    }
}

/// A step that is about other things leaves a link's packets and its pacer alone.
pub(crate) proof fn lemma_link_kept(
    network: NetworkView,
    step: NetworkStep,
    draw: spec_fn(u64) -> Roll,
    link: int,
)
    requires
        network.allows(step),
        0 <= link < network.links.len(),
        !(step is Dispatch),
        step matches NetworkStep::React { link: l, .. } ==> l != link,
        step matches NetworkStep::Complete { link: l, .. } ==> l != link,
    ensures
        ({
            let before = network.links[link];
            let after = network.after(step, draw).links[link];
            &&& network.after(step, draw).links.len() == network.links.len()
            &&& after.outgoing == before.outgoing
            &&& after.current == before.current
            &&& after.pacer == before.pacer
        }),
{
    match step {
        NetworkStep::Deliver { link: l, now, max } => {
            lemma_came_out_keeps_links(
                network.taken_from_link(l, now, max),
                l,
                network.at_link_end(l, now, max),
                draw,
                now,
            );
        },
        NetworkStep::Event { kind, now } => {
            match kind {
                NetworkEventKind::Link(e) => {
                    lemma_first_index(network.links, |l: LinkView| l.id@ == e.link_id@);
                },
                _ => {},
            }
        },
        _ => {},
    }
}

/// A node that hands out a packet appends it to the queues of links, and does nothing else to them.
pub(crate) proof fn lemma_dispatched(
    network: NetworkView,
    node: int,
    draw: spec_fn(u64) -> Roll,
    link: int,
)
    requires
        network.allows(NetworkStep::Dispatch { node }),
        0 <= link < network.links.len(),
    ensures
        ({
            let step = NetworkStep::Dispatch { node };
            let before = network.links[link];
            let after = network.after(step, draw);
            &&& after.links.len() == network.links.len()
            &&& after.tickets == network.tickets
            &&& after.links[link] == LinkView { outgoing: after.links[link].outgoing, ..before }
            &&& waiting_at(after.links[link]) == waiting_at(before) + network.handed_in(
                step,
                draw,
                link,
            )
        }),
{
    let n = network.nodes[node];
    let links = network.next_links(node);
    let popped = NetworkView {
        nodes: network.nodes.update(node, NodeView { outbound: n.outbound.skip(1), ..n }),
        ..network
    };
    let rolls = drawn_for_links(draw, network.rng_state, links.len()).0;
    lemma_next_links_exist(network, node);
    lemma_handed(popped, node, n.outbound[0], links, rolls, links.len(), link);
    lemma_handed_is_of_links(
        network,
        popped,
        node,
        n.outbound[0],
        links,
        rolls,
        links.len(),
        link,
    );
}

/// A link that reacts to an event keeps its packets, in their order.
proof fn lemma_reacting_keeps_waiting(
    network: NetworkView,
    step: NetworkStep,
    draw: spec_fn(u64) -> Roll,
    link: int,
)
    requires
        network.allows(step),
        0 <= link < network.links.len(),
        step matches NetworkStep::React { link: l, .. } && l == link,
    ensures
        waiting_at(network.after(step, draw).links[link]) == waiting_at(network.links[link]),
{
    let before = network.links[link];
    let after = network.after(step, draw).links[link];
    if let NetworkStep::React { event, now, packet_delay, .. } = step {
        law_links_are_fifo(
            before,
            link as usize,
            event,
            network.link_packet_handled(link),
            network.link_packet_node_down(link),
            now,
            packet_delay,
        );
    }
    if after.outgoing.len() < before.outgoing.len() {
        assert(packet_itself(after.current->0) == packet_itself(before.outgoing[0]));
    } else {
        assert(after.outgoing =~= before.outgoing);
    }
    assert(waiting_at(after) =~= waiting_at(before));
}

/// In each step, what waits at a link and what it gets is what it completes and what waits then.
proof fn lemma_step_is_fifo(
    network: NetworkView,
    step: NetworkStep,
    draw: spec_fn(u64) -> Roll,
    link: int,
)
    requires
        network.allows(step),
        0 <= link < network.links.len(),
    ensures
        network.after(step, draw).links.len() == network.links.len(),
        waiting_at(network.links[link]) + network.handed_in(step, draw, link)
            == network.completed_in(step, link) + waiting_at(
            network.after(step, draw).links[link],
        ),
{
    let before = waiting_at(network.links[link]);
    let after = waiting_at(network.after(step, draw).links[link]);
    let none = Seq::<OutgoingView>::empty();
    assert(before + none =~= before);
    assert(none + after =~= after);
    match step {
        NetworkStep::Dispatch { node } => {
            lemma_dispatched(network, node, draw, link);
        },
        NetworkStep::React { link: l, .. } if l == link => {
            lemma_reacting_keeps_waiting(network, step, draw, link);
        },
        NetworkStep::Complete { link: l, .. } if l == link => {
            assert(before =~= network.completed_in(step, link) + after);
        },
        _ => {
            lemma_link_kept(network, step, draw, link);
        },
    }
}

/// What a link gets depends on the links alone.
proof fn lemma_handed_is_of_links(
    a: NetworkView,
    b: NetworkView,
    node: int,
    packet: BufferedView,
    links: Seq<usize>,
    rolls: Seq<(Roll, Roll)>,
    count: nat,
    link: int,
)
    requires
        a.links == b.links,
    ensures
        a.handed(node, packet, links, rolls, count, link) == b.handed(
            node,
            packet,
            links,
            rolls,
            count,
            link,
        ),
    decreases count,
{
    if count > 0 {
        lemma_handed_is_of_links(a, b, node, packet, links, rolls, (count - 1) as nat, link);
    }
}

proof fn lemma_queues_append(
    first: Seq<OutgoingView>,
    handed: Seq<OutgoingView>,
    more: Seq<OutgoingView>,
    completed: Seq<OutgoingView>,
    done: Seq<OutgoingView>,
    waiting: Seq<OutgoingView>,
    then: Seq<OutgoingView>,
)
    requires
        first + handed == completed + waiting,
        waiting + more == done + then,
    ensures
        first + (handed + more) == (completed + done) + then,
{
    assert(first + (handed + more) =~= (first + handed) + more);
    assert((completed + waiting) + more =~= completed + (waiting + more));
    assert((completed + done) + then =~= completed + (done + then));
}

/// Links handle their packets in the order in which they get them, whatever is done to the network:
/// the packets that waited at a link in the beginning, and those that it got since, are the packets
/// that it completed, in the same order, followed by those that still wait.
pub proof fn law_runs_are_fifo(
    network: NetworkView,
    steps: Seq<NetworkStep>,
    draw: spec_fn(u64) -> Roll,
    link: int,
)
    requires
        network.allows_all(steps, draw),
        0 <= link < network.links.len(),
    ensures
        network.run(steps, draw).links.len() == network.links.len(),
        waiting_at(network.links[link]) + network.all_handed(steps, draw, link)
            == network.all_completed(steps, draw, link) + waiting_at(
            network.run(steps, draw).links[link],
        ),
    decreases steps.len(),
{
    let first = waiting_at(network.links[link]);
    if steps.len() == 0 {
        assert(first + Seq::<OutgoingView>::empty() =~= Seq::<OutgoingView>::empty() + first);
    } else {
        let earlier = steps.drop_last();
        law_runs_are_fifo(network, earlier, draw, link);
        let before = network.run(earlier, draw);
        lemma_step_is_fifo(before, steps.last(), draw, link);
        let handed = network.all_handed(earlier, draw, link);
        let completed = network.all_completed(earlier, draw, link);
        let more = before.handed_in(steps.last(), draw, link);
        let done = before.completed_in(steps.last(), link);
        let then = waiting_at(network.run(steps, draw).links[link]);
        lemma_queues_append(
            first,
            handed,
            more,
            completed,
            done,
            waiting_at(before.links[link]),
            then,
        );
    }
}

/// The state of the reservation with the given number. One that was not made yet can still be made,
/// and its packet then waits.
pub open spec fn ticket_state(network: NetworkView, ticket: int) -> TicketState {
    if ticket < network.tickets.len() {
        network.tickets[ticket].state
    } else {
        TicketState::Waiting
    }
}

impl NetworkView {
    /// The packet, given by its ticket, that is handled in a step, and what becomes of it: a packet
    /// that nobody handled yet is dropped if its node's buffer was cleared since, and sent otherwise.
    pub open spec fn handled_in(self, step: NetworkStep) -> Option<(int, TicketState)> {
        match step {
            NetworkStep::Complete { link, .. } => {
                let packet = self.links[link].current->0;
                if self.is_handled(packet) {
                    None
                } else if self.is_cleared(packet) {
                    Some((packet.ticket as int, TicketState::Cleared))
                } else {
                    Some((packet.ticket as int, TicketState::Sent))
                }
            },
            _ => None,
        }
    }

    /// How often a packet, given by its ticket, is handled in the given way in a run.
    pub open spec fn times_handled(
        self,
        steps: Seq<NetworkStep>,
        draw: spec_fn(u64) -> Roll,
        ticket: int,
        outcome: TicketState,
    ) -> nat
        decreases steps.len(),
    {
        if steps.len() == 0 {
            0
        } else {
            let earlier = steps.drop_last();
            self.times_handled(earlier, draw, ticket, outcome) + if self.run(
                earlier,
                draw,
            ).handled_in(steps.last()) == Some((ticket, outcome)) {
                1nat
            } else {
                0nat
            }
        }
    }
}

/// A link that completes a packet that another one handled only turns to the next packet. Otherwise
/// it handles the packet: if the node's buffer was cleared while the packet was in it, the link records
/// that the packet was dropped, and sends nothing; if not, it sends the packet, once, and records that.
pub proof fn law_completing_drops_or_sends(
    network: NetworkView,
    link: int,
    now: Nanos,
    packet_delay: Nanos,
)
    requires
        network.allows(NetworkStep::Complete { link, now, packet_delay }),
    ensures
        ({
            let packet = network.links[link].current->0;
            let node = network.nodes[packet.src_node as int];
            let before = network.links[link];
            let idle = LinkView { current: None, phase: LinkPhase::Idle, ..before };
            let after = network.completed(link, now, packet_delay);
            match network.handled_in(NetworkStep::Complete { link, now, packet_delay }) {
                None => network.is_handled(packet) && after == NetworkView {
                    links: network.links.update(link, idle),
                    ..network
                },
                Some((ticket, outcome)) => {
                    &&& !network.is_handled(packet)
                    &&& ticket == packet.ticket
                    &&& outcome == TicketState::Cleared <==> network.is_cleared(packet)
                    &&& outcome == TicketState::Cleared ==> after.tracer == network.tracer.dropped(
                        now,
                        node.id,
                        packet.data,
                        DropReason::BufferCleared,
                    ) && after.links == network.links.update(link, idle)
                    &&& outcome != TicketState::Cleared ==> outcome == TicketState::Sent
                        && after.tracer == network.tracer.packet_in_transit(
                        now,
                        node.id,
                        before.id,
                        packet.data,
                    ) && after.links == network.links.update(
                        link,
                        idle.sent(now, packet_delay, packet.data, packet.anomalies),
                    ) && after.links[link].in_transit.len() == before.in_transit.len() + 1
                },
            }
        }),
{
    let packet = network.links[link].current->0;
    let idle = LinkView {
        current: None,
        phase: LinkPhase::Idle,
        ..network.links[link]
    };
    let arrives_at = (now + idle.delay + packet.anomalies.extra_delay) as Nanos;
    lemma_first_index(idle.in_transit, |p: QueuedView| p.arrives_at > arrives_at);
}

proof fn lemma_came_out_keeps_states(
    network: NetworkView,
    link: int,
    packets: Seq<QueuedView>,
    draw: spec_fn(u64) -> Roll,
    now: Nanos,
    ticket: int,
)
    requires
        0 <= ticket,
    ensures
        ticket_state(network.all_came_out(link, packets, draw, now), ticket) == ticket_state(
            network,
            ticket,
        ),
    decreases packets.len(),
{
    if packets.len() > 0 {
        lemma_came_out_keeps_states(network, link, packets.drop_last(), draw, now, ticket);
        let before = network.all_came_out(link, packets.drop_last(), draw, now);
        let packet = packets.last();
        let left = before.left_link(link, packet, now);
        if let Some(node) = before.reached_node(link, packet) {
            lemma_forwarding_keeps_states(
                left,
                node,
                packet.data,
                draw(left.rng_state),
                now,
                ticket,
            );
        }
    }
}

proof fn lemma_forwarding_keeps_states(
    network: NetworkView,
    node: int,
    data: PacketView,
    roll: Roll,
    now: Nanos,
    ticket: int,
)
    requires
        0 <= ticket,
    ensures
        ticket_state(network.forwarded(node, data, roll, now), ticket) == ticket_state(
            network,
            ticket,
        ),
{
}

/// Reservations only end when their packet is handled, and in the way in which it is.
proof fn lemma_step_changes_state(
    network: NetworkView,
    step: NetworkStep,
    draw: spec_fn(u64) -> Roll,
    ticket: int,
)
    requires
        network.allows(step),
        0 <= ticket,
    ensures
        ticket_state(network.after(step, draw), ticket) == match network.handled_in(step) {
            Some((t, outcome)) if t == ticket => outcome,
            _ => ticket_state(network, ticket),
        },
        network.handled_in(step) matches Some((t, _)) ==> ticket_state(network, t)
            == TicketState::Waiting,
{
    match step {
        NetworkStep::Send { node, transmit, now } => {
            let created = network.packet_created();
            lemma_forwarding_keeps_states(
                created,
                node,
                network.new_packet(network.nodes[node].id@, transmit),
                draw(created.rng_state),
                now,
                ticket,
            );
        },
        NetworkStep::Dispatch { node } => {
            lemma_handing_keeps_tickets(network, node, draw);
        },
        NetworkStep::Complete { link, .. } => {
            assert(network.links[link].current is Some);
            let packet = network.links[link].current->0;
            assert(packet_accounted_for(
                network.tickets,
                packet.src_node as int,
                packet.data,
                packet.ticket,
            ));
        },
        NetworkStep::Deliver { link, now, max } => {
            lemma_came_out_keeps_states(
                network.taken_from_link(link, now, max),
                link,
                network.at_link_end(link, now, max),
                draw,
                now,
                ticket,
            );
        },
        NetworkStep::Event { kind, now } => {
            law_events_keep_packets(network, kind, now);
        },
        _ => {},
    }
}

pub(crate) proof fn lemma_handing_keeps_tickets(
    network: NetworkView,
    node: int,
    draw: spec_fn(u64) -> Roll,
)
    requires
        network.allows(NetworkStep::Dispatch { node }),
    ensures
        network.after(NetworkStep::Dispatch { node }, draw).tickets == network.tickets,
{
    let n = network.nodes[node];
    let links = network.next_links(node);
    let popped = NetworkView {
        nodes: network.nodes.update(node, NodeView { outbound: n.outbound.skip(1), ..n }),
        ..network
    };
    lemma_handing_many_keeps_tickets(
        popped,
        node,
        n.outbound[0],
        links,
        drawn_for_links(draw, network.rng_state, links.len()).0,
        links.len(),
    );
}

proof fn lemma_handing_many_keeps_tickets(
    network: NetworkView,
    node: int,
    packet: BufferedView,
    links: Seq<usize>,
    rolls: Seq<(Roll, Roll)>,
    count: nat,
)
    ensures
        network.handed_to_links(node, packet, links, rolls, count).tickets == network.tickets,
    decreases count,
{
    if count > 0 {
        lemma_handing_many_keeps_tickets(network, node, packet, links, rolls, (count - 1) as nat);
    }
}

/// Whatever is done to a network, a packet is handled by at most one of the links that were asked to
/// send it, and only once: it is sent once if its reservation has ended because it was sent, and it is
/// dropped once if its reservation has ended because the buffer was cleared. A packet that was handled
/// before is not handled again.
pub proof fn law_packets_are_handled_once(
    network: NetworkView,
    steps: Seq<NetworkStep>,
    draw: spec_fn(u64) -> Roll,
    ticket: int,
)
    requires
        network.allows_all(steps, draw),
        0 <= ticket,
    ensures
        ({
            let before = ticket_state(network, ticket);
            let after = ticket_state(network.run(steps, draw), ticket);
            let sent = network.times_handled(steps, draw, ticket, TicketState::Sent);
            let cleared = network.times_handled(steps, draw, ticket, TicketState::Cleared);
            &&& sent + cleared <= 1
            &&& sent == 1 <==> before == TicketState::Waiting && after == TicketState::Sent
            &&& cleared == 1 <==> before == TicketState::Waiting && after == TicketState::Cleared
            &&& before != TicketState::Waiting ==> after == before
        }),
    decreases steps.len(),
{
    if steps.len() > 0 {
        let earlier = steps.drop_last();
        law_packets_are_handled_once(network, earlier, draw, ticket);
        lemma_step_changes_state(network.run(earlier, draw), steps.last(), draw, ticket);
    }
}

/// No packet waits in the network, and its links have nothing booked.
pub open spec fn holds_nothing(network: NetworkView, now: Nanos) -> bool {
    &&& network.tickets.len() == 0
    &&& forall|n: int|
        0 <= n < network.nodes.len() ==> (#[trigger] network.nodes[n]).outbound.len() == 0
    &&& forall|l: int|
        0 <= l < network.links.len() ==> {
            let link = #[trigger] network.links[l];
            &&& link.outgoing.len() == 0
            &&& link.current is None
            &&& link.pacer.batch == PacketBatch { created: now, delay: 0 }
        }
}

proof fn lemma_event_puts_nothing(network: NetworkView, event: NetworkEventKind, now: Nanos)
    requires
        holds_nothing(network, now),
    ensures
        holds_nothing(network.event_processed(event, now), now),
{
    match event {
        NetworkEventKind::Link(link) => {
            lemma_first_index(network.links, |l: LinkView| l.id@ == link.link_id@);
        },
        NetworkEventKind::Node(node) => {
            lemma_first_index(network.nodes, |n: NodeView| n.id@ == node.node_id@);
        },
    }
}

proof fn lemma_link_events_put_nothing(
    network: NetworkView,
    events: Seq<LinkEventPayload>,
    now: Nanos,
)
    requires
        holds_nothing(network, now),
    ensures
        holds_nothing(network.link_events_processed(events, now), now),
    decreases events.len(),
{
    if events.len() > 0 {
        lemma_link_events_put_nothing(network, events.drop_last(), now);
        lemma_event_puts_nothing(
            network.link_events_processed(events.drop_last(), now),
            NetworkEventKind::Link(events.last()),
            now,
        );
    }
}

proof fn lemma_node_events_put_nothing(
    network: NetworkView,
    events: Seq<NodeEventPayload>,
    now: Nanos,
)
    requires
        holds_nothing(network, now),
    ensures
        holds_nothing(network.node_events_processed(events, now), now),
    decreases events.len(),
{
    if events.len() > 0 {
        lemma_node_events_put_nothing(network, events.drop_last(), now);
        lemma_event_puts_nothing(
            network.node_events_processed(events.drop_last(), now),
            NetworkEventKind::Node(events.last()),
            now,
        );
    }
}

/// In a network that was just set up, no packet waits, and the links have nothing booked.
pub proof fn law_new_network_holds_nothing(
    network: NetworkView,
    spec: NetworkSpec,
    events: NetworkEvents,
    tracer: TracerView,
    rng_state: u64,
    now: Nanos,
)
    requires
        is_initialized(network, spec, events, tracer, rng_state, now),
    ensures
        holds_nothing(network, now),
{
    let initial = choose|initial: NetworkView| #[trigger]
        is_initial(initial, spec, tracer, rng_state, now) && network
            == initial.link_events_processed(
            events.initial_link_events@,
            now,
        ).node_events_processed(events.initial_node_events@, now);
    assert forall|n: int| 0 <= n < initial.nodes.len() implies (
    #[trigger] initial.nodes[n]).outbound.len() == 0 by {
        assert(is_new_node(initial.nodes[n], spec.nodes@[n], link_ends(spec.links@)));
    }
    assert(holds_nothing(initial, now));
    lemma_link_events_put_nothing(initial, events.initial_link_events@, now);
    lemma_node_events_put_nothing(
        initial.link_events_processed(events.initial_link_events@, now),
        events.initial_node_events@,
        now,
    );
}

/// From the time a network is set up, each link completes the packets that it gets, in the order in
/// which it gets them: what it has completed is the beginning of what it got, and the rest waits.
pub proof fn law_links_complete_what_they_get(
    network: NetworkView,
    spec: NetworkSpec,
    events: NetworkEvents,
    tracer: TracerView,
    rng_state: u64,
    now: Nanos,
    steps: Seq<NetworkStep>,
    draw: spec_fn(u64) -> Roll,
    link: int,
)
    requires
        is_initialized(network, spec, events, tracer, rng_state, now),
        network.allows_all(steps, draw),
        0 <= link < network.links.len(),
    ensures
        network.all_handed(steps, draw, link) == network.all_completed(steps, draw, link)
            + waiting_at(network.run(steps, draw).links[link]),
{
    law_new_network_holds_nothing(network, spec, events, tracer, rng_state, now);
    law_runs_are_fifo(network, steps, draw, link);
    assert(waiting_at(network.links[link]) =~= Seq::empty());
    assert(waiting_at(network.links[link]) + network.all_handed(steps, draw, link)
        =~= network.all_handed(steps, draw, link));
}

} // verus!
