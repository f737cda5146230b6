//! How packets move: into a node, through its buffer, over a link and into the next node.

use crate::network::accounting::{
    lemma_reserved_push, lemma_reserved_update, packet_accounted_for, reserved, Ticket,
    TicketState,
};
use crate::network::inbound_queue::{due, queued_views, QueuedPacket, QueuedView};
use crate::network::ip::SocketAddr;
use crate::network::link::{
    LinkAction, LinkEvent, LinkPhase, LinkStatus, LinkView, OutgoingPacket, OutgoingView,
    PacketAnomalies,
};
use crate::network::node::{BufferedPacket, BufferedView, NodeStatus, NodeView};
use crate::network::{node_with_address, InMemoryNetwork, NetworkView};
use crate::random::{drawn_u128, Roll};
use crate::text::{join, joined, texts};
use crate::time::{Nanos, SPAN_MAX};
use crate::tracing::simulation_step::DropReason;
use crate::tracing::simulation_stepper::path;
use crate::transmit::{EcnCodepoint, InTransitData, PacketView};
use vstd::prelude::*;

verus! {

/// What a node does with the oldest packet in its outbound buffer.
pub enum BufferDecision {
    /// There is none
    Idle,
    /// No route leads to the packet's destination; the nodes that the packet passed
    MissingRoute { destination: SocketAddr, path: String },
    /// The packet is handed to links, in this order
    Links { links: Vec<usize> },
}

impl NetworkView {
    /// The packet is put in the node's outbound buffer, or dropped if there is no room.
    pub open spec fn enqueued_outbound(
        self,
        node: int,
        data: PacketView,
        now: Nanos,
    ) -> NetworkView {
        let n = self.nodes[node];
        if n.outbound_buffer.has_room(data.size()) {
            NetworkView {
                nodes: self.nodes.update(
                    node,
                    n.buffered(
                        BufferedView {
                            in_node_since: now,
                            data,
                            ticket: self.tickets.len() as usize,
                        },
                    ),
                ),
                tickets: self.tickets.push(
                    Ticket {
                        node: node as usize,
                        size: data.size() as usize,
                        state: TicketState::Waiting,
                    },
                ),
                ..self
            }
        } else {
            NetworkView {
                tracer: self.tracer.dropped_because_buffer_full(now, n.id, data),
                ..self
            }
        }
    }

    /// The node keeps a packet that it did not lose: it delivers a packet that is destined for it,
    /// and puts any other one in its outbound buffer.
    pub open spec fn taken_in(self, node: int, data: PacketView, now: Nanos) -> NetworkView {
        let n = self.nodes[node];
        if data.transmit.destination.ip == n.canonical_address {
            NetworkView { nodes: self.nodes.update(node, n.delivered(now, data)), ..self }
        } else {
            self.enqueued_outbound(node, data, now)
        }
    }

    /// The node admits a packet: depending on the draw, it loses or duplicates it.
    pub open spec fn admitted(
        self,
        node: int,
        data: PacketView,
        roll: Roll,
        now: Nanos,
    ) -> NetworkView {
        let n = self.nodes[node];
        let rolled = NetworkView { rng_state: roll.rng_state, ..self };
        if n.loses(roll) {
            NetworkView { tracer: self.tracer.dropped_randomly(now, n.id, data), ..rolled }
        } else if n.duplicates(roll) {
            let (rng_state, id) = drawn_u128(roll.rng_state);
            let copy = PacketView { id, duplicate: true, ..data };
            let first = NetworkView { rng_state, ..self }.taken_in(node, data, now);
            NetworkView {
                tracer: first.tracer.injected_failures(now, n.id, copy, true, 0, false),
                ..first
            }.taken_in(node, copy, now)
        } else {
            rolled.taken_in(node, data, now)
        }
    }

    /// A packet arrives at the node, at `now`: a node that is down drops it, and any other one
    /// admits it.
    pub open spec fn forwarded(
        self,
        node: int,
        data: PacketView,
        roll: Roll,
        now: Nanos,
    ) -> NetworkView {
        let n = self.nodes[node];
        if n.status == NodeStatus::Down {
            NetworkView { tracer: self.tracer.packet_in_node(now, n.id, data, true), ..self }
        } else {
            NetworkView {
                tracer: self.tracer.packet_in_node(now, n.id, data, false),
                ..self
            }.admitted(node, data, roll, now)
        }
    }

    /// The packets that have arrived at the end of the link at `now`.
    pub open spec fn at_link_end(self, link: int, now: Nanos, max: usize) -> Seq<QueuedView> {
        let in_transit = self.links[link].in_transit;
        in_transit.take(due(in_transit, now, max))
    }

    /// The network after those packets were taken from the link.
    pub open spec fn taken_from_link(self, link: int, now: Nanos, max: usize) -> NetworkView {
        let l = self.links[link];
        NetworkView {
            links: self.links.update(
                link,
                LinkView { in_transit: l.in_transit.skip(due(l.in_transit, now, max)), ..l },
            ),
            ..self
        }
    }

    /// A packet comes out of the link: it is lost if the link went down after the packet was sent.
    pub open spec fn left_link(self, link: int, packet: QueuedView, now: Nanos) -> NetworkView {
        let l = self.links[link];
        if l.was_down_after(packet.sent) {
            NetworkView { tracer: self.tracer.lost_in_transit(now, l.id, packet.data), ..self }
        } else {
            self
        }
    }

    /// The node that a packet reaches when it comes out of the link.
    pub open spec fn reached_node(self, link: int, packet: QueuedView) -> Option<int> {
        if self.links[link].was_down_after(packet.sent) {
            None
        } else {
            node_with_address(self.nodes, self.links[link].target)
        }
    }

    /// What happens to a packet on the link, depending on the draws.
    pub open spec fn anomalies(self, link: int, rolls: (Roll, Roll)) -> PacketAnomalies {
        let l = self.links[link];
        PacketAnomalies {
            extra_delay: if rolls.0.value.spec_is_below(l.extra_delay_ratio) {
                l.extra_delay
            } else {
                0
            },
            congestion_experienced: rolls.1.value.spec_is_below(l.congestion_event_ratio),
        }
    }

    /// The packet is handed to one of the links that were chosen for it.
    pub open spec fn handed_to_link(
        self,
        node: int,
        packet: BufferedView,
        links: Seq<usize>,
        link: int,
        rolls: (Roll, Roll),
    ) -> NetworkView {
        NetworkView {
            rng_state: rolls.1.rng_state,
            links: self.links.update(
                link,
                LinkView {
                    outgoing: self.links[link].outgoing.push(
                        OutgoingView {
                            in_node_since: packet.in_node_since,
                            src_node: node as usize,
                            data: packet.data,
                            anomalies: self.anomalies(link, rolls),
                            preferred_links: links,
                            ticket: packet.ticket,
                        },
                    ),
                    ..self.links[link]
                },
            ),
            ..self
        }
    }

    /// The packet is handed to the first `count` links.
    pub open spec fn handed_to_links(
        self,
        node: int,
        packet: BufferedView,
        links: Seq<usize>,
        rolls: Seq<(Roll, Roll)>,
        count: nat,
    ) -> NetworkView
        decreases count,
    {
        if count == 0 {
            self
        } else {
            self.handed_to_links(node, packet, links, rolls, (count - 1) as nat).handed_to_link(
                node,
                packet,
                links,
                links[count - 1] as int,
                rolls[count - 1],
            )
        }
    }

    /// Where the oldest packet in the node's outbound buffer goes.
    pub open spec fn next_links(self, node: int) -> Seq<usize> {
        self.walk_links(node, self.nodes[node].outbound[0].data.transmit.destination.ip)
    }

    /// The oldest packet in the node's outbound buffer is handed to all links that could take it.
    pub open spec fn dispatched(self, node: int, rolls: Seq<(Roll, Roll)>) -> NetworkView {
        let n = self.nodes[node];
        let links = self.next_links(node);
        NetworkView {
            nodes: self.nodes.update(node, NodeView { outbound: n.outbound.skip(1), ..n }),
            ..self
        }.handed_to_links(node, n.outbound[0], links, rolls, links.len())
    }

    /// The packet that a link is busy with: the one that it handles, or else the oldest one in its
    /// queue.
    pub open spec fn link_packet(self, link: int) -> Option<OutgoingView> {
        match self.links[link].current {
            Some(packet) => Some(packet),
            None => if self.links[link].outgoing.len() > 0 {
                Some(self.links[link].outgoing[0])
            } else {
                None
            },
        }
    }

    /// The packet was sent or dropped already.
    pub open spec fn is_handled(self, packet: OutgoingView) -> bool {
        self.tickets[packet.ticket as int].state != TicketState::Waiting
    }

    /// The packet was in the buffer when the buffer was cleared.
    pub open spec fn is_cleared(self, packet: OutgoingView) -> bool {
        self.nodes[packet.src_node as int].last_buffer_clear matches Some(t)
            && packet.in_node_since < t
    }

    pub open spec fn link_packet_handled(self, link: int) -> bool {
        self.link_packet(link) matches Some(packet) && self.is_handled(packet)
    }

    pub open spec fn link_packet_node_down(self, link: int) -> bool {
        self.link_packet(link) matches Some(packet)
            && self.nodes[packet.src_node as int].status == NodeStatus::Down
    }

    /// What happened of what a link asked for, if anything. Most waiting also ends when another link
    /// handles the packet.
    pub open spec fn link_event(self, link: int, asked_for: LinkAction, now: Nanos) -> Option<
        LinkEvent,
    > {
        let handled = self.link_packet_handled(link);
        match asked_for {
            LinkAction::Park => if self.links[link].outgoing.len() > 0 {
                Some(LinkEvent::Woken)
            } else {
                None
            },
            LinkAction::SleepUntil { until } => if handled {
                Some(LinkEvent::Handled)
            } else if now >= until {
                Some(LinkEvent::Slept)
            } else {
                None
            },
            LinkAction::AwaitLinkUp => if handled {
                Some(LinkEvent::Handled)
            } else if self.links[link].status == LinkStatus::Up {
                Some(LinkEvent::LinkCameUp)
            } else {
                None
            },
            LinkAction::AwaitNodeUp { .. } => if handled {
                Some(LinkEvent::Handled)
            } else if !self.link_packet_node_down(link) {
                Some(LinkEvent::NodeCameUp)
            } else {
                None
            },
            LinkAction::Yield => Some(LinkEvent::Yielded),
            LinkAction::Complete => None,
        }
    }

    /// Nothing keeps the link from completing its packet at `now`.
    pub open spec fn can_complete(self, link: int, now: Nanos, packet_delay: Nanos) -> bool {
        self.links[link].current matches Some(packet) && self.links[link].phase == LinkPhase::Ready
            && (self.is_handled(packet) || self.is_cleared(packet) || self.links[link].can_send(
            now,
            packet_delay,
            packet.data,
            packet.anomalies,
        ))
    }

    /// The link completes its packet at `now`: unless another link was faster, it sends it, or drops
    /// it if the buffer was cleared in the meantime.
    pub open spec fn completed(self, link: int, now: Nanos, packet_delay: Nanos) -> NetworkView {
        let packet = self.links[link].current->0;
        let idle = LinkView { current: None, phase: LinkPhase::Idle, ..self.links[link] };
        let node = self.nodes[packet.src_node as int];
        let ticket = self.tickets[packet.ticket as int];
        if self.is_handled(packet) {
            NetworkView { links: self.links.update(link, idle), ..self }
        } else if self.is_cleared(packet) {
            NetworkView {
                links: self.links.update(link, idle),
                tickets: self.tickets.update(
                    packet.ticket as int,
                    Ticket { state: TicketState::Cleared, ..ticket },
                ),
                tracer: self.tracer.dropped(now, node.id, packet.data, DropReason::BufferCleared),
                ..self
            }
        } else {
            NetworkView {
                links: self.links.update(
                    link,
                    idle.sent(now, packet_delay, packet.data, packet.anomalies),
                ),
                nodes: self.nodes.update(
                    packet.src_node as int,
                    node.released(packet.data.size()),
                ),
                tickets: self.tickets.update(
                    packet.ticket as int,
                    Ticket { state: TicketState::Sent, ..ticket },
                ),
                tracer: self.tracer.packet_in_transit(now, node.id, idle.id, packet.data),
                ..self
            }
        }
    }
}

impl InMemoryNetwork {
    fn enqueue_outbound(&mut self, node: usize, data: InTransitData, now: Nanos)
        requires
            old(self).wf(),
            node < old(self)@.nodes.len(),
        ensures
            final(self).wf(),
            final(self)@ == old(self)@.enqueued_outbound(node as int, data@, now),
    {
        let ghost before = self@;
        assert(before.nodes[node as int] == self.nodes@[node as int]@);
        let size: usize = data.transmit.packet_size();
        let ghost packet = data@;
        if self.nodes[node].outbound_buffer.reserve(size) {
            // The buffer has capacity
            let ticket: usize = self.tickets.len();
            let ghost buffered = BufferedView { in_node_since: now, data: packet, ticket };
            self.nodes[node].outbound.push(BufferedPacket { in_node_since: now, data, ticket });
            self.tickets.push(Ticket { node, size, state: TicketState::Waiting });
            proof {
                let n = before.nodes[node as int].buffered(buffered);
                assert(self.nodes@[node as int]@.outbound =~= n.outbound);
                assert(self.nodes@[node as int]@ =~= n);
                assert(self@.nodes =~= before.nodes.update(node as int, n));
                assert(self@ =~= before.enqueued_outbound(node as int, packet, now));
                lemma_enqueued_keeps_wf(before, node as int, packet, now);
            }
        } else {
            // The buffer is full and the packet is being dropped
            assert(self@.nodes =~= before.nodes);
            self.tracer.track_dropped_because_buffer_full(now, &self.nodes[node].id, &data);
            assert(self@ =~= before.enqueued_outbound(node as int, packet, now));
        }
    }

    fn take_in(&mut self, node: usize, data: InTransitData, now: Nanos)
        requires
            old(self).wf(),
            node < old(self)@.nodes.len(),
        ensures
            final(self).wf(),
            final(self)@ == old(self)@.taken_in(node as int, data@, now),
    {
        let ghost before = self@;
        assert(before.nodes[node as int] == self.nodes@[node as int]@);
        if data.transmit.destination.ip == self.nodes[node].canonical_address {
            // The packet has reached its destination
            let ghost packet = data@;
            self.nodes[node].deliver_packet(now, data);
            proof {
                let n = before.nodes[node as int].delivered(now, packet);
                assert(self@.nodes =~= before.nodes.update(node as int, n));
                assert(self@ =~= before.taken_in(node as int, packet, now));
                lemma_same_packets_keep_wf(before, self@, node as int);
            }
        } else {
            self.enqueue_outbound(node, data, now);
        }
    }

    /// Lets a packet arrive at a node, at `now`. A node that is down drops it. Otherwise the draw
    /// decides whether the packet is lost or duplicated; what is left is delivered if it is destined
    /// for the node, and put in the node's outbound buffer if not, unless there is no room.
    pub fn forward(&mut self, node: usize, data: InTransitData, roll: Roll, now: Nanos)
        requires
            old(self).wf(),
            node < old(self)@.nodes.len(),
        ensures
            final(self).wf(),
            final(self)@ == old(self)@.forwarded(node as int, data@, roll, now),
    {
        let ghost before = self@;
        let ghost packet = data@;
        assert(before.nodes[node as int] == self.nodes@[node as int]@);
        if self.nodes[node].is_down() {
            self.tracer.track_dropped_on_arrival(now, &self.nodes[node].id, &data);
            return;
        }
        self.tracer.track_packet_in_node(now, &self.nodes[node].id, &data);
        let ghost seen = self@;
        assert(seen.nodes[node as int] == self.nodes@[node as int]@);
        let failures = self.nodes[node].injected_failures;
        self.rng_state = roll.rng_state;
        if roll.value.is_below(failures.packet_loss_ratio) {
            self.tracer.track_dropped_randomly(now, &self.nodes[node].id, &data);
            return;
        }
        if roll.value.is_below(failures.packet_loss_or_duplication_ratio) {
            let mut copy = data.clone();
            copy.id = self.new_packet_id();
            copy.duplicate = true;
            self.take_in(node, data, now);
            assert(self@.nodes[node as int].id == before.nodes[node as int].id);
            assert(self@.nodes[node as int] == self.nodes@[node as int]@);
            self.tracer.track_injected_failures(
                now,
                &self.nodes[node].id,
                &copy,
                true,
                0,
                false,
            );
            self.take_in(node, copy, now);
        } else {
            self.take_in(node, data, now);
        }
    }

    /// Decides, from two draws, what happens to a packet on a link.
    pub fn generate_packet_anomalies(&mut self, link: usize, rolls: (Roll, Roll)) -> (r:
        PacketAnomalies)
        requires
            link < old(self)@.links.len(),
        ensures
            r == old(self)@.anomalies(link as int, rolls),
            final(self)@ == (NetworkView { rng_state: rolls.1.rng_state, ..old(self)@ }),
            old(self).wf() ==> final(self).wf(),
    {
        assert(self@.links[link as int] == self.links@[link as int]@);
        let mut extra_delay: Nanos = 0;
        if rolls.0.value.is_below(self.links[link].extra_delay_ratio) {
            extra_delay = self.links[link].extra_delay;
        }
        let congestion_experienced = rolls.1.value.is_below(
            self.links[link].congestion_event_ratio,
        );
        self.rng_state = rolls.1.rng_state;
        PacketAnomalies { congestion_experienced, extra_delay }
    }

    /// Decides where the oldest packet in a node's outbound buffer goes.
    pub fn decide_buffered(&self, node: usize) -> (r: BufferDecision)
        requires
            self.wf(),
            node < self@.nodes.len(),
        ensures
            match r {
                BufferDecision::Idle => self@.nodes[node as int].outbound.len() == 0,
                BufferDecision::MissingRoute { destination, path: text } => {
                    let n = self@.nodes[node as int];
                    &&& n.outbound.len() > 0
                    &&& self@.next_links(node as int).len() == 0
                    &&& destination == n.outbound[0].data.transmit.destination
                    &&& text@ == joined(
                        texts(path(self@.tracer.steps, n.outbound[0].data.id)),
                        " -> "@,
                    ) + " -> ?"@
                },
                BufferDecision::Links { links } => {
                    &&& self@.nodes[node as int].outbound.len() > 0
                    &&& links@ == self@.next_links(node as int)
                    &&& links@.len() > 0
                },
            },
    {
        assert(self@.nodes[node as int] == self.nodes@[node as int]@);
        if self.nodes[node].outbound.len() == 0 {
            return BufferDecision::Idle;
        }
        assert(self@.nodes[node as int].outbound[0] == self.nodes@[node as int].outbound@[0]@);
        let destination = self.nodes[node].outbound[0].data.transmit.destination;
        let links = self.walk_links(node, destination.ip);
        if links.len() == 0 {
            // There is no route to the destination
            let nodes = self.tracer.stepper().get_packet_path(self.nodes[node].outbound[0].data.id);
            let mut path = join(&nodes, " -> ");
            path.append(" -> ?");
            BufferDecision::MissingRoute { destination, path }
        } else {
            BufferDecision::Links { links }
        }
    }

    fn hand_to_link(
        &mut self,
        node: usize,
        packet: &BufferedPacket,
        links: &Vec<usize>,
        link: usize,
        rolls: (Roll, Roll),
    )
        requires
            old(self).wf(),
            node < old(self)@.nodes.len(),
            link < old(self)@.links.len(),
            packet_accounted_for(old(self)@.tickets, node as int, packet@.data, packet@.ticket),
        ensures
            final(self).wf(),
            final(self)@ == old(self)@.handed_to_link(
                node as int,
                packet@,
                links@,
                link as int,
                rolls,
            ),
    {
        let ghost before = self@;
        let anomalies = self.generate_packet_anomalies(link, rolls);
        let mut preferred_links: Vec<usize> = Vec::new();
        for i in 0..links.len()
            invariant
                preferred_links@ == links@.take(i as int),
        {
            preferred_links.push(links[i]);
            assert(preferred_links@ =~= links@.take(i + 1));
        }
        assert(links@.take(links@.len() as int) =~= links@);
        let data = packet.data.clone();
        assert(before.links[link as int] == self.links@[link as int]@);
        let ghost rolled = self@;
        self.links[link].outgoing.push(
            OutgoingPacket {
                in_node_since: packet.in_node_since,
                src_node: node,
                data,
                anomalies,
                preferred_links,
                ticket: packet.ticket,
            },
        );
        proof {
            let after = before.handed_to_link(node as int, packet@, links@, link as int, rolls);
            assert(self.links@[link as int]@.outgoing =~= after.links[link as int].outgoing);
            assert(self.links@[link as int]@ =~= after.links[link as int]);
            assert(self@.links =~= after.links);
            assert(self@ =~= after);
            assert forall|l: int, k: int|
                0 <= l < after.links.len() && 0 <= k
                    < after.links[l].outgoing.len() implies packet_accounted_for(
                after.tickets,
                after.links[l].outgoing[k].src_node as int,
                #[trigger] after.links[l].outgoing[k].data,
                after.links[l].outgoing[k].ticket,
            ) by {
                if l != link || k < before.links[l].outgoing.len() {
                    assert(before.links[l].outgoing[k].data == after.links[l].outgoing[k].data);
                }
            }
            lemma_links_keep_wf(before, after, link as int);
        }
    }

    /// Hands the oldest packet in a node's outbound buffer to all links that could take it; the
    /// first one to complete it wins. Two draws decide, for each link, what happens to the packet
    /// there.
    pub fn dispatch(&mut self, node: usize, rolls: &Vec<(Roll, Roll)>)
        requires
            old(self).wf(),
            node < old(self)@.nodes.len(),
            old(self)@.nodes[node as int].outbound.len() > 0,
            rolls@.len() == old(self)@.next_links(node as int).len(),
        ensures
            final(self).wf(),
            final(self)@ == old(self)@.dispatched(node as int, rolls@),
    {
        let ghost before = self@;
        assert(before.nodes[node as int] == self.nodes@[node as int]@);
        assert(before.nodes[node as int].outbound[0] == self.nodes@[node as int].outbound@[0]@);
        let dest = self.nodes[node].outbound[0].data.transmit.destination.ip;
        let links = self.walk_links(node, dest);
        proof {
            assert(packet_accounted_for(
                before.tickets,
                node as int,
                before.nodes[node as int].outbound[0].data,
                before.nodes[node as int].outbound[0].ticket,
            ));
        }
        let packet = self.nodes[node].outbound.remove(0);
        let ghost popped = self@;
        proof {
            let n = before.nodes[node as int];
            let n2 = NodeView { outbound: n.outbound.skip(1), ..n };
            assert(self.nodes@[node as int]@.outbound =~= n2.outbound);
            assert(self.nodes@[node as int]@ =~= n2);
            assert(popped.nodes =~= before.nodes.update(node as int, n2));
            assert forall|k: int| 0 <= k < n2.outbound.len() implies #[trigger] n2.outbound[k]
                == n.outbound[k + 1] by {}
            lemma_popped_keeps_wf(before, popped, node as int);
        }
        for i in 0..links.len()
            invariant
                self.wf(),
                links@ == before.next_links(node as int),
                rolls@.len() == links@.len(),
                node < before.nodes.len(),
                self@.nodes == popped.nodes,
                popped.nodes.len() == before.nodes.len(),
                popped.links == before.links,
                self@.links.len() == before.links.len(),
                self@.tickets == before.tickets,
                forall|k: int| 0 <= k < links@.len() ==> #[trigger] links@[k] < before.links.len(),
                packet_accounted_for(before.tickets, node as int, packet@.data, packet@.ticket),
                self@ == popped.handed_to_links(
                    node as int,
                    packet@,
                    links@,
                    rolls@,
                    i as nat,
                ),
        {
            self.hand_to_link(node, &packet, &links, links[i], rolls[i]);
        }
    }

    /// The size of the packet that a link is busy with.
    pub fn link_packet_size(&self, link: usize) -> (r: Option<usize>)
        requires
            link < self@.links.len(),
        ensures
            r == match self@.link_packet(link as int) {
                Some(packet) => Some(packet.data.size() as usize),
                None => None,
            },
    {
        assert(self@.links[link as int] == self.links@[link as int]@);
        match &self.links[link].current {
            Some(packet) => Some(packet.data.transmit.packet_size()),
            None => if self.links[link].outgoing.len() > 0 {
                assert(self@.links[link as int].outgoing[0]
                    == self.links@[link as int].outgoing@[0]@);
                Some(self.links[link].outgoing[0].data.transmit.packet_size())
            } else {
                None
            },
        }
    }

    /// What happened of what a link asked for, if anything.
    pub fn link_event(&self, link: usize, asked_for: LinkAction, now: Nanos) -> (r: Option<
        LinkEvent,
    >)
        requires
            self.wf(),
            link < self@.links.len(),
        ensures
            r == self@.link_event(link as int, asked_for, now),
    {
        assert(self@.links[link as int] == self.links@[link as int]@);
        let (handled, node_down) = self.link_packet_state(link);
        match asked_for {
            LinkAction::Park => if self.links[link].outgoing.len() > 0 {
                Some(LinkEvent::Woken)
            } else {
                None
            },
            LinkAction::SleepUntil { until } => if handled {
                Some(LinkEvent::Handled)
            } else if now >= until {
                Some(LinkEvent::Slept)
            } else {
                None
            },
            LinkAction::AwaitLinkUp => if handled {
                Some(LinkEvent::Handled)
            } else if !self.links[link].is_down() {
                Some(LinkEvent::LinkCameUp)
            } else {
                None
            },
            LinkAction::AwaitNodeUp { .. } => if handled {
                Some(LinkEvent::Handled)
            } else if !node_down {
                Some(LinkEvent::NodeCameUp)
            } else {
                None
            },
            LinkAction::Yield => Some(LinkEvent::Yielded),
            LinkAction::Complete => None,
        }
    }

    fn link_packet_state(&self, link: usize) -> (r: (bool, bool))
        requires
            self.wf(),
            link < self@.links.len(),
        ensures
            r.0 == self@.link_packet_handled(link as int),
            r.1 == self@.link_packet_node_down(link as int),
    {
        assert(self@.links[link as int] == self.links@[link as int]@);
        let packet = match &self.links[link].current {
            Some(packet) => packet,
            None => {
                if self.links[link].outgoing.len() == 0 {
                    return (false, false);
                }
                assert(self@.links[link as int].outgoing[0]
                    == self.links@[link as int].outgoing@[0]@);
                assert(packet_accounted_for(
                    self@.tickets,
                    self@.links[link as int].outgoing[0].src_node as int,
                    self@.links[link as int].outgoing[0].data,
                    self@.links[link as int].outgoing[0].ticket,
                ));
                &self.links[link].outgoing[0]
            },
        };
        assert(packet_accounted_for(
            self@.tickets,
            packet@.src_node as int,
            packet@.data,
            packet@.ticket,
        ));
        assert(self@.tickets[packet@.ticket as int].node < self@.nodes.len());
        assert(self@.nodes[packet@.src_node as int] == self.nodes@[packet@.src_node as int]@);
        let handled = match self.tickets[packet.ticket].state {
            TicketState::Waiting => false,
            _ => true,
        };
        (handled, self.nodes[packet.src_node].is_down())
    }

    /// Lets a link react to an event. `packet_delay` is how long the packet takes to send that the
    /// link is busy with.
    pub fn step_link(&mut self, link: usize, event: LinkEvent, now: Nanos, packet_delay: Nanos) -> (r:
        LinkAction)
        requires
            old(self).wf(),
            link < old(self)@.links.len(),
            now <= SPAN_MAX,
            packet_delay <= SPAN_MAX,
        ensures
            final(self).wf(),
            ({
                let (next, action) = old(self)@.links[link as int].step(
                    link,
                    event,
                    old(self)@.link_packet_handled(link as int),
                    old(self)@.link_packet_node_down(link as int),
                    now,
                    packet_delay,
                );
                &&& r == action
                &&& final(self)@ == NetworkView {
                    links: old(self)@.links.update(link as int, next),
                    ..old(self)@
                }
            }),
    {
        let ghost before = self@;
        let (handled, node_down) = self.link_packet_state(link);
        assert(before.links[link as int] == self.links@[link as int]@);
        let action = self.links[link].step(link, event, handled, node_down, now, packet_delay);
        proof {
            let next = self.links@[link as int]@;
            assert(self@.links =~= before.links.update(link as int, next));
            lemma_step_keeps_packets(
                before.links[link as int],
                link,
                event,
                handled,
                node_down,
                now,
                packet_delay,
            );
            let after = self@;
            let old_link = before.links[link as int];
            assert forall|l: int, k: int|
                0 <= l < after.links.len() && 0 <= k
                    < after.links[l].outgoing.len() implies packet_accounted_for(
                after.tickets,
                after.links[l].outgoing[k].src_node as int,
                #[trigger] after.links[l].outgoing[k].data,
                after.links[l].outgoing[k].ticket,
            ) by {
                if l != link {
                    assert(before.links[l].outgoing[k].data == after.links[l].outgoing[k].data);
                } else {
                    let skipped = old_link.outgoing.len() - next.outgoing.len();
                    assert(next.outgoing[k] == old_link.outgoing[k + skipped]);
                    assert(before.links[l].outgoing[k + skipped].data
                        == after.links[l].outgoing[k].data);
                }
            }
            if old_link.current is None && next.current is Some {
                assert(before.links[link as int].outgoing[0].data == next.current->0.data);
            }
            lemma_links_keep_wf(before, after, link as int);
        }
        action
    }

    /// Whether nothing keeps the link from completing its packet at `now`.
    pub fn can_complete(&self, link: usize, now: Nanos, packet_delay: Nanos) -> (r: bool)
        requires
            self.wf(),
            link < self@.links.len(),
            now <= SPAN_MAX,
            packet_delay <= SPAN_MAX,
        ensures
            r == self@.can_complete(link as int, now, packet_delay),
    {
        assert(self@.links[link as int] == self.links@[link as int]@);
        match &self.links[link].current {
            None => false,
            Some(packet) => {
                assert(self@.links[link as int].current == Some(packet@));
                assert(packet_accounted_for(
                    self@.tickets,
                    packet@.src_node as int,
                    packet@.data,
                    packet@.ticket,
                ));
                assert(self@.tickets[packet@.ticket as int].node < self@.nodes.len());
                assert(self@.nodes[packet@.src_node as int]
                    == self.nodes@[packet@.src_node as int]@);
                match self.links[link].phase {
                    LinkPhase::Ready => {},
                    _ => {
                        return false;
                    },
                }
                match self.tickets[packet.ticket].state {
                    TicketState::Waiting => {},
                    _ => {
                        return true;
                    },
                }
                if let Some(t) = self.nodes[packet.src_node].last_buffer_clear {
                    if packet.in_node_since < t {
                        return true;
                    }
                }
                let ecn_supported = match packet.data.transmit.ecn {
                    Some(EcnCodepoint::Ect0) => true,
                    Some(EcnCodepoint::Ect1) => true,
                    _ => false,
                };
                let mut pacer = self.links[link].pacer;
                !self.links[link].is_down() && pacer.can_send(now, packet_delay) && (
                !packet.anomalies.congestion_experienced || ecn_supported)
                    && packet.anomalies.extra_delay <= SPAN_MAX
            },
        }
    }

    /// Lets a link complete its packet at `now`.
    pub fn complete(&mut self, link: usize, now: Nanos, packet_delay: Nanos)
        requires
            old(self).wf(),
            link < old(self)@.links.len(),
            now <= SPAN_MAX,
            packet_delay <= SPAN_MAX,
            old(self)@.can_complete(link as int, now, packet_delay),
        ensures
            final(self).wf(),
            final(self)@ == old(self)@.completed(link as int, now, packet_delay),
    {
        let ghost before = self@;
        assert(before.links[link as int] == self.links@[link as int]@);
        let mut current: Option<OutgoingPacket> = None;
        std::mem::swap(&mut current, &mut self.links[link].current);
        self.links[link].phase = LinkPhase::Idle;
        let packet = match current {
            Some(packet) => packet,
            None => {
                return;
            },
        };
        let ghost p = packet@;
        let src_node: usize = packet.src_node;
        let ticket: usize = packet.ticket;
        proof {
            assert(packet_accounted_for(before.tickets, p.src_node as int, p.data, p.ticket));
            assert(before.tickets[p.ticket as int].node < before.nodes.len());
            assert(before.nodes[src_node as int] == self.nodes@[src_node as int]@);
            let idle = LinkView {
                current: None,
                phase: LinkPhase::Idle,
                ..before.links[link as int]
            };
            assert(self.links@[link as int]@ =~= idle);
            assert(self@.links =~= before.links.update(link as int, idle));
        }
        let handled = match self.tickets[ticket].state {
            TicketState::Waiting => false,
            _ => true,
        };
        if handled {
            assert(self@ =~= before.completed(link as int, now, packet_delay));
        } else {
            let cleared = match self.nodes[src_node].last_buffer_clear {
                Some(t) => packet.in_node_since < t,
                None => false,
            };
            let size: usize = self.tickets[ticket].size;
            if cleared {
                self.tickets[ticket] = Ticket { node: src_node, size, state: TicketState::Cleared };
                self.tracer.track_dropped_by_buffer_clear_event(
                    now,
                    &self.nodes[src_node].id,
                    &packet.data,
                );
            } else {
                proof {
                    lemma_reserved_update(
                        before.tickets,
                        ticket as int,
                        before.tickets[ticket as int],
                        src_node as int,
                    );
                }
                self.tickets[ticket] = Ticket { node: src_node, size, state: TicketState::Sent };
                let anomalies = packet.anomalies;
                self.links[link].send(
                    &mut self.nodes[src_node],
                    &mut self.tracer,
                    now,
                    packet_delay,
                    packet.data,
                    anomalies,
                );
                proof {
                    let after = before.completed(link as int, now, packet_delay);
                    assert(self@.links =~= after.links);
                    assert(self@.nodes =~= after.nodes);
                }
            }
            assert(self@ =~= before.completed(link as int, now, packet_delay));
        }
        proof {
            lemma_completed_keeps_wf(before, link as int, now, packet_delay);
        }
    }

    /// Takes the packets that have arrived at the end of a link at `now`.
    pub fn next_delivered_packets(&mut self, link: usize, now: Nanos, max_transmits: usize) -> (r: Vec<
        QueuedPacket,
    >)
        requires
            old(self).wf(),
            link < old(self)@.links.len(),
        ensures
            final(self).wf(),
            queued_views(r@) == old(self)@.at_link_end(link as int, now, max_transmits),
            final(self)@ == old(self)@.taken_from_link(link as int, now, max_transmits),
    {
        let ghost before = self@;
        assert(before.links[link as int] == self.links@[link as int]@);
        let packets = self.links[link].in_transit.receive(now, max_transmits);
        proof {
            let l = before.links[link as int];
            let n = due(l.in_transit, now, max_transmits);
            let next = LinkView { in_transit: l.in_transit.skip(n), ..l };
            assert(self.links@[link as int]@ =~= next);
            assert(self@.links =~= before.links.update(link as int, next));
            assert forall|l: int, k: int|
                0 <= l < self@.links.len() && 0 <= k
                    < self@.links[l].outgoing.len() implies packet_accounted_for(
                self@.tickets,
                self@.links[l].outgoing[k].src_node as int,
                #[trigger] self@.links[l].outgoing[k].data,
                self@.links[l].outgoing[k].ticket,
            ) by {
                assert(before.links[l].outgoing[k].data == self@.links[l].outgoing[k].data);
            }
            lemma_links_keep_wf(before, self@, link as int);
        }
        packets
    }

    /// The node that a packet reaches at `now`, when it comes out of a link. A packet is lost if the
    /// link went down after the packet was sent.
    pub fn leave_link(&mut self, link: usize, packet: &QueuedPacket, now: Nanos) -> (r: Option<usize>)
        requires
            old(self).wf(),
            link < old(self)@.links.len(),
            node_with_address(old(self)@.nodes, old(self)@.links[link as int].target) is Some,
        ensures
            final(self).wf(),
            final(self)@ == old(self)@.left_link(link as int, packet@, now),
            match r {
                Some(n) => old(self)@.reached_node(link as int, packet@) == Some(n as int) && n
                    < old(self)@.nodes.len(),
                None => old(self)@.reached_node(link as int, packet@) is None,
            },
    {
        assert(self@.links[link as int] == self.links@[link as int]@);
        if self.links[link].was_down_after(packet.sent) {
            self.tracer.track_lost_in_transit(now, &self.links[link].id, &packet.data);
            return None;
        }
        self.node(self.links[link].target)
    }
}

/// Changing nothing about a node but its endpoints keeps the network well-formed.
pub(crate) proof fn lemma_same_packets_keep_wf(before: NetworkView, after: NetworkView, node: int)
    requires
        before.wf(),
        0 <= node < before.nodes.len(),
        after.nodes == before.nodes.update(node, after.nodes[node]),
        after.nodes[node].wf(),
        after.nodes[node] == (NodeView {
            udp_endpoints: after.nodes[node].udp_endpoints,
            status: after.nodes[node].status,
            last_buffer_clear: after.nodes[node].last_buffer_clear,
            keylog: after.nodes[node].keylog,
            ..before.nodes[node]
        }),
        after.links == before.links,
        after.tickets == before.tickets,
        after.routes_by_addr == before.routes_by_addr,
    ensures
        after.wf(),
{
    assert forall|n: int, k: int|
        0 <= n < after.nodes.len() && 0 <= k
            < after.nodes[n].outbound.len() implies packet_accounted_for(
        after.tickets,
        n,
        #[trigger] after.nodes[n].outbound[k].data,
        after.nodes[n].outbound[k].ticket,
    ) by {
        assert(before.nodes[n].outbound[k].data == after.nodes[n].outbound[k].data);
    }
    assert forall|i: int, a: int, j: int, b: int|
        0 <= i < after.nodes.len() && 0 <= a < after.nodes[i].addresses.len() && 0 <= j
            < after.nodes.len() && 0 <= b < after.nodes[j].addresses.len()
            && #[trigger] after.nodes[i].addresses[a]
            == #[trigger] after.nodes[j].addresses[b] implies i == j && a == b by {
        assert(before.nodes[i].addresses[a] == before.nodes[j].addresses[b]);
    }
    assert forall|n: int, a: int|
        0 <= n < after.nodes.len() && 0 <= a
            < after.nodes[n].addresses.len() implies crate::network::routing::has_routes(
        after.routes_by_addr,
        #[trigger] after.nodes[n].addresses[a],
    ) by {
        assert(before.nodes[n].addresses[a] == after.nodes[n].addresses[a]);
    }
    assert forall|n: int| 0 <= n < after.nodes.len() implies (
    #[trigger] after.nodes[n]).outbound_buffer.used == reserved(after.tickets, n) by {
        assert(before.nodes[n].outbound_buffer.used == reserved(before.tickets, n));
    }
    assert forall|i: int, j: int| 0 <= i < j < after.nodes.len() implies (
    #[trigger] after.nodes[i]).id@ != (#[trigger] after.nodes[j]).id@ by {
        assert(before.nodes[i].id@ != before.nodes[j].id@);
    }
}

/// Changing the packets of a link, but neither its id nor its ends, keeps the network well-formed.
pub(crate) proof fn lemma_links_keep_wf(before: NetworkView, after: NetworkView, link: int)
    requires
        before.wf(),
        0 <= link < before.links.len(),
        after.links == before.links.update(link, after.links[link]),
        after.links[link].wf(),
        after.links[link].id == before.links[link].id,
        after.links[link].source == before.links[link].source,
        after.links[link].target == before.links[link].target,
        after.nodes == before.nodes,
        after.tickets == before.tickets,
        after.routes_by_addr == before.routes_by_addr,
        forall|l: int, k: int|
            0 <= l < after.links.len() && 0 <= k < after.links[l].outgoing.len()
                ==> packet_accounted_for(
                after.tickets,
                after.links[l].outgoing[k].src_node as int,
                #[trigger] after.links[l].outgoing[k].data,
                after.links[l].outgoing[k].ticket,
            ),
        after.links[link].current matches Some(p) ==> packet_accounted_for(
            after.tickets,
            p.src_node as int,
            p.data,
            p.ticket,
        ),
    ensures
        after.wf(),
{
    assert forall|l: int| 0 <= l < after.links.len() implies ((
    #[trigger] after.links[l]).current matches Some(p) ==> packet_accounted_for(
        after.tickets,
        p.src_node as int,
        p.data,
        p.ticket,
    )) by {
        if l != link {
            assert(after.links[l] == before.links[l]);
        }
    }
    assert forall|i: int, j: int| 0 <= i < j < after.links.len() implies (
    #[trigger] after.links[i]).id@ != (#[trigger] after.links[j]).id@ by {
        assert(before.links[i].id@ != before.links[j].id@);
    }
    assert forall|i: int, j: int| 0 <= i < j < after.links.len() implies (
    #[trigger] after.links[i]).source != (#[trigger] after.links[j]).source
        || after.links[i].target != after.links[j].target by {
        assert(before.links[i].source != before.links[j].source || before.links[i].target
            != before.links[j].target);
    }
}

proof fn lemma_enqueued_keeps_wf(before: NetworkView, node: int, data: PacketView, now: Nanos)
    requires
        before.wf(),
        0 <= node < before.nodes.len(),
        node <= usize::MAX,
        before.tickets.len() <= usize::MAX,
        data.size() <= usize::MAX,
        before.nodes[node].outbound_buffer.has_room(data.size()),
    ensures
        before.enqueued_outbound(node, data, now).wf(),
{
    let after = before.enqueued_outbound(node, data, now);
    let ticket = after.tickets.last();
    let len = before.tickets.len();
    assert forall|n: int| 0 <= n < after.nodes.len() implies (
    #[trigger] after.nodes[n]).outbound_buffer.used == reserved(after.tickets, n) by {
        lemma_reserved_push(before.tickets, ticket, n);
        assert(before.nodes[n].outbound_buffer.used == reserved(before.tickets, n));
    }
    assert forall|n: int, k: int|
        0 <= n < after.nodes.len() && 0 <= k
            < after.nodes[n].outbound.len() implies packet_accounted_for(
        after.tickets,
        n,
        #[trigger] after.nodes[n].outbound[k].data,
        after.nodes[n].outbound[k].ticket,
    ) by {
        if k < before.nodes[n].outbound.len() {
            assert(before.nodes[n].outbound[k].data == after.nodes[n].outbound[k].data);
        }
    }
    assert forall|l: int, k: int|
        0 <= l < after.links.len() && 0 <= k
            < after.links[l].outgoing.len() implies packet_accounted_for(
        after.tickets,
        after.links[l].outgoing[k].src_node as int,
        #[trigger] after.links[l].outgoing[k].data,
        after.links[l].outgoing[k].ticket,
    ) by {
        assert(before.links[l].outgoing[k].data == after.links[l].outgoing[k].data);
    }
    assert forall|l: int| 0 <= l < after.links.len() implies ((
    #[trigger] after.links[l]).current matches Some(p) ==> packet_accounted_for(
        after.tickets,
        p.src_node as int,
        p.data,
        p.ticket,
    )) by {
        assert(after.links[l] == before.links[l]);
    }
    assert forall|i: int, a: int, j: int, b: int|
        0 <= i < after.nodes.len() && 0 <= a < after.nodes[i].addresses.len() && 0 <= j
            < after.nodes.len() && 0 <= b < after.nodes[j].addresses.len()
            && #[trigger] after.nodes[i].addresses[a]
            == #[trigger] after.nodes[j].addresses[b] implies i == j && a == b by {
        assert(before.nodes[i].addresses[a] == before.nodes[j].addresses[b]);
    }
    assert forall|n: int, a: int|
        0 <= n < after.nodes.len() && 0 <= a
            < after.nodes[n].addresses.len() implies crate::network::routing::has_routes(
        after.routes_by_addr,
        #[trigger] after.nodes[n].addresses[a],
    ) by {
        assert(before.nodes[n].addresses[a] == after.nodes[n].addresses[a]);
    }
    assert forall|i: int, j: int| 0 <= i < j < after.nodes.len() implies (
    #[trigger] after.nodes[i]).id@ != (#[trigger] after.nodes[j]).id@ by {
        assert(before.nodes[i].id@ != before.nodes[j].id@);
    }
}

proof fn lemma_popped_keeps_wf(before: NetworkView, after: NetworkView, node: int)
    requires
        before.wf(),
        0 <= node < before.nodes.len(),
        before.nodes[node].outbound.len() > 0,
        after == (NetworkView {
            nodes: before.nodes.update(
                node,
                NodeView {
                    outbound: before.nodes[node].outbound.skip(1),
                    ..before.nodes[node]
                },
            ),
            ..before
        }),
    ensures
        after.wf(),
{
    assert forall|n: int, k: int|
        0 <= n < after.nodes.len() && 0 <= k
            < after.nodes[n].outbound.len() implies packet_accounted_for(
        after.tickets,
        n,
        #[trigger] after.nodes[n].outbound[k].data,
        after.nodes[n].outbound[k].ticket,
    ) by {
        if n == node {
            assert(before.nodes[n].outbound[k + 1].data == after.nodes[n].outbound[k].data);
        } else {
            assert(before.nodes[n].outbound[k].data == after.nodes[n].outbound[k].data);
        }
    }
    assert forall|i: int, a: int, j: int, b: int|
        0 <= i < after.nodes.len() && 0 <= a < after.nodes[i].addresses.len() && 0 <= j
            < after.nodes.len() && 0 <= b < after.nodes[j].addresses.len()
            && #[trigger] after.nodes[i].addresses[a]
            == #[trigger] after.nodes[j].addresses[b] implies i == j && a == b by {
        assert(before.nodes[i].addresses[a] == before.nodes[j].addresses[b]);
    }
    assert forall|n: int, a: int|
        0 <= n < after.nodes.len() && 0 <= a
            < after.nodes[n].addresses.len() implies crate::network::routing::has_routes(
        after.routes_by_addr,
        #[trigger] after.nodes[n].addresses[a],
    ) by {
        assert(before.nodes[n].addresses[a] == after.nodes[n].addresses[a]);
    }
    assert forall|n: int| 0 <= n < after.nodes.len() implies (
    #[trigger] after.nodes[n]).outbound_buffer.used == reserved(after.tickets, n) by {
        assert(before.nodes[n].outbound_buffer.used == reserved(before.tickets, n));
    }
    assert forall|i: int, j: int| 0 <= i < j < after.nodes.len() implies (
    #[trigger] after.nodes[i]).id@ != (#[trigger] after.nodes[j]).id@ by {
        assert(before.nodes[i].id@ != before.nodes[j].id@);
    }
}

/// A step of a link moves packets along, but neither makes up nor changes any.
proof fn lemma_step_keeps_packets(
    link: LinkView,
    me: usize,
    event: LinkEvent,
    handled: bool,
    node_down: bool,
    now: Nanos,
    packet_delay: Nanos,
)
    requires
        link.wf(),
    ensures
        ({
            let next = link.step(me, event, handled, node_down, now, packet_delay).0;
            &&& next.id == link.id
            &&& next.source == link.source
            &&& next.target == link.target
            &&& link.outgoing.len() - 1 <= next.outgoing.len() <= link.outgoing.len()
            &&& next.outgoing == link.outgoing.skip(link.outgoing.len() - next.outgoing.len())
            &&& next.current matches Some(p) ==> {
                let source = match link.current {
                    Some(q) => q,
                    None => link.outgoing[0],
                };
                &&& p.data == source.data
                &&& p.src_node == source.src_node
                &&& p.ticket == source.ticket
                &&& link.current is None ==> link.outgoing.len() > 0
            }
        }),
{
    assert(link.outgoing.skip(0) =~= link.outgoing);
}

proof fn lemma_completed_keeps_wf(before: NetworkView, link: int, now: Nanos, packet_delay: Nanos)
    requires
        before.wf(),
        0 <= link < before.links.len(),
        before.can_complete(link, now, packet_delay),
        before.completed(link, now, packet_delay).links[link].wf(),
        before.nodes[before.links[link].current->0.src_node as int].wf(),
    ensures
        before.completed(link, now, packet_delay).wf(),
{
    let after = before.completed(link, now, packet_delay);
    let packet = before.links[link].current->0;
    let t = packet.ticket as int;
    let src = packet.src_node as int;
    assert(packet_accounted_for(before.tickets, src, packet.data, packet.ticket));
    assert(before.tickets[t].node < before.nodes.len());
    assert forall|n: int| 0 <= n < after.nodes.len() implies (
    #[trigger] after.nodes[n]).outbound_buffer.used == reserved(after.tickets, n) by {
        assert(before.nodes[n].outbound_buffer.used == reserved(before.tickets, n));
        if after.tickets != before.tickets {
            lemma_reserved_update(before.tickets, t, after.tickets[t], n);
        }
    }
    assert forall|n: int| 0 <= n < after.nodes.len() implies (#[trigger] after.nodes[n]).wf() by {
        assert(before.nodes[n].wf());
        if n == src && after.tickets != before.tickets {
            lemma_reserved_update(before.tickets, t, after.tickets[t], n);
        }
    }
    assert forall|n: int, k: int|
        0 <= n < after.nodes.len() && 0 <= k
            < after.nodes[n].outbound.len() implies packet_accounted_for(
        after.tickets,
        n,
        #[trigger] after.nodes[n].outbound[k].data,
        after.nodes[n].outbound[k].ticket,
    ) by {
        assert(before.nodes[n].outbound[k].data == after.nodes[n].outbound[k].data);
    }
    assert forall|l: int, k: int|
        0 <= l < after.links.len() && 0 <= k
            < after.links[l].outgoing.len() implies packet_accounted_for(
        after.tickets,
        after.links[l].outgoing[k].src_node as int,
        #[trigger] after.links[l].outgoing[k].data,
        after.links[l].outgoing[k].ticket,
    ) by {
        assert(before.links[l].outgoing[k].data == after.links[l].outgoing[k].data);
    }
    assert forall|l: int| 0 <= l < after.links.len() implies ((
    #[trigger] after.links[l]).current matches Some(p) ==> packet_accounted_for(
        after.tickets,
        p.src_node as int,
        p.data,
        p.ticket,
    )) by {
        if l != link {
            assert(after.links[l] == before.links[l]);
        }
    }
    assert forall|i: int, a: int, j: int, b: int|
        0 <= i < after.nodes.len() && 0 <= a < after.nodes[i].addresses.len() && 0 <= j
            < after.nodes.len() && 0 <= b < after.nodes[j].addresses.len()
            && #[trigger] after.nodes[i].addresses[a]
            == #[trigger] after.nodes[j].addresses[b] implies i == j && a == b by {
        assert(before.nodes[i].addresses[a] == before.nodes[j].addresses[b]);
    }
    assert forall|n: int, a: int|
        0 <= n < after.nodes.len() && 0 <= a
            < after.nodes[n].addresses.len() implies crate::network::routing::has_routes(
        after.routes_by_addr,
        #[trigger] after.nodes[n].addresses[a],
    ) by {
        assert(before.nodes[n].addresses[a] == after.nodes[n].addresses[a]);
    }
    assert forall|i: int, j: int| 0 <= i < j < after.nodes.len() implies (
    #[trigger] after.nodes[i]).id@ != (#[trigger] after.nodes[j]).id@ by {
        assert(before.nodes[i].id@ != before.nodes[j].id@);
    }
    assert forall|i: int, j: int| 0 <= i < j < after.links.len() implies (
    #[trigger] after.links[i]).id@ != (#[trigger] after.links[j]).id@ by {
        assert(before.links[i].id@ != before.links[j].id@);
    }
    assert forall|i: int, j: int| 0 <= i < j < after.links.len() implies (
    #[trigger] after.links[i]).source != (#[trigger] after.links[j]).source
        || after.links[i].target != after.links[j].target by {
        assert(before.links[i].source != before.links[j].source || before.links[i].target
            != before.links[j].target);
    }
}

} // verus!
