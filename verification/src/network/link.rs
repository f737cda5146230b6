//! Links: one-way connections between two addresses.

use crate::network::event::UpdateLinkStatus;
use crate::network::inbound_queue::{enqueued, in_arrival_order, InboundQueue, QueuedView};
use crate::network::ip::IpAddr;
use crate::network::node::Node;
use crate::network::spec::NetworkLinkSpec;
use crate::random::Ratio;
use crate::time::{elapsed, elapsed_spec, Nanos, SPAN_MAX};
use crate::tracing::tracer::SimulationStepTracer;
use crate::transmit::{EcnCodepoint, InTransitData, PacketView, TransmitView};
use vstd::prelude::*;

verus! {

#[derive(Clone, Copy, PartialEq, Eq, Structural, Debug)]
pub enum LinkStatus {
    Up,
    Down,
}

/// What happens to a packet on a link, apart from being delayed by it.
#[derive(Clone, Copy, PartialEq, Eq, Structural, Debug)]
pub struct PacketAnomalies {
    pub congestion_experienced: bool,
    pub extra_delay: Nanos,
}

/// Packets whose delays add up to less than this are sent together.
pub const BATCH_MAX_DELAY: Nanos = 2_000_000;

/// Packets that are sent together.
#[derive(Clone, Copy, PartialEq, Eq, Structural, Debug)]
pub struct PacketBatch {
    pub created: Nanos,
    /// How long it takes, counted from the batch's creation, until all its packets are sent
    pub delay: Nanos,
}

/// Ensures that no more packets are being sent than the bandwidth allows.
#[derive(Clone, Copy, PartialEq, Eq, Structural, Debug)]
pub struct PacketPacer {
    pub bandwidth_bps: u64,
    pub batch: PacketBatch,
}

impl PacketBatch {
    pub open spec fn wf(self) -> bool {
        self.created <= SPAN_MAX && self.delay <= SPAN_MAX
    }

    /// The batch at `now`: a new one, if this one got sent already.
    pub open spec fn current(self, now: Nanos) -> PacketBatch {
        if elapsed_spec(self.created, now) >= self.delay {
            PacketBatch { created: now, delay: 0 }
        } else {
            self
        }
    }

    /// The batch has room for one more packet. An empty batch has, however long the packet takes:
    /// packets get through slow links too.
    pub open spec fn has_room(self, packet_delay: Nanos) -> bool {
        self.delay == 0 || self.delay + packet_delay < BATCH_MAX_DELAY
    }

    fn update_and_check_has_room(&mut self, now: Nanos, packet_delay: Nanos) -> (room: bool)
        requires
            old(self).wf(),
            now <= SPAN_MAX,
            packet_delay <= SPAN_MAX,
        ensures
            final(self).wf(),
            *final(self) == old(self).current(now),
            room == old(self).current(now).has_room(packet_delay),
    {
        // Reset the batch if it got sent already
        if elapsed(self.created, now) >= self.delay {
            self.created = now;
            self.delay = 0;
        }
        if self.delay == 0 {
            return true;
        }
        self.delay + packet_delay < BATCH_MAX_DELAY
    }

    fn sent_at(&self) -> (r: Nanos)
        requires
            self.wf(),
        ensures
            r == self.created + self.delay,
    {
        self.created + self.delay
    }
}

impl PacketPacer {
    pub open spec fn wf(self) -> bool {
        self.batch.wf()
    }

    /// The pacer at `now`.
    pub open spec fn current(self, now: Nanos) -> PacketPacer {
        PacketPacer { batch: self.batch.current(now), ..self }
    }

    /// A packet that takes `packet_delay` may be sent at `now`.
    pub open spec fn spec_can_send(self, now: Nanos, packet_delay: Nanos) -> bool {
        self.batch.current(now).has_room(packet_delay)
    }

    /// How long to wait at `now` until a packet that takes `packet_delay` may be sent.
    pub open spec fn wait(self, now: Nanos, packet_delay: Nanos) -> int {
        if self.spec_can_send(now, packet_delay) {
            0
        } else {
            self.batch.created + self.batch.delay - now
        }
    }

    /// The pacer after a packet that takes `packet_delay` was sent at `now`.
    pub open spec fn sent(self, now: Nanos, packet_delay: Nanos) -> PacketPacer {
        let batch = self.batch.current(now);
        PacketPacer {
            batch: PacketBatch { delay: (batch.delay + packet_delay) as Nanos, ..batch },
            ..self
        }
    }

    pub fn new(now: Nanos, bandwidth_bps: u64) -> (r: Self)
        requires
            now <= SPAN_MAX,
        ensures
            r == (PacketPacer { bandwidth_bps, batch: PacketBatch { created: now, delay: 0 } }),
            r.wf(),
    {
        PacketPacer { bandwidth_bps, batch: PacketBatch { created: now, delay: 0 } }
    }

    /// Whether a packet that takes `packet_delay` may be sent at `now`.
    pub fn can_send(&mut self, now: Nanos, packet_delay: Nanos) -> (r: bool)
        requires
            old(self).wf(),
            now <= SPAN_MAX,
            packet_delay <= SPAN_MAX,
        ensures
            final(self).wf(),
            *final(self) == old(self).current(now),
            r == old(self).spec_can_send(now, packet_delay),
    {
        self.batch.update_and_check_has_room(now, packet_delay)
    }

    /// How long to wait at `now` until a packet that takes `packet_delay` may be sent.
    pub fn duration_until_can_send(&mut self, now: Nanos, packet_delay: Nanos) -> (r: Nanos)
        requires
            old(self).wf(),
            now <= SPAN_MAX,
            packet_delay <= SPAN_MAX,
        ensures
            final(self).wf(),
            *final(self) == old(self).current(now),
            r == old(self).wait(now, packet_delay),
    {
        if self.batch.update_and_check_has_room(now, packet_delay) {
            0
        } else {
            // No room left in the batch: the next chance to send is after the batch gets sent
            self.batch.sent_at() - now
        }
    }

    /// Notes that a packet that takes `packet_delay` was sent at `now`.
    pub fn track_send(&mut self, now: Nanos, packet_delay: Nanos)
        requires
            old(self).wf(),
            now <= SPAN_MAX,
            packet_delay <= SPAN_MAX,
            old(self).spec_can_send(now, packet_delay),
        ensures
            final(self).wf(),
            *final(self) == old(self).sent(now, packet_delay),
    {
        let _room = self.batch.update_and_check_has_room(now, packet_delay);
        let time_since_created: Nanos = elapsed(self.batch.created, now);
        if self.batch.delay < time_since_created {
            self.batch.delay = time_since_created;
        }
        self.batch.delay = self.batch.delay + packet_delay;
    }
}

/// Once the pacer's waiting time is over, the packet may be sent.
pub proof fn law_waiting_is_long_enough(pacer: PacketPacer, now: Nanos, packet_delay: Nanos)
    requires
        pacer.wf(),
        now <= SPAN_MAX,
    ensures
        pacer.wait(now, packet_delay) >= 0,
        pacer.current(now).spec_can_send(
            (now + pacer.wait(now, packet_delay)) as Nanos,
            packet_delay,
        ),
{
}

/// Packets that were sent one after the other: when each one was sent and how long it takes.
pub open spec fn pacer_run(start: PacketPacer, sends: Seq<(Nanos, Nanos)>) -> PacketPacer
    decreases sends.len(),
{
    if sends.len() == 0 {
        start
    } else {
        pacer_run(start, sends.drop_last()).sent(sends.last().0, sends.last().1)
    }
}

/// The time that all the packets take together.
pub open spec fn total_delay(sends: Seq<(Nanos, Nanos)>) -> nat
    decreases sends.len(),
{
    if sends.len() == 0 {
        0
    } else {
        total_delay(sends.drop_last()) + sends.last().1 as nat
    }
}

/// The sends happen one after the other, not before `start`, and the pacer allows each of them.
pub open spec fn paced(start: PacketPacer, sends: Seq<(Nanos, Nanos)>) -> bool
    decreases sends.len(),
{
    sends.len() > 0 ==> {
        &&& paced(start, sends.drop_last())
        &&& sends.last().0 <= SPAN_MAX
        &&& sends.last().1 <= SPAN_MAX
        &&& pacer_run(start, sends.drop_last()).batch.created <= sends.last().0
        &&& pacer_run(start, sends.drop_last()).spec_can_send(sends.last().0, sends.last().1)
    }
}

/// No more is sent than the bandwidth allows: the packets take no more time together than passes
/// between the pacer's creation and the moment at which the last batch is sent.
pub proof fn law_bandwidth_is_respected(now: Nanos, bandwidth_bps: u64, sends: Seq<(Nanos, Nanos)>)
    requires
        now <= SPAN_MAX,
        paced(
            PacketPacer { bandwidth_bps, batch: PacketBatch { created: now, delay: 0 } },
            sends,
        ),
    ensures
        ({
            let start = PacketPacer { bandwidth_bps, batch: PacketBatch { created: now, delay: 0 } };
            let batch = pacer_run(start, sends).batch;
            total_delay(sends) <= batch.created + batch.delay - now
        }),
{
    lemma_bandwidth_is_respected(now, bandwidth_bps, sends);
}

proof fn lemma_bandwidth_is_respected(now: Nanos, bandwidth_bps: u64, sends: Seq<(Nanos, Nanos)>)
    requires
        now <= SPAN_MAX,
        paced(
            PacketPacer { bandwidth_bps, batch: PacketBatch { created: now, delay: 0 } },
            sends,
        ),
    ensures
        ({
            let start = PacketPacer { bandwidth_bps, batch: PacketBatch { created: now, delay: 0 } };
            let batch = pacer_run(start, sends).batch;
            &&& batch.wf()
            &&& total_delay(sends) <= batch.created + batch.delay - now
        }),
    decreases sends.len(),
{
    if sends.len() > 0 {
        lemma_bandwidth_is_respected(now, bandwidth_bps, sends.drop_last());
    }
}

/// A batch stays short: unless it is a single packet, it takes less than [`BATCH_MAX_DELAY`].
pub proof fn law_batches_are_short(pacer: PacketPacer, now: Nanos, packet_delay: Nanos)
    requires
        pacer.wf(),
        now <= SPAN_MAX,
        packet_delay <= SPAN_MAX,
        pacer.spec_can_send(now, packet_delay),
    ensures
        pacer.sent(now, packet_delay).batch.delay == packet_delay || pacer.sent(
            now,
            packet_delay,
        ).batch.delay < BATCH_MAX_DELAY,
{
}

/// A packet that is to be sent over a link.
pub struct OutgoingPacket {
    pub in_node_since: Nanos,
    pub src_node: usize,
    pub data: InTransitData,
    pub anomalies: PacketAnomalies,
    /// The links that the packet may take, the preferred one first
    pub preferred_links: Vec<usize>,
    /// The packet's reservation of space in the outbound buffer, which all the links share that
    /// were asked to send it
    pub ticket: usize,
}

/// The content of an [`OutgoingPacket`].
#[verifier::ext_equal]
pub struct OutgoingView {
    pub in_node_since: Nanos,
    pub src_node: usize,
    pub data: PacketView,
    pub anomalies: PacketAnomalies,
    pub preferred_links: Seq<usize>,
    pub ticket: usize,
}

impl View for OutgoingPacket {
    type V = OutgoingView;

    open spec fn view(&self) -> OutgoingView {
        OutgoingView {
            in_node_since: self.in_node_since,
            src_node: self.src_node,
            data: self.data@,
            anomalies: self.anomalies,
            preferred_links: self.preferred_links@,
            ticket: self.ticket,
        }
    }
}

/// How far a link got with the packet that it is handling.
#[derive(Clone, Copy, PartialEq, Eq, Structural, Debug)]
pub enum LinkPhase {
    /// Handles no packet
    Idle,
    /// Waits until there is bandwidth
    Bandwidth { until: Nanos },
    /// Waits until the link is up
    LinkUp,
    /// Waits until the sending node is up
    NodeUp,
    /// Gives preferred links a chance to send the packet
    Yielding,
    /// The packet's turn has come
    Ready,
}

/// What happened since the link asked for something.
#[derive(Clone, Copy, PartialEq, Eq, Structural, Debug)]
pub enum LinkEvent {
    /// A packet may be waiting in the queue
    Woken,
    /// Another link handled the packet
    Handled,
    /// The time to wait is over
    Slept,
    LinkCameUp,
    NodeCameUp,
    /// The other links had their chance
    Yielded,
}

/// What a link asks for.
#[derive(Clone, Copy, PartialEq, Eq, Structural, Debug)]
pub enum LinkAction {
    /// Wait for a packet
    Park,
    /// Wait until the given time, or until another link handles the packet
    SleepUntil { until: Nanos },
    /// Wait until the link comes up, or until another link handles the packet
    AwaitLinkUp,
    /// Wait until the node comes up, or until another link handles the packet
    AwaitNodeUp { node: usize },
    /// Let the other links run
    Yield,
    /// Complete the packet
    Complete,
}

pub struct NetworkLink {
    pub id: String,
    pub source: IpAddr,
    pub target: IpAddr,
    /// Packets currently in flight from the source to the target
    pub in_transit: InboundQueue,
    /// Packets waiting to be sent, the oldest one first
    pub outgoing: Vec<OutgoingPacket>,
    /// The packet that is being handled
    pub current: Option<OutgoingPacket>,
    pub phase: LinkPhase,
    /// A packet waits until there is bandwidth, and until the link and the node are up
    pub waiting: bool,
    pub pacer: PacketPacer,
    pub status: LinkStatus,
    pub last_down: Option<Nanos>,
    pub delay: Nanos,
    pub bandwidth_bps: usize,
    pub congestion_event_ratio: Ratio,
    pub extra_delay: Nanos,
    pub extra_delay_ratio: Ratio,
}

/// The content of a [`NetworkLink`].
#[verifier::ext_equal]
pub struct LinkView {
    pub id: String,
    pub source: IpAddr,
    pub target: IpAddr,
    pub in_transit: Seq<QueuedView>,
    pub outgoing: Seq<OutgoingView>,
    pub current: Option<OutgoingView>,
    pub phase: LinkPhase,
    pub waiting: bool,
    pub pacer: PacketPacer,
    pub status: LinkStatus,
    pub last_down: Option<Nanos>,
    pub delay: Nanos,
    pub bandwidth_bps: usize,
    pub congestion_event_ratio: Ratio,
    pub extra_delay: Nanos,
    pub extra_delay_ratio: Ratio,
}

pub open spec fn outgoing_views(packets: Seq<OutgoingPacket>) -> Seq<OutgoingView> {
    packets.map_values(|p: OutgoingPacket| p@)
}

pub open spec fn outgoing_view(packet: Option<OutgoingPacket>) -> Option<OutgoingView> {
    match packet {
        Some(p) => Some(p@),
        None => None,
    }
}

impl View for NetworkLink {
    type V = LinkView;

    open spec fn view(&self) -> LinkView {
        LinkView {
            id: self.id,
            source: self.source,
            target: self.target,
            in_transit: self.in_transit@,
            outgoing: outgoing_views(self.outgoing@),
            current: outgoing_view(self.current),
            phase: self.phase,
            waiting: self.waiting,
            pacer: self.pacer,
            status: self.status,
            last_down: self.last_down,
            delay: self.delay,
            bandwidth_bps: self.bandwidth_bps,
            congestion_event_ratio: self.congestion_event_ratio,
            extra_delay: self.extra_delay,
            extra_delay_ratio: self.extra_delay_ratio,
        }
    }
}

/// The packet with the mark that it gets when congestion is experienced.
pub open spec fn marked(data: PacketView, anomalies: PacketAnomalies) -> PacketView {
    if anomalies.congestion_experienced {
        PacketView {
            transmit: TransmitView { ecn: Some(EcnCodepoint::Ce), ..data.transmit },
            ..data
        }
    } else {
        data
    }
}

/// The packet's sender supports congestion notification.
pub open spec fn supports_ecn(data: PacketView) -> bool {
    data.transmit.ecn == Some(EcnCodepoint::Ect0) || data.transmit.ecn == Some(EcnCodepoint::Ect1)
}

impl LinkView {
    pub open spec fn wf(self) -> bool {
        &&& self.pacer.wf()
        &&& in_arrival_order(self.in_transit)
        &&& self.delay <= SPAN_MAX
        &&& self.extra_delay <= SPAN_MAX
        &&& self.phase == LinkPhase::Idle <==> self.current is None
    }

    /// The link went down after the given time.
    pub open spec fn was_down_after(self, instant: Nanos) -> bool {
        self.last_down matches Some(down) && down > instant
    }

    pub open spec fn updated_status(self, update: UpdateLinkStatus, now: Nanos) -> LinkView {
        match (self.status, update) {
            (LinkStatus::Up, UpdateLinkStatus::Down) => LinkView {
                status: LinkStatus::Down,
                last_down: Some(now),
                ..self
            },
            (LinkStatus::Down, UpdateLinkStatus::Up) => LinkView { status: LinkStatus::Up, ..self },
            _ => self,
        }
    }

    /// The link can send a packet right away.
    pub open spec fn bandwidth_available(self, now: Nanos, packet_delay: Nanos) -> bool {
        &&& !self.waiting
        &&& self.status == LinkStatus::Up
        &&& self.pacer.spec_can_send(now, packet_delay)
    }

    /// The link after it was asked whether it can send a packet right away.
    pub open spec fn asked_for_bandwidth(self, now: Nanos) -> LinkView {
        if self.waiting || self.status == LinkStatus::Down {
            self
        } else {
            LinkView { pacer: self.pacer.current(now), ..self }
        }
    }

    /// Nothing keeps the link from sending the packet at `now`.
    pub open spec fn can_send(
        self,
        now: Nanos,
        packet_delay: Nanos,
        data: PacketView,
        anomalies: PacketAnomalies,
    ) -> bool {
        &&& self.status == LinkStatus::Up
        &&& self.pacer.spec_can_send(now, packet_delay)
        &&& anomalies.congestion_experienced ==> supports_ecn(data)
        &&& anomalies.extra_delay <= SPAN_MAX
    }

    /// The link after it sent a packet at `now`.
    pub open spec fn sent(
        self,
        now: Nanos,
        packet_delay: Nanos,
        data: PacketView,
        anomalies: PacketAnomalies,
    ) -> LinkView {
        LinkView {
            pacer: self.pacer.sent(now, packet_delay),
            in_transit: enqueued(
                self.in_transit,
                QueuedView {
                    data: marked(data, anomalies),
                    sent: now,
                    arrives_at: (now + self.delay + anomalies.extra_delay) as Nanos,
                },
            ),
            ..self
        }
    }

    /// Waits until the link is up, or goes on if it is.
    pub open spec fn check_link(self, me: usize, handled: bool, node_down: bool) -> (
        LinkView,
        LinkAction,
    ) {
        if self.status == LinkStatus::Down {
            (LinkView { phase: LinkPhase::LinkUp, ..self }, LinkAction::AwaitLinkUp)
        } else {
            self.check_node(me, handled, node_down)
        }
    }

    /// Waits until the node is up, or goes on if it is. The link could have gone down again in the
    /// meantime.
    pub open spec fn check_node(self, me: usize, handled: bool, node_down: bool) -> (
        LinkView,
        LinkAction,
    ) {
        if node_down {
            (
                LinkView { phase: LinkPhase::NodeUp, ..self },
                LinkAction::AwaitNodeUp { node: self.current->0.src_node },
            )
        } else {
            self.recheck_link(me, handled)
        }
    }

    pub open spec fn recheck_link(self, me: usize, handled: bool) -> (LinkView, LinkAction) {
        if self.status == LinkStatus::Down {
            (LinkView { phase: LinkPhase::LinkUp, ..self }, LinkAction::AwaitLinkUp)
        } else {
            self.stop_waiting(me, handled)
        }
    }

    pub open spec fn stop_waiting(self, me: usize, handled: bool) -> (LinkView, LinkAction) {
        LinkView { waiting: false, ..self }.yield_to_preferred(me, handled)
    }

    /// Gives the next preferred link a chance, unless it is this one or the packet is handled.
    pub open spec fn yield_to_preferred(self, me: usize, handled: bool) -> (LinkView, LinkAction) {
        let packet = self.current->0;
        if packet.preferred_links.len() == 0 {
            (LinkView { phase: LinkPhase::Ready, ..self }, LinkAction::Complete)
        } else {
            let popped = OutgoingView {
                preferred_links: packet.preferred_links.skip(1),
                ..packet
            };
            if packet.preferred_links[0] != me && !handled {
                (
                    LinkView { current: Some(popped), phase: LinkPhase::Yielding, ..self },
                    LinkAction::Yield,
                )
            } else {
                (
                    LinkView { current: Some(popped), phase: LinkPhase::Ready, ..self },
                    LinkAction::Complete,
                )
            }
        }
    }

    /// The link takes the oldest packet from its queue.
    pub open spec fn took_packet(self) -> LinkView {
        LinkView { outgoing: self.outgoing.skip(1), current: Some(self.outgoing[0]), ..self }
    }

    /// Starts to handle the oldest packet in the queue.
    pub open spec fn start_packet(
        self,
        me: usize,
        handled: bool,
        now: Nanos,
        packet_delay: Nanos,
    ) -> (LinkView, LinkAction) {
        let asked = self.took_packet().asked_for_bandwidth(now);
        if self.bandwidth_available(now, packet_delay) {
            asked.yield_to_preferred(me, handled)
        } else {
            let until = (now + asked.pacer.wait(now, packet_delay)) as Nanos;
            (
                LinkView {
                    waiting: true,
                    pacer: asked.pacer.current(now),
                    phase: LinkPhase::Bandwidth { until },
                    ..asked
                },
                LinkAction::SleepUntil { until },
            )
        }
    }

    /// The next step of the link: how it reacts to an event. `handled` says whether the packet that
    /// it handles, or else the oldest one in its queue, was handled by another link; `node_down`
    /// says whether the node that sends that packet is down.
    pub open spec fn step(
        self,
        me: usize,
        event: LinkEvent,
        handled: bool,
        node_down: bool,
        now: Nanos,
        packet_delay: Nanos,
    ) -> (LinkView, LinkAction) {
        match self.phase {
            LinkPhase::Idle => if self.outgoing.len() == 0 {
                (self, LinkAction::Park)
            } else {
                self.start_packet(me, handled, now, packet_delay)
            },
            LinkPhase::Bandwidth { until } => match event {
                LinkEvent::Handled => self.stop_waiting(me, handled),
                LinkEvent::Slept => self.check_link(me, handled, node_down),
                _ => (self, LinkAction::SleepUntil { until }),
            },
            LinkPhase::LinkUp => match event {
                LinkEvent::Handled => self.stop_waiting(me, handled),
                LinkEvent::LinkCameUp => self.check_node(me, handled, node_down),
                _ => (self, LinkAction::AwaitLinkUp),
            },
            LinkPhase::NodeUp => match event {
                LinkEvent::Handled => self.stop_waiting(me, handled),
                LinkEvent::NodeCameUp => self.recheck_link(me, handled),
                _ => (self, LinkAction::AwaitNodeUp { node: self.current->0.src_node }),
            },
            LinkPhase::Yielding => self.yield_to_preferred(me, handled),
            LinkPhase::Ready => (self, LinkAction::Complete),
        }
    }
}

impl NetworkLink {
    pub open spec fn wf(self) -> bool {
        self@.wf()
    }

    /// A link without packets, which is up.
    pub open spec fn of_spec(l: NetworkLinkSpec, now: Nanos) -> LinkView {
        LinkView {
            id: l.id,
            source: l.source,
            target: l.target,
            in_transit: Seq::empty(),
            outgoing: Seq::empty(),
            current: None,
            phase: LinkPhase::Idle,
            waiting: false,
            pacer: PacketPacer {
                bandwidth_bps: l.bandwidth_bps,
                batch: PacketBatch { created: now, delay: 0 },
            },
            status: LinkStatus::Up,
            last_down: None,
            delay: l.delay,
            bandwidth_bps: l.bandwidth_bps as usize,
            congestion_event_ratio: l.congestion_event_ratio,
            extra_delay: l.extra_delay,
            extra_delay_ratio: l.extra_delay_ratio,
        }
    }

    pub fn new(l: &NetworkLinkSpec, now: Nanos) -> (r: Self)
        requires
            now <= SPAN_MAX,
            l.delay <= SPAN_MAX,
            l.extra_delay <= SPAN_MAX,
        ensures
            r.wf(),
            r@ == Self::of_spec(*l, now),
    {
        let r = NetworkLink {
            id: l.id.clone(),
            source: l.source,
            target: l.target,
            in_transit: InboundQueue::new(),
            outgoing: Vec::new(),
            current: None,
            phase: LinkPhase::Idle,
            waiting: false,
            pacer: PacketPacer::new(now, l.bandwidth_bps),
            status: LinkStatus::Up,
            last_down: None,
            delay: l.delay,
            bandwidth_bps: l.bandwidth_bps as usize,
            congestion_event_ratio: l.congestion_event_ratio,
            extra_delay: l.extra_delay,
            extra_delay_ratio: l.extra_delay_ratio,
        };
        assert(r@.outgoing =~= Seq::<OutgoingView>::empty());
        r
    }

    /// Whether the link went down after the given time.
    pub fn was_down_after(&self, instant: Nanos) -> (r: bool)
        ensures
            r == self@.was_down_after(instant),
    {
        match self.last_down {
            Some(down) => down > instant,
            None => false,
        }
    }

    pub fn status_str(&self) -> (r: &'static str)
        ensures
            r@ == match self@.status {
                LinkStatus::Up => "UP"@,
                LinkStatus::Down => "DOWN"@,
            },
    {
        match self.status {
            LinkStatus::Up => "UP",
            LinkStatus::Down => "DOWN",
        }
    }

    pub fn is_down(&self) -> (r: bool)
        ensures
            r == (self@.status == LinkStatus::Down),
    {
        match self.status {
            LinkStatus::Up => false,
            LinkStatus::Down => true,
        }
    }

    pub fn current_delay(&self) -> (r: Nanos)
        ensures
            r == self@.delay,
    {
        self.delay
    }

    /// Changes the delay, if the link is down.
    pub fn update_delay(&mut self, update: Nanos)
        requires
            old(self).wf(),
            update <= SPAN_MAX,
        ensures
            final(self).wf(),
            final(self)@ == if old(self)@.status == LinkStatus::Up {
                old(self)@
            } else {
                LinkView { delay: update, ..old(self)@ }
            },
    {
        if let LinkStatus::Up = self.status {
            return;
        }
        self.delay = update;
    }

    /// Changes the status. The result says whether the link came up, so that those who wait for
    /// that have to be notified.
    pub fn update_status(&mut self, update: UpdateLinkStatus, now: Nanos) -> (came_up: bool)
        ensures
            final(self)@ == old(self)@.updated_status(update, now),
            old(self).wf() ==> final(self).wf(),
            came_up == (old(self)@.status == LinkStatus::Down && update == UpdateLinkStatus::Up),
    {
        match (self.status, update) {
            (LinkStatus::Down, UpdateLinkStatus::Down) | (LinkStatus::Up, UpdateLinkStatus::Up) => {
                // No update
                false
            },
            (LinkStatus::Up, UpdateLinkStatus::Down) => {
                // Packets in flight will be lost upon arrival, those in the node's outbound buffer
                // stay there until the link is back up
                self.status = LinkStatus::Down;
                self.last_down = Some(now);
                false
            },
            (LinkStatus::Down, UpdateLinkStatus::Up) => {
                self.status = LinkStatus::Up;
                true
            },
        }
    }

    /// Sends a packet at `now`.
    pub fn send(
        &mut self,
        src_node: &mut Node,
        tracer: &mut SimulationStepTracer,
        now: Nanos,
        packet_delay: Nanos,
        data: InTransitData,
        anomalies: PacketAnomalies,
    )
        requires
            old(self).wf(),
            old(src_node).wf(),
            now <= SPAN_MAX,
            packet_delay <= SPAN_MAX,
            old(self)@.can_send(now, packet_delay, data@, anomalies),
            data@.size() <= old(src_node)@.outbound_buffer.used,
        ensures
            final(self).wf(),
            final(src_node).wf(),
            final(self)@ == old(self)@.sent(now, packet_delay, data@, anomalies),
            final(src_node)@ == old(src_node)@.released(data@.size()),
            final(tracer)@ == old(tracer)@.packet_in_transit(
                now,
                old(src_node)@.id,
                old(self)@.id,
                data@,
            ),
    {
        let ghost packet = data@;
        let mut data = data;
        if anomalies.congestion_experienced {
            data.transmit.ecn = Some(EcnCodepoint::Ce);
        }
        assert(data@ == marked(packet, anomalies));
        tracer.track_packet_in_transit(now, &src_node.id, &self.id, &data);

        let size: usize = data.transmit.packet_size();
        self.pacer.track_send(now, packet_delay);
        src_node.outbound_buffer.release(size);
        let delay: Nanos = self.delay + anomalies.extra_delay;
        self.in_transit.send(now, data, delay);
    }

    /// Whether the link can send a packet that takes `packet_delay` right away.
    pub fn has_bandwidth_available(&mut self, now: Nanos, packet_delay: Nanos) -> (r: bool)
        requires
            old(self).wf(),
            now <= SPAN_MAX,
            packet_delay <= SPAN_MAX,
        ensures
            final(self).wf(),
            final(self)@ == old(self)@.asked_for_bandwidth(now),
            r == old(self)@.bandwidth_available(now, packet_delay),
    {
        if self.waiting || self.is_down() {
            return false;
        }
        self.pacer.can_send(now, packet_delay)
    }

    fn check_link(&mut self, me: usize, handled: bool, node_down: bool) -> (action: LinkAction)
        requires
            old(self).wf(),
            old(self)@.current is Some,
        ensures
            final(self).wf(),
            (final(self)@, action) == old(self)@.check_link(me, handled, node_down),
    {
        if self.is_down() {
            self.phase = LinkPhase::LinkUp;
            LinkAction::AwaitLinkUp
        } else {
            self.check_node(me, handled, node_down)
        }
    }

    fn check_node(&mut self, me: usize, handled: bool, node_down: bool) -> (action: LinkAction)
        requires
            old(self).wf(),
            old(self)@.current is Some,
        ensures
            final(self).wf(),
            (final(self)@, action) == old(self)@.check_node(me, handled, node_down),
    {
        if node_down {
            self.phase = LinkPhase::NodeUp;
            self.await_node_up()
        } else {
            self.recheck_link(me, handled)
        }
    }

    fn await_node_up(&self) -> (action: LinkAction)
        requires
            self@.current is Some,
        ensures
            action == (LinkAction::AwaitNodeUp { node: self@.current->0.src_node }),
    {
        match &self.current {
            Some(packet) => LinkAction::AwaitNodeUp { node: packet.src_node },
            None => LinkAction::Park,
        }
    }

    fn recheck_link(&mut self, me: usize, handled: bool) -> (action: LinkAction)
        requires
            old(self).wf(),
            old(self)@.current is Some,
        ensures
            final(self).wf(),
            (final(self)@, action) == old(self)@.recheck_link(me, handled),
    {
        if self.is_down() {
            self.phase = LinkPhase::LinkUp;
            LinkAction::AwaitLinkUp
        } else {
            self.stop_waiting(me, handled)
        }
    }

    fn stop_waiting(&mut self, me: usize, handled: bool) -> (action: LinkAction)
        requires
            old(self).wf(),
            old(self)@.current is Some,
        ensures
            final(self).wf(),
            (final(self)@, action) == old(self)@.stop_waiting(me, handled),
    {
        self.waiting = false;
        self.yield_to_preferred(me, handled)
    }

    fn yield_to_preferred(&mut self, me: usize, handled: bool) -> (action: LinkAction)
        requires
            old(self)@.pacer.wf(),
            old(self)@.delay <= SPAN_MAX,
            old(self)@.extra_delay <= SPAN_MAX,
            in_arrival_order(old(self)@.in_transit),
            old(self)@.current is Some,
        ensures
            final(self).wf(),
            (final(self)@, action) == old(self)@.yield_to_preferred(me, handled),
    {
        let mut current: Option<OutgoingPacket> = None;
        std::mem::swap(&mut current, &mut self.current);
        match current {
            Some(mut packet) => {
                if packet.preferred_links.len() == 0 {
                    self.current = Some(packet);
                    self.phase = LinkPhase::Ready;
                    LinkAction::Complete
                } else {
                    let ghost links = packet.preferred_links@;
                    let preferred: usize = packet.preferred_links.remove(0);
                    assert(packet.preferred_links@ =~= links.skip(1));
                    self.current = Some(packet);
                    if preferred != me && !handled {
                        self.phase = LinkPhase::Yielding;
                        LinkAction::Yield
                    } else {
                        self.phase = LinkPhase::Ready;
                        LinkAction::Complete
                    }
                }
            },
            None => LinkAction::Park,
        }
    }

    fn start_packet(&mut self, me: usize, handled: bool, now: Nanos, packet_delay: Nanos) -> (action:
        LinkAction)
        requires
            old(self).wf(),
            old(self)@.phase == LinkPhase::Idle,
            old(self)@.outgoing.len() > 0,
            now <= SPAN_MAX,
            packet_delay <= SPAN_MAX,
        ensures
            final(self).wf(),
            (final(self)@, action) == old(self)@.start_packet(me, handled, now, packet_delay),
    {
        let available = self.has_bandwidth_available(now, packet_delay);
        assert(self@.outgoing[0] == self.outgoing@[0]@);
        let packet = self.outgoing.remove(0);
        self.current = Some(packet);
        proof {
            assert(self@.outgoing =~= old(self)@.outgoing.skip(1));
            assert(self@ =~= old(self)@.took_packet().asked_for_bandwidth(now));
        }
        if available {
            self.yield_to_preferred(me, handled)
        } else {
            self.waiting = true;
            let until: Nanos = now + self.pacer.duration_until_can_send(now, packet_delay);
            self.phase = LinkPhase::Bandwidth { until };
            LinkAction::SleepUntil { until }
        }
    }

    /// Reacts to an event. `handled` says whether the packet that the link handles, or else the
    /// oldest one in its queue, was handled by another link; `node_down` says whether the node that
    /// sends that packet is down; `packet_delay` is how long it takes to send.
    pub fn step(
        &mut self,
        me: usize,
        event: LinkEvent,
        handled: bool,
        node_down: bool,
        now: Nanos,
        packet_delay: Nanos,
    ) -> (action: LinkAction)
        requires
            old(self).wf(),
            now <= SPAN_MAX,
            packet_delay <= SPAN_MAX,
        ensures
            final(self).wf(),
            (final(self)@, action) == old(self)@.step(
                me,
                event,
                handled,
                node_down,
                now,
                packet_delay,
            ),
    {
        match self.phase {
            LinkPhase::Idle => if self.outgoing.len() == 0 {
                LinkAction::Park
            } else {
                self.start_packet(me, handled, now, packet_delay)
            },
            LinkPhase::Bandwidth { until } => match event {
                LinkEvent::Handled => self.stop_waiting(me, handled),
                LinkEvent::Slept => self.check_link(me, handled, node_down),
                _ => LinkAction::SleepUntil { until },
            },
            LinkPhase::LinkUp => match event {
                LinkEvent::Handled => self.stop_waiting(me, handled),
                LinkEvent::LinkCameUp => self.check_node(me, handled, node_down),
                _ => LinkAction::AwaitLinkUp,
            },
            LinkPhase::NodeUp => match event {
                LinkEvent::Handled => self.stop_waiting(me, handled),
                LinkEvent::NodeCameUp => self.recheck_link(me, handled),
                _ => self.await_node_up(),
            },
            LinkPhase::Yielding => self.yield_to_preferred(me, handled),
            LinkPhase::Ready => LinkAction::Complete,
        }
    }
}

/// A link stops to wait for a packet that nobody else handled only when it is up, and it never
/// waits for a node or a link that is up.
pub proof fn law_waiting_ends_when_link_is_up(
    link: LinkView,
    me: usize,
    event: LinkEvent,
    node_down: bool,
    now: Nanos,
    packet_delay: Nanos,
)
    requires
        link.wf(),
        link.waiting,
        link.phase is Bandwidth || link.phase is LinkUp || link.phase is NodeUp,
        event != LinkEvent::Handled,
    ensures
        ({
            let (next, action) = link.step(me, event, false, node_down, now, packet_delay);
            &&& !next.waiting ==> link.status == LinkStatus::Up
            &&& next.waiting <==> action is SleepUntil || action is AwaitLinkUp
                || action is AwaitNodeUp
            &&& (event == LinkEvent::Slept || event == LinkEvent::LinkCameUp || event
                == LinkEvent::NodeCameUp) && action is AwaitLinkUp && next.phase != link.phase
                ==> link.status == LinkStatus::Down
        }),
{
}

/// A link waits long enough for a packet: from the moment at which the waiting time of a packet is
/// over on, or at once if the packet does not have to wait, the bandwidth allows it to be sent.
pub proof fn law_packets_wait_for_bandwidth(
    link: LinkView,
    me: usize,
    event: LinkEvent,
    handled: bool,
    node_down: bool,
    now: Nanos,
    packet_delay: Nanos,
)
    requires
        link.wf(),
        link.phase == LinkPhase::Idle,
        link.outgoing.len() > 0,
        link.pacer.batch.created <= now <= SPAN_MAX,
        packet_delay <= SPAN_MAX,
    ensures
        ({
            let (next, action) = link.step(me, event, handled, node_down, now, packet_delay);
            let ready = match action {
                LinkAction::SleepUntil { until } => until,
                _ => now,
            };
            &&& now <= ready
            &&& forall|t: Nanos|
                ready <= t ==> #[trigger] next.pacer.spec_can_send(t, packet_delay)
        }),
{
}

/// While a link handles a packet, nothing else uses its bandwidth.
pub proof fn law_waiting_keeps_the_bandwidth(
    link: LinkView,
    me: usize,
    event: LinkEvent,
    handled: bool,
    node_down: bool,
    now: Nanos,
    packet_delay: Nanos,
)
    requires
        link.wf(),
        link.phase != LinkPhase::Idle,
    ensures
        link.step(me, event, handled, node_down, now, packet_delay).0.pacer == link.pacer,
{
}

/// The statuses that a link went through: each update with the time at which it came.
pub open spec fn status_run(link: LinkView, updates: Seq<(UpdateLinkStatus, Nanos)>) -> LinkView
    decreases updates.len(),
{
    if updates.len() == 0 {
        link
    } else {
        status_run(link, updates.drop_last()).updated_status(updates.last().0, updates.last().1)
    }
}

/// The update with the given index takes the link down.
pub open spec fn goes_down(
    link: LinkView,
    updates: Seq<(UpdateLinkStatus, Nanos)>,
    i: int,
) -> bool {
    &&& 0 <= i < updates.len()
    &&& updates[i].0 == UpdateLinkStatus::Down
    &&& status_run(link, updates.take(i)).status == LinkStatus::Up
}

/// Packets in flight do not survive an outage: whatever happens to a link after a packet was sent
/// at `sent`, upon arrival the link counts as having been down after that time if and only if it
/// went down at a later time in between.
pub proof fn law_outage_is_remembered(
    link: LinkView,
    sent: Nanos,
    updates: Seq<(UpdateLinkStatus, Nanos)>,
)
    requires
        !link.was_down_after(sent),
        forall|i: int, j: int|
            0 <= i <= j < updates.len() ==> (#[trigger] updates[i]).1 <= (#[trigger] updates[j]).1,
    ensures
        status_run(link, updates).was_down_after(sent) <==> exists|i: int|
            #[trigger] goes_down(link, updates, i) && updates[i].1 > sent,
    decreases updates.len(),
{
    if updates.len() > 0 {
        let front = updates.drop_last();
        let last = updates.len() - 1;
        assert forall|i: int, j: int| 0 <= i <= j < front.len() implies (#[trigger] front[i]).1 <= (
        #[trigger] front[j]).1 by {
            assert(updates[i].1 <= updates[j].1);
        }
        law_outage_is_remembered(link, sent, front);
        assert(updates.take(last) =~= front);
        assert forall|i: int| 0 <= i < last implies #[trigger] goes_down(link, updates, i)
            == goes_down(link, front, i) by {
            assert(updates.take(i) =~= front.take(i));
        }
        if status_run(link, front).was_down_after(sent) {
            let i = choose|i: int| #[trigger] goes_down(link, front, i) && front[i].1 > sent;
            assert(goes_down(link, updates, i));
            assert(updates[i].1 <= updates[last].1);
        } else {
            assert forall|i: int| #[trigger] goes_down(link, updates, i) && updates[i].1
                > sent implies i == last by {
                if i < last {
                    assert(goes_down(link, front, i));
                }
            }
            if goes_down(link, updates, last) && updates[last].1 > sent {
                assert(status_run(link, updates).was_down_after(sent));
            }
        }
    } else {
        assert forall|i: int| !(#[trigger] goes_down(link, updates, i)) by {}
    }
}

} // verus!
