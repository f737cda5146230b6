//! Records what happens during a simulation.

use crate::network::event::{LinkEventPayload, NodeEventPayload};
use crate::network::spec::NetworkSpec;
use crate::text::{decimal, push_decimal, texts};
use crate::time::{elapsed, elapsed_spec, Nanos};
use crate::tracing::simulation_step::{
    DropReason, GenericPacketEvent, NetworkEvent, PacketDropped, PacketHasExtraDelay, PacketInNode,
    PacketInTransit, PacketLostInTransit, SimulationStep, SimulationStepKind,
};
use crate::tracing::simulation_stepper::SimulationStepper;
use crate::transmit::{InTransitData, PacketView};
use vstd::prelude::*;

verus! {

/// A warning that is still to be shown.
pub struct Warning {
    /// When the warning came up, counted from the start of the simulation
    pub relative_time: Nanos,
    pub message: String,
}

/// The content of a [`Warning`].
pub struct WarningView {
    pub relative_time: Nanos,
    pub message: Seq<char>,
}

impl View for Warning {
    type V = WarningView;

    open spec fn view(&self) -> WarningView {
        WarningView { relative_time: self.relative_time, message: self.message@ }
    }
}

pub struct SimulationStepTracer {
    pub simulation_start: Nanos,
    pub recorded_steps: SimulationStepper,
    pub network_spec: NetworkSpec,
    pub already_warned_dropped_from_buffer: Vec<String>,
    pub enable_warnings: bool,
    pub warnings: Vec<Warning>,
}

/// What a tracer has recorded.
#[verifier::ext_equal]
pub struct TracerView {
    pub simulation_start: Nanos,
    pub steps: Seq<SimulationStep>,
    pub network_spec: NetworkSpec,
    /// The nodes for which a warning about a full buffer has come up
    pub warned: Seq<Seq<char>>,
    pub enable_warnings: bool,
    /// The warnings that are still to be shown
    pub warnings: Seq<WarningView>,
}

pub open spec fn warning_views(s: Seq<Warning>) -> Seq<WarningView> {
    s.map_values(|w: Warning| w@)
}

impl View for SimulationStepTracer {
    type V = TracerView;

    open spec fn view(&self) -> TracerView {
        TracerView {
            simulation_start: self.simulation_start,
            steps: self.recorded_steps.steps@,
            network_spec: self.network_spec,
            warned: texts(self.already_warned_dropped_from_buffer@),
            enable_warnings: self.enable_warnings,
            warnings: warning_views(self.warnings@),
        }
    }
}

pub open spec fn lost_text(source_id: Seq<char>, number: u64) -> Seq<char> {
    source_id + " packet lost (#"@ + decimal(number as nat) + ")!"@
}

pub open spec fn buffer_full_text(node_id: Seq<char>, number: u64) -> Seq<char> {
    "packet #"@ + decimal(number as nat) + " dropped by node `"@ + node_id
        + "` because its outbound buffer is full! (Note: further warnings for this link will be omitted to avoid cluttering the output)"@
}

pub open spec fn duplicate_text(node_id: Seq<char>, number: u64) -> Seq<char> {
    node_id + " sent duplicate packet (#"@ + decimal(number as nat) + ")!"@
}

pub open spec fn congestion_text(node_id: Seq<char>, number: u64) -> Seq<char> {
    node_id + " marked packet with CE ECN (#"@ + decimal(number as nat) + ")!"@
}

pub open spec fn generic_event(node_id: String, packet: PacketView) -> GenericPacketEvent {
    GenericPacketEvent {
        packet_id: packet.id,
        packet_number: packet.number,
        packet_size_bytes: packet.size() as usize,
        node_id,
    }
}

impl TracerView {
    /// With one more step, that happens at `now`.
    pub open spec fn record(self, now: Nanos, kind: SimulationStepKind) -> TracerView {
        TracerView {
            steps: self.steps.push(
                SimulationStep { relative_time: elapsed_spec(self.simulation_start, now), kind },
            ),
            ..self
        }
    }

    /// With one more warning, unless warnings are muted.
    pub open spec fn warn(self, now: Nanos, message: Seq<char>) -> TracerView {
        if self.enable_warnings {
            TracerView {
                warnings: self.warnings.push(
                    WarningView {
                        relative_time: elapsed_spec(self.simulation_start, now),
                        message,
                    },
                ),
                ..self
            }
        } else {
            self
        }
    }

    pub open spec fn packet_in_node(
        self,
        now: Nanos,
        node_id: String,
        packet: PacketView,
        dropped_on_arrival: bool,
    ) -> TracerView {
        self.record(
            now,
            SimulationStepKind::PacketInNode(
                PacketInNode {
                    packet_id: packet.id,
                    packet_number: packet.number,
                    packet_size_bytes: packet.size() as usize,
                    node_id,
                    dropped_on_arrival,
                },
            ),
        )
    }

    pub open spec fn packet_in_transit(
        self,
        now: Nanos,
        node_id: String,
        link_id: String,
        packet: PacketView,
    ) -> TracerView {
        self.record(
            now,
            SimulationStepKind::PacketInTransit(
                PacketInTransit { packet_id: packet.id, node_id, link_id },
            ),
        )
    }

    pub open spec fn dropped(
        self,
        now: Nanos,
        node_id: String,
        packet: PacketView,
        reason: DropReason,
    ) -> TracerView {
        self.record(
            now,
            SimulationStepKind::PacketDropped(
                PacketDropped { packet_id: packet.id, node_id, reason },
            ),
        )
    }

    pub open spec fn dropped_randomly(
        self,
        now: Nanos,
        node_id: String,
        packet: PacketView,
    ) -> TracerView {
        self.dropped(now, node_id, packet, DropReason::Random).warn(
            now,
            lost_text(packet.source_id, packet.number),
        )
    }

    pub open spec fn dropped_because_buffer_full(
        self,
        now: Nanos,
        node_id: String,
        packet: PacketView,
    ) -> TracerView {
        let recorded = self.dropped(now, node_id, packet, DropReason::BufferFull);
        if self.warned.contains(node_id@) {
            recorded
        } else {
            TracerView { warned: self.warned.push(node_id@), ..recorded }.warn(
                now,
                buffer_full_text(node_id@, packet.number),
            )
        }
    }

    pub open spec fn lost_in_transit(
        self,
        now: Nanos,
        link_id: String,
        packet: PacketView,
    ) -> TracerView {
        self.record(
            now,
            SimulationStepKind::PacketLostInTransit(
                PacketLostInTransit { packet_id: packet.id, link_id },
            ),
        )
    }

    pub open spec fn injected_failures(
        self,
        now: Nanos,
        node_id: String,
        packet: PacketView,
        duplicate: bool,
        extra_delay: Nanos,
        congestion_experienced: bool,
    ) -> TracerView {
        let delayed = if extra_delay != 0 {
            self.record(
                now,
                SimulationStepKind::PacketExtraDelay(
                    PacketHasExtraDelay { packet_id: packet.id, node_id, extra_delay },
                ),
            )
        } else {
            self
        };
        let duplicated = if duplicate {
            delayed.record(
                now,
                SimulationStepKind::PacketDuplicated(generic_event(node_id, packet)),
            ).warn(now, duplicate_text(node_id@, packet.number))
        } else {
            delayed
        };
        if congestion_experienced {
            duplicated.record(
                now,
                SimulationStepKind::PacketCongestionEvent(generic_event(node_id, packet)),
            ).warn(now, congestion_text(node_id@, packet.number))
        } else {
            duplicated
        }
    }

    pub open spec fn link_event(self, now: Nanos, event: LinkEventPayload) -> TracerView {
        self.record(
            now,
            SimulationStepKind::NetworkEvent(NetworkEvent { link: Some(event), node: None }),
        )
    }

    pub open spec fn node_event(self, now: Nanos, event: NodeEventPayload) -> TracerView {
        self.record(
            now,
            SimulationStepKind::NetworkEvent(NetworkEvent { link: None, node: Some(event) }),
        )
    }

    pub open spec fn read_by_application(
        self,
        now: Nanos,
        node_id: String,
        packet: PacketView,
    ) -> TracerView {
        self.record(
            now,
            SimulationStepKind::PacketDeliveredToApplication(generic_event(node_id, packet)),
        )
    }
}

fn numbered_text(start: &str, number: u64, end: &str) -> (r: String)
    ensures
        r@ == start@ + decimal(number as nat) + end@,
{
    let mut text = start.to_owned();
    push_decimal(&mut text, number as u128);
    text.append(end);
    text
}

fn generic_packet_event(node_id: &String, packet: &InTransitData) -> (r: GenericPacketEvent)
    ensures
        r == generic_event(*node_id, packet@),
{
    GenericPacketEvent {
        packet_id: packet.id,
        packet_number: packet.number,
        packet_size_bytes: packet.transmit.packet_size(),
        node_id: node_id.clone(),
    }
}

impl SimulationStepTracer {
    pub fn new(spec: NetworkSpec, now: Nanos) -> (r: Self)
        ensures
            r@ == (TracerView {
                simulation_start: now,
                steps: Seq::empty(),
                network_spec: spec,
                warned: Seq::empty(),
                enable_warnings: true,
                warnings: Seq::empty(),
            }),
    {
        SimulationStepTracer {
            simulation_start: now,
            recorded_steps: SimulationStepper { steps: Vec::new() },
            network_spec: spec,
            already_warned_dropped_from_buffer: Vec::new(),
            enable_warnings: true,
            warnings: Vec::new(),
        }
    }

    /// From now on, no warnings come up.
    pub fn mute_warnings(self) -> (r: Self)
        ensures
            r@ == (TracerView { enable_warnings: false, ..self@ }),
    {
        let mut tracer = self;
        tracer.enable_warnings = false;
        tracer
    }

    fn warn(&mut self, now: Nanos, message: String)
        ensures
            final(self)@ == old(self)@.warn(now, message@),
    {
        if self.enable_warnings {
            let relative_time: Nanos = elapsed(self.simulation_start, now);
            self.warnings.push(Warning { relative_time, message });
        }
        assert(final(self)@ =~= old(self)@.warn(now, message@));
    }

    /// Hands out the warnings that are still to be shown.
    pub fn take_warnings(&mut self) -> (r: Vec<Warning>)
        ensures
            warning_views(r@) == old(self)@.warnings,
            final(self)@ == (TracerView { warnings: Seq::empty(), ..old(self)@ }),
    {
        let mut warnings: Vec<Warning> = Vec::new();
        std::mem::swap(&mut warnings, &mut self.warnings);
        warnings
    }

    /// No time has passed since the tracer was created.
    pub fn is_fresh(&self, now: Nanos) -> (r: bool)
        ensures
            r == (elapsed_spec(self.simulation_start, now) == 0),
    {
        elapsed(self.simulation_start, now) == 0
    }

    /// A copy of the steps recorded so far.
    pub fn stepper(&self) -> (r: SimulationStepper)
        ensures
            r.steps@ == self@.steps,
    {
        self.recorded_steps.clone()
    }

    fn record(&mut self, now: Nanos, kind: SimulationStepKind)
        ensures
            final(self)@ == old(self)@.record(now, kind),
    {
        let relative_time: Nanos = elapsed(self.simulation_start, now);
        self.recorded_steps.record(SimulationStep { relative_time, kind });
    }

    pub fn track_link_event(&mut self, now: Nanos, event: LinkEventPayload)
        ensures
            final(self)@ == old(self)@.link_event(now, event),
    {
        self.record(
            now,
            SimulationStepKind::NetworkEvent(NetworkEvent { link: Some(event), node: None }),
        );
    }

    pub fn track_node_event(&mut self, now: Nanos, event: NodeEventPayload)
        ensures
            final(self)@ == old(self)@.node_event(now, event),
    {
        self.record(
            now,
            SimulationStepKind::NetworkEvent(NetworkEvent { link: None, node: Some(event) }),
        );
    }

    fn record_packet_in_node(
        &mut self,
        now: Nanos,
        node_id: &String,
        packet: &InTransitData,
        dropped_on_arrival: bool,
    )
        ensures
            final(self)@ == old(self)@.packet_in_node(now, *node_id, packet@, dropped_on_arrival),
    {
        self.record(
            now,
            SimulationStepKind::PacketInNode(
                PacketInNode {
                    packet_id: packet.id,
                    packet_number: packet.number,
                    packet_size_bytes: packet.transmit.packet_size(),
                    node_id: node_id.clone(),
                    dropped_on_arrival,
                },
            ),
        );
    }

    fn record_dropped(
        &mut self,
        now: Nanos,
        node_id: &String,
        packet: &InTransitData,
        reason: DropReason,
    )
        ensures
            final(self)@ == old(self)@.dropped(now, *node_id, packet@, reason),
    {
        self.record(
            now,
            SimulationStepKind::PacketDropped(
                PacketDropped { packet_id: packet.id, node_id: node_id.clone(), reason },
            ),
        );
    }

    pub fn track_packet_in_node(&mut self, now: Nanos, node_id: &String, packet: &InTransitData)
        ensures
            final(self)@ == old(self)@.packet_in_node(now, *node_id, packet@, false),
    {
        self.record_packet_in_node(now, node_id, packet, false);
    }

    pub fn track_packet_in_transit(
        &mut self,
        now: Nanos,
        node_id: &String,
        link_id: &String,
        packet: &InTransitData,
    )
        ensures
            final(self)@ == old(self)@.packet_in_transit(now, *node_id, *link_id, packet@),
    {
        self.record(
            now,
            SimulationStepKind::PacketInTransit(
                PacketInTransit {
                    packet_id: packet.id,
                    node_id: node_id.clone(),
                    link_id: link_id.clone(),
                },
            ),
        );
    }

    pub fn track_dropped_on_arrival(&mut self, now: Nanos, node_id: &String, packet: &InTransitData)
        ensures
            final(self)@ == old(self)@.packet_in_node(now, *node_id, packet@, true),
    {
        self.record_packet_in_node(now, node_id, packet, true);
    }

    pub fn track_dropped_by_buffer_clear_event(
        &mut self,
        now: Nanos,
        node_id: &String,
        packet: &InTransitData,
    )
        ensures
            final(self)@ == old(self)@.dropped(now, *node_id, packet@, DropReason::BufferCleared),
    {
        self.record_dropped(now, node_id, packet, DropReason::BufferCleared);
    }

    pub fn track_dropped_randomly(&mut self, now: Nanos, node_id: &String, packet: &InTransitData)
        ensures
            final(self)@ == old(self)@.dropped_randomly(now, *node_id, packet@),
    {
        self.record_dropped(now, node_id, packet, DropReason::Random);
        let mut start = packet.source_id.clone();
        start.append(" packet lost (#");
        let message = numbered_text(start.as_str(), packet.number, ")!");
        self.warn(now, message);
    }

    pub fn track_dropped_because_buffer_full(
        &mut self,
        now: Nanos,
        node_id: &String,
        packet: &InTransitData,
    )
        ensures
            final(self)@ == old(self)@.dropped_because_buffer_full(now, *node_id, packet@),
    {
        self.record_dropped(now, node_id, packet, DropReason::BufferFull);

        let ghost warned = texts(self.already_warned_dropped_from_buffer@);
        for i in 0..self.already_warned_dropped_from_buffer.len()
            invariant
                self@ == old(self)@.dropped(now, *node_id, packet@, DropReason::BufferFull),
                warned == texts(self.already_warned_dropped_from_buffer@),
                forall|j: int| 0 <= j < i ==> #[trigger] warned[j] != node_id@,
        {
            if self.already_warned_dropped_from_buffer[i] == *node_id {
                assert(warned[i as int] == node_id@);
                return;
            }
        }
        assert(!warned.contains(node_id@));
        self.already_warned_dropped_from_buffer.push(node_id.clone());
        proof {
            assert(texts(self.already_warned_dropped_from_buffer@) =~= warned.push(node_id@));
        }
        let mut end = " dropped by node `".to_owned();
        end.append(node_id.as_str());
        end.append(
            "` because its outbound buffer is full! (Note: further warnings for this link will be omitted to avoid cluttering the output)",
        );
        let message = numbered_text("packet #", packet.number, end.as_str());
        proof {
            assert(message@ =~= buffer_full_text(node_id@, packet.number));
        }
        self.warn(now, message);
    }

    pub fn track_lost_in_transit(&mut self, now: Nanos, link_id: &String, data: &InTransitData)
        ensures
            final(self)@ == old(self)@.lost_in_transit(now, *link_id, data@),
    {
        self.record(
            now,
            SimulationStepKind::PacketLostInTransit(
                PacketLostInTransit { packet_id: data.id, link_id: link_id.clone() },
            ),
        );
    }

    pub fn track_injected_failures(
        &mut self,
        now: Nanos,
        node_id: &String,
        packet: &InTransitData,
        duplicate: bool,
        extra_delay: Nanos,
        congestion_experienced: bool,
    )
        ensures
            final(self)@ == old(self)@.injected_failures(
                now,
                *node_id,
                packet@,
                duplicate,
                extra_delay,
                congestion_experienced,
            ),
    {
        if extra_delay != 0 {
            self.record(
                now,
                SimulationStepKind::PacketExtraDelay(
                    PacketHasExtraDelay {
                        packet_id: packet.id,
                        node_id: node_id.clone(),
                        extra_delay,
                    },
                ),
            );
        }
        if duplicate {
            self.record(
                now,
                SimulationStepKind::PacketDuplicated(generic_packet_event(node_id, packet)),
            );
            let mut start = node_id.clone();
            start.append(" sent duplicate packet (#");
            let message = numbered_text(start.as_str(), packet.number, ")!");
            self.warn(now, message);
        }
        if congestion_experienced {
            self.record(
                now,
                SimulationStepKind::PacketCongestionEvent(generic_packet_event(node_id, packet)),
            );
            let mut start = node_id.clone();
            start.append(" marked packet with CE ECN (#");
            let message = numbered_text(start.as_str(), packet.number, ")!");
            self.warn(now, message);
        }
    }

    pub fn track_read_by_application(&mut self, now: Nanos, node_id: &String, data: &InTransitData)
        ensures
            final(self)@ == old(self)@.read_by_application(now, *node_id, data@),
    {
        self.record(
            now,
            SimulationStepKind::PacketDeliveredToApplication(generic_packet_event(node_id, data)),
        );
    }
}

} // verus!
