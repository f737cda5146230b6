//! The steps of a simulation.

use crate::network::event::{LinkEventPayload, NodeEventPayload};
use crate::time::Nanos;
use crate::transmit::PacketId;
use vstd::prelude::*;

verus! {

pub struct SimulationStep {
    /// When the step happened, counted from the start of the simulation
    pub relative_time: Nanos,
    pub kind: SimulationStepKind,
}

pub enum SimulationStepKind {
    PacketInNode(PacketInNode),
    PacketInTransit(PacketInTransit),
    PacketDropped(PacketDropped),
    PacketLostInTransit(PacketLostInTransit),
    PacketExtraDelay(PacketHasExtraDelay),
    PacketDuplicated(GenericPacketEvent),
    PacketCongestionEvent(GenericPacketEvent),
    PacketDeliveredToApplication(GenericPacketEvent),
    NetworkEvent(NetworkEvent),
}

pub struct PacketInNode {
    pub packet_id: PacketId,
    pub packet_number: u64,
    pub packet_size_bytes: usize,
    pub node_id: String,
    pub dropped_on_arrival: bool,
}

pub struct PacketInTransit {
    pub packet_id: PacketId,
    pub node_id: String,
    pub link_id: String,
}

pub struct PacketDropped {
    pub packet_id: PacketId,
    pub node_id: String,
    pub reason: DropReason,
}

#[derive(Clone, Copy, PartialEq, Eq, Structural, Debug)]
pub enum DropReason {
    /// A packet loss was injected
    Random,
    /// The packet took too many hops
    ZeroTtl,
    BufferFull,
    /// The buffer was cleared by a network event
    BufferCleared,
}

pub struct PacketLostInTransit {
    pub packet_id: PacketId,
    pub link_id: String,
}

pub struct PacketHasExtraDelay {
    pub packet_id: PacketId,
    pub node_id: String,
    pub extra_delay: Nanos,
}

pub struct GenericPacketEvent {
    pub packet_id: PacketId,
    pub packet_number: u64,
    pub packet_size_bytes: usize,
    pub node_id: String,
}

/// A network event that took effect; exactly one of the two fields is present.
pub struct NetworkEvent {
    pub link: Option<LinkEventPayload>,
    pub node: Option<NodeEventPayload>,
}

impl Clone for GenericPacketEvent {
    fn clone(&self) -> (r: Self)
        ensures
            r == *self,
    {
        GenericPacketEvent {
            packet_id: self.packet_id,
            packet_number: self.packet_number,
            packet_size_bytes: self.packet_size_bytes,
            node_id: self.node_id.clone(),
        }
    }
}

impl Clone for NetworkEvent {
    fn clone(&self) -> (r: Self)
        ensures
            r == *self,
    {
        NetworkEvent {
            link: match &self.link {
                Some(link) => Some(link.clone()),
                None => None,
            },
            node: match &self.node {
                Some(node) => Some(node.clone()),
                None => None,
            },
        }
    }
}

impl Clone for SimulationStepKind {
    fn clone(&self) -> (r: Self)
        ensures
            r == *self,
    {
        match self {
            SimulationStepKind::PacketInNode(s) => SimulationStepKind::PacketInNode(
                PacketInNode {
                    packet_id: s.packet_id,
                    packet_number: s.packet_number,
                    packet_size_bytes: s.packet_size_bytes,
                    node_id: s.node_id.clone(),
                    dropped_on_arrival: s.dropped_on_arrival,
                },
            ),
            SimulationStepKind::PacketInTransit(s) => SimulationStepKind::PacketInTransit(
                PacketInTransit {
                    packet_id: s.packet_id,
                    node_id: s.node_id.clone(),
                    link_id: s.link_id.clone(),
                },
            ),
            SimulationStepKind::PacketDropped(s) => SimulationStepKind::PacketDropped(
                PacketDropped {
                    packet_id: s.packet_id,
                    node_id: s.node_id.clone(),
                    reason: s.reason,
                },
            ),
            SimulationStepKind::PacketLostInTransit(s) => SimulationStepKind::PacketLostInTransit(
                PacketLostInTransit { packet_id: s.packet_id, link_id: s.link_id.clone() },
            ),
            SimulationStepKind::PacketExtraDelay(s) => SimulationStepKind::PacketExtraDelay(
                PacketHasExtraDelay {
                    packet_id: s.packet_id,
                    node_id: s.node_id.clone(),
                    extra_delay: s.extra_delay,
                },
            ),
            SimulationStepKind::PacketDuplicated(s) => SimulationStepKind::PacketDuplicated(
                s.clone(),
            ),
            SimulationStepKind::PacketCongestionEvent(
                s,
            ) => SimulationStepKind::PacketCongestionEvent(s.clone()),
            SimulationStepKind::PacketDeliveredToApplication(
                s,
            ) => SimulationStepKind::PacketDeliveredToApplication(s.clone()),
            SimulationStepKind::NetworkEvent(s) => SimulationStepKind::NetworkEvent(s.clone()),
        }
    }
}

impl Clone for SimulationStep {
    fn clone(&self) -> (r: Self)
        ensures
            r == *self,
    {
        SimulationStep { relative_time: self.relative_time, kind: self.kind.clone() }
    }
}

} // verus!
