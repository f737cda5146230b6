//! Packets: what a host hands to the network, and what travels through it.

use crate::network::ip::SocketAddr;
use vstd::prelude::*;

verus! {

/// The number of hops that a packet may take.
pub const DEFAULT_TTL: u8 = 64;

#[verifier::external_type_specification]
#[verifier::external_body]
pub struct ExBytes(bytes::Bytes);

/// The bytes that a `bytes::Bytes` holds.
pub uninterp spec fn bytes_content(b: bytes::Bytes) -> Seq<u8>;

/// `bytes::Bytes::len`: the number of bytes held.
pub assume_specification[ bytes::Bytes::len ](b: &bytes::Bytes) -> (len: usize)
    ensures
        len == bytes_content(*b).len(),
;

/// `bytes::Bytes::copy_from_slice`: a new value that holds a copy of the slice.
pub assume_specification[ bytes::Bytes::copy_from_slice ](data: &[u8]) -> (b: bytes::Bytes)
    ensures
        bytes_content(b) == data@,
;

/// Clones with the `Clone` implementation of `bytes::Bytes`: the clone holds the same bytes.
#[verifier::external_body]
pub(crate) fn clone_bytes(b: &bytes::Bytes) -> (r: bytes::Bytes)
    ensures
        bytes_content(r) == bytes_content(*b),
{
    b.clone()
}

/// Reads the bytes through the `AsRef<[u8]>` implementation of `bytes::Bytes`, which gives the
/// bytes held.
#[verifier::external_body]
pub(crate) fn bytes_as_slice(b: &bytes::Bytes) -> (r: &[u8])
    ensures
        r@ == bytes_content(*b),
{
    b.as_ref()
}

/// The mark that explicit congestion notification puts on a packet.
#[derive(Clone, Copy, PartialEq, Eq, Structural, Debug)]
pub enum EcnCodepoint {
    /// The sender supports congestion notification
    Ect0,
    /// The sender supports congestion notification (alternative mark)
    Ect1,
    /// Congestion was experienced on the way
    Ce,
}

impl EcnCodepoint {
    pub open spec fn spec_bits(self) -> u8 {
        match self {
            EcnCodepoint::Ect0 => 0b10,
            EcnCodepoint::Ect1 => 0b01,
            EcnCodepoint::Ce => 0b11,
        }
    }

    /// The mark's two bits in the IP header.
    pub fn bits(self) -> (bits: u8)
        ensures
            bits == self.spec_bits(),
    {
        match self {
            EcnCodepoint::Ect0 => 0b10,
            EcnCodepoint::Ect1 => 0b01,
            EcnCodepoint::Ce => 0b11,
        }
    }
}

/// A UDP datagram on its way.
pub struct OwnedTransmit {
    pub source: SocketAddr,
    pub destination: SocketAddr,
    pub ecn: Option<EcnCodepoint>,
    pub contents: bytes::Bytes,
    pub segment_size: Option<usize>,
    pub ttl: u8,
}

/// The content of an [`OwnedTransmit`].
#[verifier::ext_equal]
pub struct TransmitView {
    pub source: SocketAddr,
    pub destination: SocketAddr,
    pub ecn: Option<EcnCodepoint>,
    pub contents: Seq<u8>,
    pub segment_size: Option<usize>,
    pub ttl: u8,
}

impl View for OwnedTransmit {
    type V = TransmitView;

    open spec fn view(&self) -> TransmitView {
        TransmitView {
            source: self.source,
            destination: self.destination,
            ecn: self.ecn,
            contents: bytes_content(self.contents),
            segment_size: self.segment_size,
            ttl: self.ttl,
        }
    }
}

impl OwnedTransmit {
    /// The size with which the packet counts towards buffers and bandwidth: that of its contents.
    pub fn packet_size(&self) -> (size: usize)
        ensures
            size == self@.contents.len(),
    {
        self.contents.len()
    }
}

impl Clone for OwnedTransmit {
    fn clone(&self) -> (r: Self)
        ensures
            r@ == self@,
    {
        OwnedTransmit {
            source: self.source,
            destination: self.destination,
            ecn: self.ecn,
            contents: clone_bytes(&self.contents),
            segment_size: self.segment_size,
            ttl: self.ttl,
        }
    }
}

/// Identifies a packet; the 128 bits of a UUID.
pub type PacketId = u128;

/// A packet that travels through the network.
pub struct InTransitData {
    pub id: PacketId,
    /// The packet is an injected copy of another one
    pub duplicate: bool,
    /// The node that the packet was sent from
    pub source_id: String,
    pub transmit: OwnedTransmit,
    /// The packet's position among all packets handed to the network
    pub number: u64,
}

/// The content of an [`InTransitData`].
#[verifier::ext_equal]
pub struct PacketView {
    pub id: PacketId,
    pub duplicate: bool,
    pub source_id: Seq<char>,
    pub transmit: TransmitView,
    pub number: u64,
}

impl PacketView {
    /// The packet's size in bytes.
    pub open spec fn size(self) -> nat {
        self.transmit.contents.len()
    }
}

impl View for InTransitData {
    type V = PacketView;

    open spec fn view(&self) -> PacketView {
        PacketView {
            id: self.id,
            duplicate: self.duplicate,
            source_id: self.source_id@,
            transmit: self.transmit@,
            number: self.number,
        }
    }
}

impl Clone for InTransitData {
    fn clone(&self) -> (r: Self)
        ensures
            r@ == self@,
    {
        InTransitData {
            id: self.id,
            duplicate: self.duplicate,
            source_id: self.source_id.clone(),
            transmit: self.transmit.clone(),
            number: self.number,
        }
    }
}

} // verus!
