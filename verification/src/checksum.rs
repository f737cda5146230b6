//! Checksums of UDP packets and IPv4 headers.

use vstd::prelude::*;

verus! {

/// The sum of the 16-bit words of the bytes, the most significant byte of each word first. The word
/// at `skipped` does not count; a last byte without a partner is followed by zero.
pub open spec fn word_sum(bytes: Seq<u8>, skipped: int) -> nat
    decreases bytes.len(),
{
    let last = (bytes.len() - 1) / 2;
    let word = bytes[2 * last] * 0x100 + if 2 * last + 1 < bytes.len() {
        bytes[2 * last + 1] as int
    } else {
        0
    };
    if bytes.len() == 0 {
        0
    } else {
        word_sum(bytes.take(2 * last), skipped) + if last == skipped {
            0
        } else {
            word as nat
        }
    }
}

/// The complement of the one's complement sum of words that add up to `sum`: carries out of the 16
/// bits are added back.
pub open spec fn internet_checksum(sum: nat) -> u16 {
    if sum == 0 {
        0xffff
    } else {
        (0xffff - ((sum - 1) % 0xffff + 1)) as u16
    }
}

/// The checksum of the UDP packet in a buffer, between two addresses: it covers the addresses, the
/// number of the protocol, the length of the buffer, and all words of the buffer but the checksum.
pub open spec fn udp_ipv4_checksum(buffer: Seq<u8>, source: u32, destination: u32) -> u16 {
    internet_checksum(
        (source / 0x1_0000 + source % 0x1_0000 + destination / 0x1_0000 + destination % 0x1_0000
            + 17 + buffer.len() + word_sum(buffer, 3)) as nat,
    )
}

/// The length of the header of an IPv4 packet: what the packet says, but no less than without
/// options and no more than there is.
pub open spec fn header_len(packet: Seq<u8>) -> int {
    let length = packet[0] % 16 * 4;
    if length < 20 {
        20
    } else if length > packet.len() {
        packet.len() as int
    } else {
        length as int
    }
}

/// The checksum of the header of an IPv4 packet: it covers all words of the header but the checksum.
pub open spec fn ipv4_header_checksum(packet: Seq<u8>) -> u16 {
    internet_checksum(word_sum(packet.take(header_len(packet)), 5))
}

/// Computes the checksum with `pnet_packet::udp::ipv4_checksum`: the Internet checksum over the
/// pseudo-header and all bytes of the buffer, in which the checksum field counts as zero.
#[verifier::external_body]
pub(crate) fn compute_udp_checksum(buffer: &[u8], source: u32, destination: u32) -> (r: u16)
    requires
        8 <= buffer@.len() <= u16::MAX,
    ensures
        r == udp_ipv4_checksum(buffer@, source, destination),
{
    let packet = pnet_packet::udp::UdpPacket::new(buffer).unwrap();
    pnet_packet::udp::ipv4_checksum(&packet, &source.into(), &destination.into())
}

/// Computes the checksum with `pnet_packet::ipv4::checksum`: the Internet checksum over the packet's
/// header, in which the checksum field counts as zero.
#[verifier::external_body]
pub(crate) fn compute_header_checksum(packet: &[u8]) -> (r: u16)
    requires
        20 <= packet@.len() <= u16::MAX,
    ensures
        r == ipv4_header_checksum(packet@),
{
    let packet = pnet_packet::ipv4::Ipv4Packet::new(packet).unwrap();
    pnet_packet::ipv4::checksum(&packet)
}

} // verus!
