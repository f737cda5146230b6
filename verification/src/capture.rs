//! What a network analyzer reads in a capture: the packets as they were sent.

use crate::checksum::{
    header_len, internet_checksum, ipv4_header_checksum, udp_ipv4_checksum, word_sum,
};
use crate::network::ip::IpAddr;
use crate::pcap_exporter::{
    block_bytes, captured_packet, hex_text, ip_header, keylog_line, law_secrets_block_is_aligned,
    secrets_body, udp_buffer, udp_packet, SECRETS_BLOCK_TYPE,
};
use crate::transmit::{EcnCodepoint, TransmitView};
use vstd::prelude::*;

verus! {

/// The number in two bytes of a packet, the most significant byte first.
pub open spec fn read16(bytes: Seq<u8>, at: int) -> int {
    bytes[at] * 0x100 + bytes[at + 1]
}

/// The number in four bytes of a packet, the most significant byte first.
pub open spec fn read32(bytes: Seq<u8>, at: int) -> int {
    bytes[at] * 0x100_0000 + bytes[at + 1] * 0x1_0000 + bytes[at + 2] * 0x100 + bytes[at + 3]
}

/// A captured packet can be read back: at the places where RFC 791 and RFC 768 have them, it holds
/// the addresses and ports of the sender and the receiver, the congestion mark, the number of hops
/// that are left, the lengths, and the contents.
pub proof fn law_captured_packets_can_be_read_back(t: TransmitView, source: u32, destination: u32)
    requires
        t.source.ip == IpAddr::V4(source),
        t.destination.ip == IpAddr::V4(destination),
        28 + t.contents.len() <= 2000,
    ensures
        ({
            let packet = captured_packet(t);
            let size = t.contents.len() as int;
            &&& packet.len() == 28 + size
            // Version 4, a header of five words
            &&& packet[0] == 0x45
            &&& packet[1] == match t.ecn {
                None => 0int,
                Some(EcnCodepoint::Ect1) => 1,
                Some(EcnCodepoint::Ect0) => 2,
                Some(EcnCodepoint::Ce) => 3,
            }
            &&& read16(packet, 2) == 28 + size
            // No identification, not to be fragmented, the first fragment
            &&& read16(packet, 4) == 0
            &&& read16(packet, 6) == 0x4000
            &&& packet[8] == t.ttl
            // UDP
            &&& packet[9] == 17
            &&& read32(packet, 12) == source
            &&& read32(packet, 16) == destination
            &&& read16(packet, 20) == t.source.port
            &&& read16(packet, 22) == t.destination.port
            &&& read16(packet, 24) == 8 + size
            &&& packet.subrange(28, 28 + size) == t.contents
        }),
{
    let udp_checksum = udp_ipv4_checksum(udp_buffer(t), source, destination);
    let udp = udp_packet(t, udp_checksum);
    let checksum = ipv4_header_checksum(ip_header(t, 0) + udp);
    let header = ip_header(t, checksum);
    let packet = captured_packet(t);
    assert(header.len() == 20);
    assert(udp.len() == 8 + t.contents.len());
    assert(packet == header + udp);
    assert(packet.subrange(28, 28 + t.contents.len() as int) =~= t.contents);
    lemma_be32(source);
    lemma_be32(destination);
}

proof fn lemma_be32(n: u32)
    ensures
        n / 0x100_0000 < 0x100,
        (n / 0x100_0000) * 0x100_0000 + (n / 0x1_0000 % 0x100) * 0x1_0000 + (n / 0x100 % 0x100)
            * 0x100 + n % 0x100 == n,
{
}

/// The sum of the first `count` words of a packet.
pub open spec fn sum_of_words(bytes: Seq<u8>, count: nat) -> nat
    decreases count,
{
    if count == 0 {
        0
    } else {
        (sum_of_words(bytes, (count - 1) as nat) + read16(bytes, 2 * (count - 1))) as nat
    }
}

/// The sum that a checksum is made of adds up all words but the skipped one.
proof fn lemma_word_sum(bytes: Seq<u8>, skipped: int, words: nat)
    requires
        2 * words <= bytes.len(),
        0 <= skipped,
    ensures
        word_sum(bytes.take(2 * words as int), skipped) == sum_of_words(bytes, words) - if skipped
            < words {
            read16(bytes, 2 * skipped)
        } else {
            0
        },
    decreases words,
{
    if words > 0 {
        lemma_word_sum(bytes, skipped, (words - 1) as nat);
        let all = bytes.take(2 * words as int);
        assert(all.take(2 * (words - 1)) =~= bytes.take(2 * (words - 1)));
        assert((all.len() - 1) / 2 == words - 1);
    }
}

/// The word that is skipped does not matter.
proof fn lemma_skipped_word(a: Seq<u8>, b: Seq<u8>, skipped: int)
    requires
        a.len() == b.len(),
        forall|i: int|
            0 <= i < a.len() && i != 2 * skipped && i != 2 * skipped + 1 ==> #[trigger] a[i] == b[i],
    ensures
        word_sum(a, skipped) == word_sum(b, skipped),
    decreases a.len(),
{
    if a.len() > 0 {
        let last = (a.len() - 1) / 2;
        let fa = a.take(2 * last);
        let fb = b.take(2 * last);
        assert forall|i: int|
            0 <= i < fa.len() && i != 2 * skipped && i != 2 * skipped + 1 implies #[trigger] fa[i]
            == fb[i] by {
            assert(a[i] == b[i]);
        }
        lemma_skipped_word(fa, fb, skipped);
        if last != skipped {
            assert(a[2 * last] == b[2 * last]);
            if 2 * last + 1 < a.len() {
                assert(a[2 * last + 1] == b[2 * last + 1]);
            }
        }
    }
}

/// Zeros at the end do not matter.
proof fn lemma_zeros_add_nothing(bytes: Seq<u8>, zeros: nat, skipped: int)
    ensures
        word_sum(bytes + Seq::new(zeros, |i: int| 0u8), skipped) == word_sum(bytes, skipped),
    decreases zeros,
{
    if zeros == 0 {
        assert(bytes + Seq::new(0, |i: int| 0u8) =~= bytes);
    } else {
        lemma_zeros_add_nothing(bytes, (zeros - 1) as nat, skipped);
        let b = bytes + Seq::new((zeros - 1) as nat, |i: int| 0u8);
        let all = bytes + Seq::new(zeros, |i: int| 0u8);
        assert(all =~= b.push(0));
        if b.len() % 2 == 0 {
            assert((all.len() - 1) / 2 * 2 == b.len());
            assert(all.take(b.len() as int) =~= b);
        } else {
            let last = (b.len() - 1) / 2;
            assert((all.len() - 1) / 2 == last);
            assert(all.take(2 * last) =~= b.take(2 * last));
        }
    }
}

/// A sum and its checksum make a multiple of 0xffff.
proof fn lemma_checksum_adds_up(sum: nat)
    ensures
        (sum + internet_checksum(sum)) % 0xffff == 0,
{
    if sum > 0 {
        let rest = (sum - 1) % 0xffff;
        let whole = (sum - 1) / 0xffff;
        assert(sum - 1 == 0xffff * whole + rest);
        assert(sum + internet_checksum(sum) == 0xffff * (whole + 1));
        assert((0xffff * (whole + 1)) % 0xffff == 0) by (nonlinear_arith);
    }
}

/// The header of a captured packet is intact to whoever checks it: its ten words, the checksum among
/// them, add up to a multiple of 0xffff.
pub proof fn law_header_checksum_adds_up(t: TransmitView)
    requires
        t.source.ip is V4,
        t.destination.ip is V4,
        28 + t.contents.len() <= 2000,
    ensures
        sum_of_words(captured_packet(t), 10) % 0xffff == 0,
{
    let source = t.source.ip->V4_0;
    let destination = t.destination.ip->V4_0;
    let udp = udp_packet(t, udp_ipv4_checksum(udp_buffer(t), source, destination));
    let unchecked = ip_header(t, 0) + udp;
    let checksum = ipv4_header_checksum(unchecked);
    let packet = captured_packet(t);
    assert(packet == ip_header(t, checksum) + udp);
    assert(header_len(unchecked) == 20);
    let a = unchecked.take(20);
    let b = packet.take(20);
    assert forall|i: int| 0 <= i < a.len() && i != 2 * 5 && i != 2 * 5 + 1 implies #[trigger] a[i]
        == b[i] by {}
    lemma_skipped_word(a, b, 5);
    lemma_word_sum(packet, 5, 10);
    assert(read16(packet, 10) == checksum);
    lemma_checksum_adds_up(word_sum(a, 5));
}

/// The checksum of the UDP packet in a captured packet covers the addresses, the number of the
/// protocol and the UDP packet: together with it, they add up to a multiple of 0xffff. The length that
/// is counted is that of the buffer in which packets are put together.
pub proof fn law_udp_checksum_adds_up(t: TransmitView, source: u32, destination: u32)
    requires
        t.source.ip == IpAddr::V4(source),
        t.destination.ip == IpAddr::V4(destination),
        28 + t.contents.len() <= 2000,
    ensures
        ({
            let packet = captured_packet(t);
            (source / 0x1_0000 + source % 0x1_0000 + destination / 0x1_0000 + destination
                % 0x1_0000 + 17 + 2000 + word_sum(packet.skip(20), 3) + read16(packet, 26))
                % 0xffff == 0
        }),
{
    let checksum = udp_ipv4_checksum(udp_buffer(t), source, destination);
    let udp = udp_packet(t, checksum);
    let packet = captured_packet(t);
    assert(packet.skip(20) =~= udp);
    let unchecked = udp_packet(t, 0);
    lemma_zeros_add_nothing(unchecked, (2000 - 8 - t.contents.len()) as nat, 3);
    assert forall|i: int|
        0 <= i < unchecked.len() && i != 2 * 3 && i != 2 * 3 + 1 implies #[trigger] unchecked[i]
        == udp[i] by {}
    lemma_skipped_word(unchecked, udp, 3);
    assert(udp_buffer(t).len() == 2000);
    assert(read16(packet, 26) == checksum);
    lemma_checksum_adds_up(
        (source / 0x1_0000 + source % 0x1_0000 + destination / 0x1_0000 + destination % 0x1_0000
            + 17 + 2000 + word_sum(udp, 3)) as nat,
    );
}

/// The block with the secrets can be read back: its type, its length in bytes before and behind its
/// body, the type and the length of the secrets, and the secrets themselves. What fills the block up
/// is zero, and shorter than a word.
pub proof fn law_secrets_can_be_read_back(secrets: Seq<u8>)
    requires
        secrets.len() + 24 <= u32::MAX,
    ensures
        ({
            let body = secrets_body(secrets);
            let length = (body.len() + 12) as u32;
            let block = block_bytes(SECRETS_BLOCK_TYPE, length, body);
            let size = secrets.len() as int;
            &&& block.len() == length
            &&& length % 4 == 0
            &&& read32(block, 0) == 0x0a
            &&& read32(block, 4) == block.len()
            // "TLSK"
            &&& read32(block, 8) == 0x544c_534b
            &&& read32(block, 12) == size
            &&& block.subrange(16, 16 + size) == secrets
            &&& 16 + size <= block.len() - 4 < 20 + size
            &&& forall|i: int| 16 + size <= i < block.len() - 4 ==> #[trigger] block[i] == 0
            &&& read32(block, block.len() - 4) == block.len()
        }),
{
    let body = secrets_body(secrets);
    let length = (body.len() + 12) as u32;
    lemma_body_parts(secrets);
    law_secrets_block_is_aligned(secrets, length);
    lemma_block_parts(SECRETS_BLOCK_TYPE, length, body);
    lemma_body_in_block(
        block_bytes(SECRETS_BLOCK_TYPE, length, body),
        body,
        secrets,
    );
}

/// The parts of a body are found in the block, behind its head.
proof fn lemma_body_in_block(block: Seq<u8>, body: Seq<u8>, secrets: Seq<u8>)
    requires
        8 + secrets.len() <= body.len(),
        block.len() == body.len() + 12,
        forall|i: int| 8 <= i < 8 + body.len() ==> #[trigger] block[i] == body[i - 8],
        body.subrange(8, 8 + secrets.len() as int) == secrets,
        forall|i: int| 8 + secrets.len() <= i < body.len() ==> #[trigger] body[i] == 0,
    ensures
        read32(block, 8) == read32(body, 0),
        read32(block, 12) == read32(body, 4),
        block.subrange(16, 16 + secrets.len() as int) == secrets,
        forall|i: int| 16 + secrets.len() <= i < block.len() - 4 ==> #[trigger] block[i] == 0,
{
    lemma_read32(block, body, 8, 0);
    lemma_read32(block, body, 12, 4);
    assert(block.subrange(16, 16 + secrets.len() as int) =~= body.subrange(
        8,
        8 + secrets.len() as int,
    ));
    assert forall|i: int| 16 + secrets.len() <= i < block.len() - 4 implies #[trigger] block[i]
        == 0 by {
        assert(block[i] == body[i - 8]);
    }
}

proof fn lemma_read32(a: Seq<u8>, b: Seq<u8>, i: int, j: int)
    requires
        a[i] == b[j],
        a[i + 1] == b[j + 1],
        a[i + 2] == b[j + 2],
        a[i + 3] == b[j + 3],
    ensures
        read32(a, i) == read32(b, j),
{
}

proof fn lemma_block_parts(block_type: u32, length: u32, body: Seq<u8>)
    ensures
        ({
            let block = block_bytes(block_type, length, body);
            &&& block.len() == body.len() + 12
            &&& read32(block, 0) == block_type
            &&& read32(block, 4) == length
            &&& forall|i: int| 8 <= i < 8 + body.len() ==> #[trigger] block[i] == body[i - 8]
            &&& read32(block, 8 + body.len() as int) == length
        }),
{
    lemma_be32(block_type);
    lemma_be32(length);
}

proof fn lemma_body_parts(secrets: Seq<u8>)
    requires
        secrets.len() + 24 <= u32::MAX,
    ensures
        ({
            let body = secrets_body(secrets);
            let size = secrets.len() as int;
            &&& 8 + size <= body.len() < 12 + size
            &&& read32(body, 0) == 0x544c_534b
            &&& read32(body, 4) == size
            &&& body.subrange(8, 8 + size) == secrets
            &&& forall|i: int| 8 + size <= i < body.len() ==> #[trigger] body[i] == 0
        }),
{
    let body = secrets_body(secrets);
    lemma_be32(secrets.len() as u32);
    assert(body.subrange(8, 8 + secrets.len() as int) =~= secrets);
}

/// The value of a lower-case hexadecimal digit.
pub open spec fn digit_value(c: char) -> int {
    if '0' <= c && c <= '9' {
        c as int - '0' as int
    } else {
        c as int - 'a' as int + 10
    }
}

/// The bytes of a secret can be read back from its line: there are two lower-case hexadecimal digits
/// for each of them.
pub proof fn law_hex_can_be_read_back(data: Seq<u8>, i: int)
    requires
        0 <= i < data.len(),
    ensures
        hex_text(data).len() == 2 * data.len(),
        digit_value(hex_text(data)[2 * i]) * 16 + digit_value(hex_text(data)[2 * i + 1]) == data[i],
        0 <= digit_value(hex_text(data)[2 * i]) < 16,
        0 <= digit_value(hex_text(data)[2 * i + 1]) < 16,
{
    assert((2 * i) / 2 == i && (2 * i + 1) / 2 == i);
    assert((2 * i) % 2 == 0 && (2 * i + 1) % 2 == 1);
}

/// A line holds, in this order and separated by a space each, the label, the client's random bytes and
/// the secret.
pub proof fn law_keylog_lines_hold_their_parts(
    label: Seq<char>,
    client_random: Seq<u8>,
    secret: Seq<u8>,
)
    ensures
        ({
            let line = keylog_line(label, client_random, secret);
            let first = label.len() as int;
            let second = first + 1 + 2 * client_random.len();
            &&& line.len() == second + 1 + 2 * secret.len()
            &&& line.take(first) == label
            &&& line[first] == ' '
            &&& line.subrange(first + 1, second) == hex_text(client_random)
            &&& line[second] == ' '
            &&& line.skip(second + 1) == hex_text(secret)
        }),
{
    reveal_strlit(" ");
    let line = keylog_line(label, client_random, secret);
    let first = label.len() as int;
    let second = first + 1 + 2 * client_random.len();
    assert(line.take(first) =~= label);
    assert(line.subrange(first + 1, second) =~= hex_text(client_random));
    assert(line.skip(second + 1) =~= hex_text(secret));
}

} // verus!
