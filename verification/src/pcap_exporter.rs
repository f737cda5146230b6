//! Packet captures: the bytes that go into capture files, one per node.
//!
//! A capture holds IPv4 packets. Where TLS secrets were logged, a block with the secrets comes
//! before the packets, so that network analyzers can decrypt them.

use crate::checksum::{
    compute_header_checksum, compute_udp_checksum, ipv4_header_checksum, udp_ipv4_checksum,
};
use crate::network::ip::IpAddr;
use crate::text::{join, joined, texts};
use crate::transmit::{bytes_as_slice, OwnedTransmit, TransmitView};
use vstd::prelude::*;
use vstd::utf8::encode_utf8;

verus! {

/// Whether nodes capture the packets that they send and receive.
#[derive(Clone, Copy, PartialEq, Eq, Structural, Debug)]
pub enum PcapOptions {
    Disabled,
    WithTlsKeys,
}

/// The character of a hexadecimal digit.
pub open spec fn hex_digit(d: int) -> char {
    if d < 10 {
        (48 + d) as char
    } else {
        (87 + d) as char
    }
}

/// Two lower-case hexadecimal digits per byte, the upper half of the byte first.
pub open spec fn hex_text(data: Seq<u8>) -> Seq<char> {
    Seq::new(
        2 * data.len(),
        |i: int|
            if i % 2 == 0 {
                hex_digit(data[i / 2] as int / 16)
            } else {
                hex_digit(data[i / 2] as int % 16)
            },
    )
}

/// Encodes with `hex::encode`, which gives two lower-case hexadecimal digits per byte.
#[verifier::external_body]
fn hex_encode(data: &[u8]) -> (r: String)
    ensures
        r@ == hex_text(data@),
{
    hex::encode(data)
}

/// The TLS secrets that a node's endpoints have logged, one line per secret.
pub struct InMemoryKeyLog {
    pub log: Vec<String>,
}

impl View for InMemoryKeyLog {
    type V = Seq<Seq<char>>;

    open spec fn view(&self) -> Seq<Seq<char>> {
        texts(self.log@)
    }
}

/// The line for a secret.
pub open spec fn keylog_line(label: Seq<char>, client_random: Seq<u8>, secret: Seq<u8>) -> Seq<
    char,
> {
    label + " "@ + hex_text(client_random) + " "@ + hex_text(secret)
}

impl InMemoryKeyLog {
    pub fn new() -> (r: Self)
        ensures
            r@ == Seq::<Seq<char>>::empty(),
    {
        let r = InMemoryKeyLog { log: Vec::new() };
        assert(r@ =~= Seq::<Seq<char>>::empty());
        r
    }

    /// Adds a line for a secret.
    pub fn log(&mut self, label: &str, client_random: &[u8], secret: &[u8])
        ensures
            final(self)@ == old(self)@.push(keylog_line(label@, client_random@, secret@)),
    {
        let client_random = hex_encode(client_random);
        let secret = hex_encode(secret);
        let mut line = label.to_owned();
        line.append(" ");
        line.append(client_random.as_str());
        line.append(" ");
        line.append(secret.as_str());
        let ghost text = line@;
        self.log.push(line);
        assert(self@ =~= old(self)@.push(text));
    }
}

/// The bytes of a number, the most significant one first.
pub open spec fn be16(n: u16) -> Seq<u8> {
    seq![(n / 0x100) as u8, (n % 0x100) as u8]
}

/// The bytes of a number, the most significant one first.
pub open spec fn be32(n: u32) -> Seq<u8> {
    seq![
        (n / 0x100_0000) as u8,
        (n / 0x1_0000 % 0x100) as u8,
        (n / 0x100 % 0x100) as u8,
        (n % 0x100) as u8,
    ]
}

fn push_be16(bytes: &mut Vec<u8>, n: u16)
    ensures
        final(bytes)@ == old(bytes)@ + be16(n),
{
    bytes.push((n / 0x100) as u8);
    bytes.push((n % 0x100) as u8);
    assert(bytes@ =~= old(bytes)@ + be16(n));
}

fn push_be32(bytes: &mut Vec<u8>, n: u32)
    ensures
        final(bytes)@ == old(bytes)@ + be32(n),
{
    bytes.push((n / 0x100_0000) as u8);
    bytes.push((n / 0x1_0000 % 0x100) as u8);
    bytes.push((n / 0x100 % 0x100) as u8);
    bytes.push((n % 0x100) as u8);
    assert(bytes@ =~= old(bytes)@ + be32(n));
}

/// The type of blocks that hold secrets.
pub const SECRETS_BLOCK_TYPE: u32 = 0x0000_000A;

/// The type of secrets in the format of TLS key logs.
pub const TLS_KEY_LOG: u32 = 0x544c_534b;

/// A block of a capture file.
pub struct CaptureBlock {
    pub block_type: u32,
    /// The length of the whole block, which is written before and behind its body
    pub length: u32,
    pub body: Vec<u8>,
}

/// The bytes of a block.
pub open spec fn block_bytes(block_type: u32, length: u32, body: Seq<u8>) -> Seq<u8> {
    be32(block_type) + be32(length) + body + be32(length)
}

/// All secrets, one per line.
pub open spec fn secrets_text(lines: Seq<Seq<char>>) -> Seq<char> {
    joined(lines, "\n"@) + "\n"@
}

/// The number of bytes up to the next multiple of four.
pub open spec fn padding(len: nat) -> nat {
    ((4 - len % 4) % 4) as nat
}

/// The body of a block with secrets: their type, their length, and the secrets themselves, filled up
/// to a multiple of four bytes.
pub open spec fn secrets_body(secrets: Seq<u8>) -> Seq<u8> {
    be32(TLS_KEY_LOG) + be32(secrets.len() as u32) + secrets + Seq::new(
        padding(secrets.len()),
        |i: int| 0u8,
    )
}

/// The block with the secrets of a key log.
pub fn keylog_block(keylog: &InMemoryKeyLog) -> (block: CaptureBlock)
    requires
        encode_utf8(secrets_text(keylog@)).len() + 24 <= u32::MAX,
    ensures
        block.block_type == SECRETS_BLOCK_TYPE,
        block.body@ == secrets_body(encode_utf8(secrets_text(keylog@))),
        block.length == block.body@.len() + 12,
{
    let mut secrets = join(&keylog.log, "\n");
    secrets.append("\n");
    let secrets_bytes = secrets.as_str().as_bytes();
    let ghost utf8 = encode_utf8(secrets_text(keylog@));
    assert(secrets_bytes@ == utf8);
    let len: usize = secrets_bytes.len();

    let mut body: Vec<u8> = Vec::new();
    push_be32(&mut body, TLS_KEY_LOG);
    push_be32(&mut body, len as u32);
    let ghost head = body@;
    assert(head =~= be32(TLS_KEY_LOG) + be32(utf8.len() as u32));
    for i in 0..len
        invariant
            len == secrets_bytes@.len(),
            head.len() == 8,
            body@ == head + secrets_bytes@.take(i as int),
    {
        body.push(secrets_bytes[i]);
        assert(body@ =~= head + secrets_bytes@.take(i + 1));
    }
    assert(secrets_bytes@.take(len as int) =~= secrets_bytes@);

    // Pad to a 4-byte boundary
    let ghost unpadded = body@;
    let ghost missing = padding(utf8.len());
    let mut padded: usize = 0;
    proof {
        lemma_padding_left(utf8.len(), 0);
    }
    while body.len() % 4 != 0
        invariant
            unpadded.len() == 8 + utf8.len(),
            missing == padding(utf8.len()),
            padded <= missing < 4,
            (unpadded.len() + padded) % 4 != 0 <==> padded < missing,
            body@ == unpadded + Seq::new(padded as nat, |i: int| 0u8),
        decreases missing - padded,
    {
        body.push(0);
        padded = padded + 1;
        assert(body@ =~= unpadded + Seq::new(padded as nat, |i: int| 0u8));
        proof {
            lemma_padding_left(utf8.len(), padded as nat);
        }
    }
    assert(padded == padding(utf8.len()));
    assert(body@ =~= secrets_body(utf8));
    let length: u32 = body.len() as u32 + 12;
    CaptureBlock { block_type: SECRETS_BLOCK_TYPE, length, body }
}

/// The length of a block with secrets is that of all its bytes, and a multiple of four: the file
/// stays readable.
pub proof fn law_secrets_block_is_aligned(secrets: Seq<u8>, length: u32)
    requires
        length == secrets_body(secrets).len() + 12,
    ensures
        block_bytes(SECRETS_BLOCK_TYPE, length, secrets_body(secrets)).len() == length,
        length % 4 == 0,
        secrets_body(secrets).subrange(8, 8int + secrets.len()) == secrets,
{
    lemma_secrets_body(secrets);
    lemma_block_len(SECRETS_BLOCK_TYPE, length, secrets_body(secrets));
    lemma_padding(secrets.len());
}

proof fn lemma_secrets_body(secrets: Seq<u8>)
    ensures
        secrets_body(secrets).len() == 8 + secrets.len() + padding(secrets.len()),
        secrets_body(secrets).subrange(8, 8int + secrets.len()) == secrets,
{
    let head = be32(TLS_KEY_LOG) + be32(secrets.len() as u32);
    let tail = Seq::new(padding(secrets.len()), |i: int| 0u8);
    lemma_middle(head, secrets, tail);
}

proof fn lemma_padding(len: nat)
    ensures
        (20 + len + padding(len)) % 4 == 0,
{
    if len % 4 == 0 {
        assert(padding(len) == 0);
    } else {
        assert(padding(len) == 4 - len % 4);
    }
}

/// Bytes are missing as long as the padding is not complete.
proof fn lemma_padding_left(len: nat, padded: nat)
    requires
        padded <= padding(len),
    ensures
        padding(len) < 4,
        (8 + len + padded) % 4 != 0 <==> padded < padding(len),
{
    let rest = len % 4;
    assert((8 + len + padded) % 4 == (rest + padded) % 4);
    if rest == 0 {
        assert(padding(len) == 0);
    } else {
        assert(padding(len) == 4 - rest);
    }
}

proof fn lemma_middle(head: Seq<u8>, middle: Seq<u8>, tail: Seq<u8>)
    ensures
        (head + middle + tail).subrange(head.len() as int, head.len() as int + middle.len()) == middle,
{
    assert((head + middle + tail).subrange(head.len() as int, head.len() as int + middle.len())
        =~= middle);
}

proof fn lemma_block_len(block_type: u32, length: u32, body: Seq<u8>)
    ensures
        block_bytes(block_type, length, body).len() == body.len() + 12,
{
}

/// The size of the buffer in which packets are put together.
pub const BUFFER_SIZE: usize = 2000;

/// A UDP packet.
pub open spec fn udp_packet(t: TransmitView, checksum: u16) -> Seq<u8> {
    be16(t.source.port) + be16(t.destination.port) + be16((8 + t.contents.len()) as u16) + be16(
        checksum,
    ) + t.contents
}

/// A UDP packet, with zeros up to the end of the buffer.
pub open spec fn udp_buffer(t: TransmitView) -> Seq<u8> {
    udp_packet(t, 0) + Seq::new((BUFFER_SIZE - 8 - t.contents.len()) as nat, |i: int| 0u8)
}

/// The header of an IPv4 packet around a UDP packet: no options, not fragmented.
pub open spec fn ip_header(t: TransmitView, checksum: u16) -> Seq<u8> {
    let ecn: u8 = match t.ecn {
        Some(codepoint) => codepoint.spec_bits(),
        None => 0,
    };
    seq![0x45u8, ecn] + be16((28 + t.contents.len()) as u16) + seq![0u8, 0u8, 0x40u8, 0u8] + seq![
        t.ttl,
        17u8,
    ] + be16(checksum) + be32(ipv4_address(t.source.ip)) + be32(ipv4_address(t.destination.ip))
}

/// The number of an IPv4 address.
pub open spec fn ipv4_address(ip: IpAddr) -> u32 {
    match ip {
        IpAddr::V4(address) => address,
        IpAddr::V6(_) => 0,
    }
}

/// The packet can be captured: it is an IPv4 packet, and small enough.
pub open spec fn can_capture(t: TransmitView) -> bool {
    t.source.ip is V4 && t.destination.ip is V4 && 28 + t.contents.len() <= BUFFER_SIZE
}

fn push_contents(bytes: &mut Vec<u8>, transmit: &OwnedTransmit)
    ensures
        final(bytes)@ == old(bytes)@ + transmit@.contents,
{
    let contents = bytes_as_slice(&transmit.contents);
    for i in 0..contents.len()
        invariant
            contents@ == transmit@.contents,
            bytes@ == old(bytes)@ + contents@.take(i as int),
    {
        bytes.push(contents[i]);
        assert(bytes@ =~= old(bytes)@ + contents@.take(i + 1));
    }
    assert(contents@.take(contents@.len() as int) =~= contents@);
}

/// Wraps the contents in a UDP packet with the given checksum.
pub fn wrap_in_udp(transmit: &OwnedTransmit, checksum: u16) -> (r: Vec<u8>)
    requires
        can_capture(transmit@),
    ensures
        r@ == udp_packet(transmit@, checksum),
{
    let mut bytes: Vec<u8> = Vec::new();
    let length: u16 = 8 + transmit.contents.len() as u16;
    push_be16(&mut bytes, transmit.source.port);
    push_be16(&mut bytes, transmit.destination.port);
    push_be16(&mut bytes, length);
    push_be16(&mut bytes, checksum);
    push_contents(&mut bytes, transmit);
    assert(bytes@ =~= udp_packet(transmit@, checksum));
    bytes
}

/// The header of the IPv4 packet around the transmit's UDP packet, with the given checksum.
pub fn header_for(transmit: &OwnedTransmit, checksum: u16) -> (r: Vec<u8>)
    requires
        can_capture(transmit@),
    ensures
        r@ == ip_header(transmit@, checksum),
{
    let source: u32 = match transmit.source.ip {
        IpAddr::V4(address) => address,
        IpAddr::V6(_) => 0,
    };
    let destination: u32 = match transmit.destination.ip {
        IpAddr::V4(address) => address,
        IpAddr::V6(_) => 0,
    };
    let ecn: u8 = match transmit.ecn {
        Some(codepoint) => codepoint.bits(),
        None => 0,
    };
    let mut bytes: Vec<u8> = Vec::new();
    // Version 4, five words of header
    bytes.push(0x45);
    bytes.push(ecn);
    let length: u16 = 28 + transmit.contents.len() as u16;
    push_be16(&mut bytes, length);
    // No identification, never fragmented
    bytes.push(0);
    bytes.push(0);
    bytes.push(0x40);
    bytes.push(0);
    bytes.push(transmit.ttl);
    // UDP
    bytes.push(17);
    push_be16(&mut bytes, checksum);
    push_be32(&mut bytes, source);
    push_be32(&mut bytes, destination);
    assert(bytes@ =~= ip_header(transmit@, checksum));
    bytes
}

/// The IPv4 packet with the transmit's contents, as it goes into a capture.
pub open spec fn captured_packet(t: TransmitView) -> Seq<u8> {
    let udp = udp_packet(
        t,
        udp_ipv4_checksum(udp_buffer(t), ipv4_address(t.source.ip), ipv4_address(t.destination.ip)),
    );
    ip_header(t, ipv4_header_checksum(ip_header(t, 0) + udp)) + udp
}

/// The IPv4 packet with the transmit's contents, as it goes into a capture.
pub fn ip_packet(transmit: &OwnedTransmit) -> (r: Vec<u8>)
    requires
        can_capture(transmit@),
    ensures
        r@ == captured_packet(transmit@),
        r@.len() == 28 + transmit@.contents.len(),
{
    let source: u32 = match transmit.source.ip {
        IpAddr::V4(address) => address,
        IpAddr::V6(_) => 0,
    };
    let destination: u32 = match transmit.destination.ip {
        IpAddr::V4(address) => address,
        IpAddr::V6(_) => 0,
    };

    let mut buffer = wrap_in_udp(transmit, 0);
    let ghost udp_start = buffer@;
    while buffer.len() < BUFFER_SIZE
        invariant
            udp_start.len() == 8 + transmit@.contents.len(),
            udp_start.len() <= buffer@.len() <= BUFFER_SIZE,
            buffer@ == udp_start + Seq::new(
                (buffer@.len() - udp_start.len()) as nat,
                |i: int| 0u8,
            ),
        decreases BUFFER_SIZE - buffer@.len(),
    {
        buffer.push(0);
        assert(buffer@ =~= udp_start + Seq::new(
            (buffer@.len() - udp_start.len()) as nat,
            |i: int| 0u8,
        ));
    }
    assert(buffer@ =~= udp_buffer(transmit@));
    let udp_checksum: u16 = compute_udp_checksum(buffer.as_slice(), source, destination);
    let mut udp = wrap_in_udp(transmit, udp_checksum);

    let mut unchecked = header_for(transmit, 0);
    let mut udp_copy = wrap_in_udp(transmit, udp_checksum);
    unchecked.append(&mut udp_copy);
    let header_checksum: u16 = compute_header_checksum(unchecked.as_slice());
    let mut packet = header_for(transmit, header_checksum);
    packet.append(&mut udp);
    packet
}

/// The path of a node's finished capture.
pub fn final_path(node_id: &String) -> (r: String)
    ensures
        r@ == node_id@ + ".pcap"@,
{
    let mut path = node_id.clone();
    path.append(".pcap");
    path
}

/// The path of a node's capture while the simulation runs.
pub fn tmp_path(node_id: &String) -> (r: String)
    ensures
        r@ == node_id@ + ".pcap.tmp"@,
{
    let mut path = node_id.clone();
    path.append(".pcap.tmp");
    path
}

/// How a capture is finished.
pub enum FinishPlan {
    /// Nothing was captured
    Discard,
    /// The file is complete, but has to be renamed
    Rename { from: String, to: String },
    /// The block has to come first, followed by what was captured
    Prepend { from: String, to: String, block: CaptureBlock },
}

/// Decides how to finish the capture of a node.
pub fn plan_finish(node_id: Option<&String>, keylog: Option<&InMemoryKeyLog>) -> (plan: FinishPlan)
    requires
        keylog matches Some(k) ==> encode_utf8(secrets_text(k@)).len() + 24 <= u32::MAX,
    ensures
        match plan {
            FinishPlan::Discard => node_id is None,
            FinishPlan::Rename { from, to } => node_id matches Some(id) && keylog is None && from@
                == id@ + ".pcap.tmp"@ && to@ == id@ + ".pcap"@,
            FinishPlan::Prepend { from, to, block } => node_id matches Some(id)
                && keylog matches Some(k) && from@ == id@ + ".pcap.tmp"@ && to@ == id@ + ".pcap"@
                && block.block_type == SECRETS_BLOCK_TYPE && block.body@ == secrets_body(
                encode_utf8(secrets_text(k@)),
            ) && block.length == block.body@.len() + 12,
        },
{
    match node_id {
        None => FinishPlan::Discard,
        Some(id) => {
            let from = tmp_path(id);
            let to = final_path(id);
            match keylog {
                None => FinishPlan::Rename { from, to },
                Some(keylog) => FinishPlan::Prepend { from, to, block: keylog_block(keylog) },
            }
        },
    }
}

/// Secrets are listed in the order in which they were logged, each on a line of its own.
pub proof fn law_secrets_are_listed_in_order(lines: Seq<Seq<char>>, line: Seq<char>)
    ensures
        lines.len() > 0 ==> secrets_text(lines.push(line)) == secrets_text(lines) + line + "\n"@,
        lines.len() == 0 ==> secrets_text(lines.push(line)) == line + "\n"@,
{
    let all = lines.push(line);
    assert(all.drop_last() =~= lines);
    assert(all.last() == line);
    if lines.len() == 0 {
        assert(joined(all, "\n"@) =~= line);
    } else {
        assert(joined(all, "\n"@) =~= joined(lines, "\n"@) + "\n"@ + line);
    }
}


} // verus!
