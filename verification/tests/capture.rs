use in_memory_network::network::ip::{ipv4_from_octets, IpAddr, Ipv4Cidr, SocketAddr};
use in_memory_network::network::route::IpRange;
use in_memory_network::pcap_exporter::{
    ip_packet, keylog_block, plan_finish, FinishPlan, InMemoryKeyLog,
};
use in_memory_network::quinn_interop::{outgoing_transmit, BufsAndMeta, RecvMeta};
use in_memory_network::transmit::{EcnCodepoint, DEFAULT_TTL};

fn addr(last: u8, port: u16) -> SocketAddr {
    SocketAddr {
        ip: IpAddr::V4(ipv4_from_octets(10, 0, 0, last)),
        port,
    }
}

#[test]
fn secrets_are_logged_in_hexadecimal() {
    let mut keylog = InMemoryKeyLog::new();
    keylog.log("CLIENT_TRAFFIC_SECRET_0", &[0x00, 0xab, 0x1f], &[0xff, 0x09]);
    assert_eq!(keylog.log, vec!["CLIENT_TRAFFIC_SECRET_0 00ab1f ff09"]);
}

#[test]
fn secrets_are_put_in_a_block() {
    let mut keylog = InMemoryKeyLog::new();
    keylog.log("A", &[1], &[2]);
    keylog.log("B", &[3], &[4]);
    let block = keylog_block(&keylog);
    let secrets = b"A 01 02\nB 03 04\n";
    assert_eq!(block.block_type, 0x0000000A);
    assert_eq!(&block.body[0..4], &[0x54, 0x4c, 0x53, 0x4b]);
    assert_eq!(&block.body[4..8], &(secrets.len() as u32).to_be_bytes());
    assert_eq!(&block.body[8..8 + secrets.len()], secrets);
    assert_eq!(block.body.len() % 4, 0);
    assert_eq!(block.length as usize, block.body.len() + 12);

    // An odd number of bytes is filled up
    keylog.log("CC", &[], &[5]);
    let block = keylog_block(&keylog);
    assert_eq!(block.body.len(), 8 + 24);
    assert_eq!(&block.body[8 + 16..], b"CC  05\n\0");
    assert_eq!(block.length, 44);
}

#[test]
fn captures_are_finished() {
    assert!(matches!(plan_finish(None, None), FinishPlan::Discard));
    let node = "GND".to_string();
    match plan_finish(Some(&node), None) {
        FinishPlan::Rename { from, to } => {
            assert_eq!(from, "GND.pcap.tmp");
            assert_eq!(to, "GND.pcap");
        }
        _ => panic!("expected the file to be renamed"),
    }
    let keylog = InMemoryKeyLog::new();
    match plan_finish(Some(&node), Some(&keylog)) {
        FinishPlan::Prepend { from, to, block } => {
            assert_eq!(from, "GND.pcap.tmp");
            assert_eq!(to, "GND.pcap");
            assert_eq!(&block.body[8..9], b"\n");
        }
        _ => panic!("expected a block"),
    }
}

#[test]
fn packets_are_wrapped_in_udp_and_ip() {
    let transmit = outgoing_transmit(
        addr(1, 1234),
        addr(2, 8080),
        Some(EcnCodepoint::Ect0),
        b"hello",
        None,
    );
    let packet = ip_packet(&transmit);
    assert_eq!(packet.len(), 33);
    assert_eq!(packet[0], 0x45);
    assert_eq!(packet[1], 0b10);
    assert_eq!(&packet[2..4], &33u16.to_be_bytes());
    assert_eq!(&packet[4..8], &[0, 0, 0x40, 0]);
    assert_eq!(packet[8], DEFAULT_TTL);
    assert_eq!(packet[9], 17);
    assert_eq!(&packet[12..16], &[10, 0, 0, 1]);
    assert_eq!(&packet[16..20], &[10, 0, 0, 2]);
    assert_eq!(&packet[20..22], &1234u16.to_be_bytes());
    assert_eq!(&packet[22..24], &8080u16.to_be_bytes());
    assert_eq!(&packet[24..26], &13u16.to_be_bytes());
    assert_eq!(&packet[28..], b"hello");

    // The words of a header with a correct checksum add up to all ones
    let mut sum: u32 = packet[..20]
        .chunks(2)
        .map(|w| u16::from_be_bytes([w[0], w[1]]) as u32)
        .sum();
    while sum > 0xffff {
        sum = (sum & 0xffff) + (sum >> 16);
    }
    assert_eq!(sum, 0xffff);

    // The checksum of the UDP packet is computed over the whole buffer
    let mut buffer = vec![0u8; 2000];
    buffer[..13].copy_from_slice(&packet[20..]);
    buffer[6] = 0;
    buffer[7] = 0;
    let udp = pnet_packet::udp::UdpPacket::new(&buffer).unwrap();
    let checksum = pnet_packet::udp::ipv4_checksum(
        &udp,
        &ipv4_from_octets(10, 0, 0, 1).into(),
        &ipv4_from_octets(10, 0, 0, 2).into(),
    );
    assert_eq!(&packet[26..28], &checksum.to_be_bytes());
}

#[test]
fn buffers_start_empty_and_are_filled() {
    let mut bufs = BufsAndMeta::new(8, 2);
    assert_eq!(bufs.bufs, vec![vec![0u8; 8], vec![0u8; 8]]);
    assert_eq!(bufs.meta, vec![RecvMeta::default(); 2]);
    assert_eq!(bufs.meta[0].addr.port, 0);
    assert_eq!(bufs.meta[0].addr.ip, IpAddr::V6(0));
    assert_eq!(bufs.meta[0].dst_ip, None);

    let transmit = outgoing_transmit(addr(1, 5), addr(2, 6), None, b"abc", None);
    bufs.bufs[1] = vec![9u8; 8];
    bufs.fill(1, &transmit);
    assert_eq!(bufs.bufs[1], vec![b'a', b'b', b'c', 9, 9, 9, 9, 9]);
    assert_eq!(bufs.meta[1].len, 3);
    assert_eq!(bufs.meta[1].stride, 3);
    assert_eq!(bufs.meta[1].addr, addr(1, 5));
    assert_eq!(bufs.meta[1].dst_ip, Some(addr(2, 6).ip));
    assert_eq!(bufs.meta[0], RecvMeta::default());

    let packets = bufs.packets(2);
    assert_eq!(packets.len(), 2);
    assert_eq!(packets[1].payload, b"abc");
    assert_eq!(packets[1].source_addr, addr(1, 5));
    assert_eq!(packets[0].payload, b"");
}

#[test]
fn ranges_hold_the_addresses_of_a_network() {
    let range = IpRange::from_cidr(Ipv4Cidr::from_ipv4(ipv4_from_octets(10, 1, 2, 3), 30));
    assert_eq!(range.first, ipv4_from_octets(10, 1, 2, 0));
    assert_eq!(range.last, ipv4_from_octets(10, 1, 2, 3));
    assert!(range.contains(IpAddr::V4(ipv4_from_octets(10, 1, 2, 2))));
    assert!(!range.contains(IpAddr::V4(ipv4_from_octets(10, 1, 2, 4))));
    assert!(!range.contains(IpAddr::V6(0)));
    let all = IpRange::from_cidr(Ipv4Cidr::from_ipv4(7, 0));
    assert_eq!((all.first, all.last), (0, u32::MAX));
    let one = IpRange::from_cidr(Ipv4Cidr::from_ipv4(7, 32));
    assert_eq!((one.first, one.last), (7, 7));
}

fn ones_complement_sum(bytes: &[u8], start: u32) -> u32 {
    let mut sum = start;
    for word in bytes.chunks(2) {
        sum += (word[0] as u32) * 256;
        if word.len() == 2 {
            sum += word[1] as u32;
        }
    }
    while sum > 0xffff {
        sum = (sum & 0xffff) + (sum >> 16);
    }
    sum
}

#[test]
fn checksums_are_complements_of_sums() {
    for contents in [&b""[..], b"a", b"hello", &[0xff; 1001]] {
        let transmit = outgoing_transmit(addr(1, 1234), addr(2, 8080), None, contents, None);
        let packet = ip_packet(&transmit);

        // With the checksum, the words add up to all ones
        assert_eq!(ones_complement_sum(&packet[..20], 0), 0xffff);
        let mut buffer = vec![0u8; 2000];
        buffer[..packet.len() - 20].copy_from_slice(&packet[20..]);
        let pseudo_header = ones_complement_sum(&packet[12..20], 17 + 2000);
        assert_eq!(ones_complement_sum(&buffer, pseudo_header), 0xffff);
    }
}
