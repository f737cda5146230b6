use in_memory_network::network::event::UpdateLinkStatus;
use in_memory_network::network::ip::IpAddr;
use in_memory_network::network::link::{NetworkLink, PacketPacer, BATCH_MAX_DELAY};
use in_memory_network::network::spec::NetworkLinkSpec;
use in_memory_network::random::Ratio;
use in_memory_network::time::Nanos;
use std::time::Duration;

const BANDWIDTH_10_KB: u64 = 10 * 1000;
const ONE_KB_BYTES: usize = 1000 / 8;

fn packet_delay(bandwidth_bps: u64, packet_size_bytes: usize) -> Nanos {
    let packet_size_bits = packet_size_bytes.saturating_mul(8);
    Duration::from_secs_f64(packet_size_bits as f64 / bandwidth_bps as f64).as_nanos()
}

fn can_send(pacer: &mut PacketPacer, now: Nanos, bytes: usize) -> bool {
    let delay = packet_delay(pacer.bandwidth_bps, bytes);
    pacer.can_send(now, delay)
}

fn track_send(pacer: &mut PacketPacer, now: Nanos, bytes: usize) {
    let delay = packet_delay(pacer.bandwidth_bps, bytes);
    pacer.track_send(now, delay)
}

#[test]
fn test_pacer_can_send_bigger_than_bandwidth() {
    let now: Nanos = 5_000;
    let mut pacer = PacketPacer::new(now, BANDWIDTH_10_KB);
    let payload_bytes = 20 * ONE_KB_BYTES;

    assert!(packet_delay(BANDWIDTH_10_KB, payload_bytes) > BATCH_MAX_DELAY);

    assert!(can_send(&mut pacer, now, payload_bytes));
    track_send(&mut pacer, now, payload_bytes);

    // Can't send right after
    assert!(!can_send(&mut pacer, now, payload_bytes));
    let one_second = Duration::from_secs(1).as_nanos();
    assert!(!can_send(&mut pacer, now + one_second, payload_bytes));

    // Can send much later
    let much_later = Duration::from_secs(100).as_nanos();
    assert!(can_send(&mut pacer, now + much_later, payload_bytes));
}

#[test]
fn test_pacer_batches_packets() {
    let now: Nanos = 7_000_000;
    let mut pacer = PacketPacer::new(now, BANDWIDTH_10_KB * 1000);

    assert_eq!(pacer.batch.created, now);
    assert_eq!(pacer.batch.delay, Duration::from_millis(0).as_nanos());

    // Send one
    assert!(can_send(&mut pacer, now, ONE_KB_BYTES));
    track_send(&mut pacer, now, ONE_KB_BYTES);
    assert_eq!(pacer.batch.created, now);
    assert_eq!(pacer.batch.delay, Duration::from_micros(100).as_nanos());

    // Send another
    assert!(can_send(&mut pacer, now, ONE_KB_BYTES));
    track_send(&mut pacer, now, ONE_KB_BYTES);
    assert_eq!(pacer.batch.created, now);
    assert_eq!(pacer.batch.delay, Duration::from_micros(200).as_nanos());

    // Send another, 1ms later resets the batch
    let later = now + Duration::from_millis(1).as_nanos();
    assert!(can_send(&mut pacer, later, ONE_KB_BYTES));
    track_send(&mut pacer, later, ONE_KB_BYTES);
    assert_eq!(pacer.batch.created, later);
    assert_eq!(pacer.batch.delay, Duration::from_micros(100).as_nanos());

    // Fail to send a too-big packet right after
    assert!(!can_send(&mut pacer, later, ONE_KB_BYTES * 100));
}

#[test]
fn test_pacer_can_send_after_wait() {
    let now: Nanos = 0;
    let mut pacer = PacketPacer::new(now, BANDWIDTH_10_KB * 100);

    // Send one
    track_send(&mut pacer, now, 10);
    assert_eq!(pacer.batch.created, now);
    assert!(pacer.batch.delay < Duration::from_millis(1).as_nanos());

    // Fail to send second
    assert!(!can_send(&mut pacer, now, 1000));
    let packet_delay = packet_delay(pacer.bandwidth_bps, 1000);
    let delay = pacer.duration_until_can_send(now, packet_delay);

    // Send after the wait
    let after_wait = now + delay;
    assert!(can_send(&mut pacer, after_wait, 1000));
}

#[test]
fn pacer_never_sends_faster_than_the_bandwidth() {
    let mut pacer = PacketPacer::new(0, 1_000_000);
    let mut now: Nanos = 0;
    let mut total: Nanos = 0;
    for _ in 0..50 {
        let delay = packet_delay(1_000_000, 100);
        now += pacer.duration_until_can_send(now, delay);
        pacer.track_send(now, delay);
        total += delay;
        assert!(total <= pacer.batch.created + pacer.batch.delay);
        assert!(pacer.batch.delay < BATCH_MAX_DELAY);
    }
    assert_eq!(total, 40_000_000);
}

fn link() -> NetworkLink {
    NetworkLink::new(
        &NetworkLinkSpec {
            id: "a-b".to_string(),
            source: IpAddr::V4(1),
            target: IpAddr::V4(2),
            delay: 10,
            bandwidth_bps: 8_000_000_000,
            congestion_event_ratio: Ratio::zero(),
            extra_delay: 0,
            extra_delay_ratio: Ratio::zero(),
        },
        0,
    )
}

#[test]
fn link_status_updates() {
    let mut link = link();
    assert_eq!(link.status_str(), "UP");
    assert!(!link.update_status(UpdateLinkStatus::Up, 5));
    assert!(!link.was_down_after(0));

    assert!(!link.update_status(UpdateLinkStatus::Down, 7));
    assert!(link.is_down());
    assert_eq!(link.status_str(), "DOWN");
    assert!(link.was_down_after(6));
    assert!(!link.was_down_after(7));

    // Going down while down changes nothing
    assert!(!link.update_status(UpdateLinkStatus::Down, 9));
    assert!(!link.was_down_after(7));

    assert!(link.update_status(UpdateLinkStatus::Up, 11));
    assert!(link.was_down_after(6));
    assert!(!link.is_down());
}

#[test]
fn link_delay_only_changes_while_down() {
    let mut link = link();
    link.update_delay(99);
    assert_eq!(link.current_delay(), 10);
    link.update_status(UpdateLinkStatus::Down, 1);
    link.update_delay(99);
    assert_eq!(link.current_delay(), 99);
}

#[test]
fn link_has_bandwidth_only_when_up() {
    let mut link = link();
    assert!(link.has_bandwidth_available(0, 1000));
    link.update_status(UpdateLinkStatus::Down, 1);
    assert!(!link.has_bandwidth_available(2, 1000));
}
