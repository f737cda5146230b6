//! QUIC endpoints: their parameters and the requests that clients make.

pub mod client;

use crate::config::quinn::{CongestionControlAlgorithm, QuinnJsonConfig};
use vstd::prelude::*;

verus! {

pub const BASE_DATAGRAM_SIZE: u64 = 1200;

/// What the QUIC implementation is told; what is missing is left at its defaults.
#[derive(Clone, Copy, PartialEq, Eq, Structural, Debug)]
pub struct TransportSettings {
    pub mtu_discovery: bool,
    pub max_idle_timeout_ms: Option<u64>,
    /// Send and receive windows are as large as possible
    pub maximize_windows: bool,
    pub packet_threshold: Option<u32>,
    pub congestion_controller: CongestionControlAlgorithm,
    /// The initial congestion window, in bytes
    pub initial_window: Option<u64>,
    pub ack_frequency: Option<AckFrequencySettings>,
    pub initial_rtt_ms: Option<u64>,
}

/// How the ACK Frequency extension is configured.
#[derive(Clone, Copy, PartialEq, Eq, Structural, Debug)]
pub struct AckFrequencySettings {
    pub ack_eliciting_threshold: Option<u32>,
    pub max_ack_delay_ms: Option<u64>,
    pub reordering_threshold: u32,
}

/// The configured values are in range: the congestion window can be expressed in bytes, the idle
/// timeout fits the 62 bits that QUIC has for it, and packets can be reordered at all.
pub open spec fn settings_in_range(config: QuinnJsonConfig) -> bool {
    &&& config.initial_congestion_window_packets matches Some(packets) ==> packets
        * BASE_DATAGRAM_SIZE <= u64::MAX
    &&& config.maximum_idle_timeout_ms matches Some(timeout) ==> timeout < 0x4000_0000_0000_0000
    &&& config.ack_frequency_config is Some ==> config.packet_threshold != Some(0u32)
}

pub open spec fn initial_window(config: QuinnJsonConfig) -> Option<u64> {
    match config.initial_congestion_window_packets {
        Some(packets) => Some((packets * BASE_DATAGRAM_SIZE) as u64),
        None => if config.congestion_controller == Some(CongestionControlAlgorithm::NoCc) {
            Some(u64::MAX)
        } else {
            None
        },
    }
}

/// What the QUIC implementation is told for the given configuration.
pub open spec fn settings_for(config: QuinnJsonConfig) -> TransportSettings {
    TransportSettings {
        mtu_discovery: match config.mtu_discovery {
            Some(enabled) => enabled,
            None => true,
        },
        max_idle_timeout_ms: config.maximum_idle_timeout_ms,
        maximize_windows: config.maximize_send_and_receive_windows == Some(true),
        packet_threshold: config.packet_threshold,
        congestion_controller: match config.congestion_controller {
            Some(algorithm) => algorithm,
            None => CongestionControlAlgorithm::Cubic,
        },
        initial_window: initial_window(config),
        ack_frequency: match config.ack_frequency_config {
            Some(ack_frequency) => Some(
                AckFrequencySettings {
                    ack_eliciting_threshold: ack_frequency.ack_eliciting_threshold,
                    max_ack_delay_ms: ack_frequency.max_ack_delay_ms,
                    reordering_threshold: match config.packet_threshold {
                        Some(threshold) => (threshold - 1) as u32,
                        None => 2,
                    },
                },
            ),
            None => None,
        },
        initial_rtt_ms: config.initial_rtt_ms,
    }
}

/// Whether the configured values are in range.
pub fn check_settings(config: &QuinnJsonConfig) -> (r: bool)
    ensures
        r == settings_in_range(*config),
{
    let window_fits = match config.initial_congestion_window_packets {
        Some(packets) => packets <= u64::MAX / BASE_DATAGRAM_SIZE,
        None => true,
    };
    let timeout_fits = match config.maximum_idle_timeout_ms {
        Some(timeout) => timeout < 0x4000_0000_0000_0000,
        None => true,
    };
    let threshold_fits = match (config.ack_frequency_config, config.packet_threshold) {
        (Some(_), Some(threshold)) => threshold != 0,
        _ => true,
    };
    window_fits && timeout_fits && threshold_fits
}

/// What the QUIC implementation is told for the given configuration.
pub fn transport_config(config: &QuinnJsonConfig) -> (r: TransportSettings)
    requires
        settings_in_range(*config),
    ensures
        r == settings_for(*config),
{
    let mtu_discovery = match config.mtu_discovery {
        Some(enabled) => enabled,
        None => true,
    };
    let maximize_windows = match config.maximize_send_and_receive_windows {
        Some(maximize) => maximize,
        None => false,
    };
    let congestion_controller = match config.congestion_controller {
        Some(algorithm) => algorithm,
        None => CongestionControlAlgorithm::Cubic,
    };
    let initial_window: Option<u64> = match config.initial_congestion_window_packets {
        Some(packets) => Some(packets * BASE_DATAGRAM_SIZE),
        None => match congestion_controller {
            CongestionControlAlgorithm::NoCc => Some(u64::MAX),
            _ => None,
        },
    };
    let ack_frequency = match config.ack_frequency_config {
        Some(ack_frequency) => {
            // The recommended value is one less than the packet threshold
            let reordering_threshold: u32 = match config.packet_threshold {
                Some(threshold) => threshold - 1,
                None => 2,
            };
            Some(
                AckFrequencySettings {
                    ack_eliciting_threshold: ack_frequency.ack_eliciting_threshold,
                    max_ack_delay_ms: ack_frequency.max_ack_delay_ms,
                    reordering_threshold,
                },
            )
        },
        None => None,
    };
    TransportSettings {
        mtu_discovery,
        max_idle_timeout_ms: config.maximum_idle_timeout_ms,
        maximize_windows,
        packet_threshold: config.packet_threshold,
        congestion_controller,
        initial_window,
        ack_frequency,
        initial_rtt_ms: config.initial_rtt_ms,
    }
}

/// Whether a client with the given configuration offers the Extended Key Update extension.
pub fn offers_extended_key_update(config: &QuinnJsonConfig) -> (r: bool)
    ensures
        r == (config.extended_key_update == Some(true)),
{
    match config.extended_key_update {
        Some(offers) => offers,
        None => false,
    }
}

/// The path of the file to which a node's QUIC endpoint logs.
pub fn qlog_path(node_id: &String) -> (r: String)
    ensures
        r@ == node_id@ + ".qlog"@,
{
    let mut path = node_id.clone();
    path.append(".qlog");
    path
}

/// Each setting follows its own part of the configuration. Where that part is missing, MTU discovery
/// is on, windows keep their size, and congestion is controlled by Cubic; a congestion window is
/// given in datagrams of 1200 bytes, and without congestion control it is unlimited by default.
pub proof fn law_settings_follow_the_configuration(config: QuinnJsonConfig)
    requires
        settings_in_range(config),
    ensures
        ({
            let settings = settings_for(config);
            &&& settings.mtu_discovery <==> config.mtu_discovery != Some(false)
            &&& settings.maximize_windows <==> config.maximize_send_and_receive_windows == Some(true)
            &&& settings.max_idle_timeout_ms == config.maximum_idle_timeout_ms
            &&& settings.packet_threshold == config.packet_threshold
            &&& settings.initial_rtt_ms == config.initial_rtt_ms
            &&& config.congestion_controller is None ==> settings.congestion_controller
                == CongestionControlAlgorithm::Cubic
            &&& config.congestion_controller matches Some(algorithm)
                ==> settings.congestion_controller == algorithm
            &&& config.initial_congestion_window_packets matches Some(packets)
                ==> settings.initial_window matches Some(bytes) && bytes == 1200 * packets
            &&& config.initial_congestion_window_packets is None
                ==> settings.initial_window == if settings.congestion_controller
                == CongestionControlAlgorithm::NoCc {
                Some(0xffff_ffff_ffff_ffffu64)
            } else {
                None
            }
            &&& settings.ack_frequency is Some <==> config.ack_frequency_config is Some
            &&& settings.ack_frequency matches Some(ack) ==> {
                &&& Some(ack.ack_eliciting_threshold) == match config.ack_frequency_config {
                    Some(configured) => Some(configured.ack_eliciting_threshold),
                    None => None,
                }
                &&& Some(ack.max_ack_delay_ms) == match config.ack_frequency_config {
                    Some(configured) => Some(configured.max_ack_delay_ms),
                    None => None,
                }
                // One less than the packet threshold, which is three by default
                &&& ack.reordering_threshold + 1 == match config.packet_threshold {
                    Some(threshold) => threshold as int,
                    None => 3,
                }
            }
        }),
{
}

/// A configuration is in range unless its congestion window, its idle timeout or its packet threshold
/// makes that impossible.
pub proof fn law_ranges_are_respected(config: QuinnJsonConfig)
    ensures
        !settings_in_range(config) <==> {
            ||| config.initial_congestion_window_packets matches Some(packets) && 1200 * packets
                > 0xffff_ffff_ffff_ffff
            ||| config.maximum_idle_timeout_ms matches Some(timeout) && timeout
                > 4_611_686_018_427_387_903
            ||| config.ack_frequency_config is Some && config.packet_threshold == Some(0u32)
        },
{
}


} // verus!
