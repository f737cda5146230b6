//! QUIC parameters.

use vstd::prelude::*;

verus! {

#[derive(Clone, Copy, PartialEq, Eq, Structural, Debug)]
pub enum CongestionControlAlgorithm {
    /// Cubic congestion control
    Cubic,
    /// NewReno congestion control
    NewReno,
    /// No congestion control: the initial congestion window is a fixed window
    NoCc,
    /// A variant of NewReno that ignores packet loss and only takes ECN into consideration
    EcnReno,
}

/// The QUIC parameters of a node. What is missing falls back to the defaults of the QUIC
/// implementation.
#[derive(Clone, Copy, PartialEq, Eq, Structural, Debug)]
pub struct QuinnJsonConfig {
    /// The RTT that is used before an RTT sample is available, in milliseconds
    pub initial_rtt_ms: Option<u64>,
    /// The maximum idle timeout of a connection, in milliseconds
    pub maximum_idle_timeout_ms: Option<u64>,
    /// Maximum reordering in packet numbers before a packet is considered lost
    pub packet_threshold: Option<u32>,
    /// Whether MTU discovery is enabled
    pub mtu_discovery: Option<bool>,
    /// Whether the number of unacknowledged in-flight packets is unbounded
    pub maximize_send_and_receive_windows: Option<bool>,
    /// Configures the ACK Frequency extension, which is disabled by default
    pub ack_frequency_config: Option<AckFrequencyConfig>,
    pub congestion_controller: Option<CongestionControlAlgorithm>,
    /// The initial congestion window, in multiples of the base datagram size
    pub initial_congestion_window_packets: Option<u64>,
    /// Whether clients offer the Extended Key Update extension
    pub extended_key_update: Option<bool>,
}

#[derive(Clone, Copy, PartialEq, Eq, Structural, Debug)]
pub struct AckFrequencyConfig {
    /// The number of ACK-eliciting packets that may be received without immediately sending an ACK
    pub ack_eliciting_threshold: Option<u32>,
    /// How long to wait before sending an ACK when the threshold hasn't been reached, in
    /// milliseconds
    pub max_ack_delay_ms: Option<u64>,
}

impl QuinnJsonConfig {
    pub open spec fn unspecified() -> Self {
        QuinnJsonConfig {
            initial_rtt_ms: None,
            maximum_idle_timeout_ms: None,
            packet_threshold: None,
            mtu_discovery: None,
            maximize_send_and_receive_windows: None,
            ack_frequency_config: None,
            congestion_controller: None,
            initial_congestion_window_packets: None,
            extended_key_update: None,
        }
    }
}

impl Default for QuinnJsonConfig {
    fn default() -> (r: Self)
        ensures
            r == Self::unspecified(),
    {
        QuinnJsonConfig {
            initial_rtt_ms: None,
            maximum_idle_timeout_ms: None,
            packet_threshold: None,
            mtu_discovery: None,
            maximize_send_and_receive_windows: None,
            ack_frequency_config: None,
            congestion_controller: None,
            initial_congestion_window_packets: None,
            extended_key_update: None,
        }
    }
}

impl Default for AckFrequencyConfig {
    fn default() -> (r: Self)
        ensures
            r == (AckFrequencyConfig { ack_eliciting_threshold: None, max_ack_delay_ms: None }),
    {
        AckFrequencyConfig { ack_eliciting_threshold: None, max_ack_delay_ms: None }
    }
}

} // verus!
