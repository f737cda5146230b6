//! A simulated, in-memory UDP/IP network and the decisions of the workbench that drives QUIC and
//! UDP traffic through it.
//!
//! Time is a number of nanoseconds on a clock that the caller reads. The library never reads a
//! clock, sleeps or spawns: each function takes the current time, changes the state it is given and
//! says what has to happen next.

pub mod capture;
pub mod checksum;
pub mod config;
pub mod course;
pub mod hosts;
pub mod network;
pub mod pcap_exporter;
pub mod quic;
pub mod quinn_interop;
pub mod random;
pub mod report;
pub mod search;
pub mod simulation;
pub mod sorting;
pub mod text;
pub mod time;
pub mod tracing;
pub mod transmit;
pub mod udp;
pub mod util;
