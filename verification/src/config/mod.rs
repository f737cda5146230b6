//! What a simulation is configured with.

pub mod cli;
pub mod network;
pub mod quinn;
pub mod traffic;
