//! Traffic without QUIC.

pub mod one_direction;
pub mod ping;
