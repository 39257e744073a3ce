//! Peer wire formats.

pub mod extended;
pub mod handshake;
pub mod message;
pub mod mse;
pub mod rc4;
