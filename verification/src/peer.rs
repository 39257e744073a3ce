//! Peer connections: how two peers meet, and what each is told.

pub mod agreement;
pub mod connection;
pub mod initiator;
pub mod responder;
pub mod scanner;
