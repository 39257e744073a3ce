//! The distributed hash table: contacts, datagrams, the peer store and lookups.

pub mod endpoint;
pub mod krpc;
pub mod lookup;
pub mod node;
pub mod packet;
pub mod pending;
pub mod reply;
pub mod routing;
pub mod server;
pub mod shared;
pub mod state_file;
