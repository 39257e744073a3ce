//! BitTorrent engine core: codecs, metadata, piece selection, peer handshakes,
//! DHT and tracker protocols and the rules of a download session, each proved
//! against its contract.

pub mod assoc;
pub mod be;
pub mod bencode;
pub mod buf;
pub mod dht;
pub mod engine;
pub mod meta;
pub mod net;
pub mod order;
pub mod peer;
pub mod piece;
pub mod proxy;
pub mod ranked;
pub mod session;
pub mod sums;
pub mod text;
pub mod tracker;
pub mod webseed;
pub mod wire;
pub mod words;
