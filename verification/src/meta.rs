//! What a torrent is: its hashes, the lengths of its pieces and its metadata.

pub mod hash;
pub mod hex;
pub mod lengths;
pub mod metainfo;
