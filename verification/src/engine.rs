//! The part of the download engine that decides what its torrents are told.

pub mod json;
pub mod magnet_cache;
pub mod options;
pub mod thunder;
pub mod torrent;
pub mod torrent_engine;
