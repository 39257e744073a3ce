//! What is told to trackers, and what they answer.

use vstd::prelude::*;

use crate::bencode::Error;
use crate::meta::hash::Id20;
use crate::net::SocketAddr;
use crate::text::{begins_with, text_at};

pub mod exchange;
pub mod list;
pub mod udp;

verus! {

/// What is told to a tracker.
#[derive(Debug, Clone, Copy)]
pub struct AnnounceRequest {
    pub info_hash: Id20,
    pub peer_id: Id20,
    pub key: u32,
    pub port: u16,
    pub uploaded: u64,
    pub downloaded: u64,
    pub left: u64,
    pub event: AnnounceEvent,
    pub num_want: u32,
}

/// Why a tracker is told something.
#[derive(Debug, Clone, Copy, PartialEq, Eq, Structural)]
pub enum AnnounceEvent {
    Regular,
    Started,
    Stopped,
    Completed,
}

impl AnnounceEvent {
    pub fn as_str(self) -> (r: &'static str)
        ensures
            r == (match self {
                AnnounceEvent::Regular => "",
                AnnounceEvent::Started => "started",
                AnnounceEvent::Stopped => "stopped",
                AnnounceEvent::Completed => "completed",
            }),
    {
        match self {
            AnnounceEvent::Regular => "",
            AnnounceEvent::Started => "started",
            AnnounceEvent::Stopped => "stopped",
            AnnounceEvent::Completed => "completed",
        }
    }
}

/// What a tracker answers; the interval is in seconds.
#[derive(Debug, Clone)]
pub struct AnnounceResponse {
    pub interval: u64,
    pub peers: Vec<SocketAddr>,
    pub seeders: Option<u32>,
    pub leechers: Option<u32>,
}

/// What a tracker knows of a torrent.
#[derive(Debug, Clone, Copy, PartialEq, Eq, Structural)]
pub struct ScrapeResponse {
    pub complete: u32,
    pub downloaded: u32,
    pub incomplete: u32,
}

/// Why a tracker gave no answer.
#[derive(Debug)]
pub enum TrackerError {
    Io(String),
    Http(String),
    Bencode(Error),
    Rejected(String),
    UnsupportedScheme(String),
    Timeout,
    Url(String),
}

/// The mathematical value of a [`TrackerError`].
pub enum TrackerFault {
    Io(Seq<char>),
    Http(Seq<char>),
    Bencode(Error),
    Rejected(Seq<char>),
    UnsupportedScheme(Seq<char>),
    Timeout,
    Url(Seq<char>),
}

impl View for TrackerError {
    type V = TrackerFault;

    open spec fn view(&self) -> TrackerFault {
        match *self {
            TrackerError::Io(m) => TrackerFault::Io(m@),
            TrackerError::Http(m) => TrackerFault::Http(m@),
            TrackerError::Bencode(e) => TrackerFault::Bencode(e),
            TrackerError::Rejected(m) => TrackerFault::Rejected(m@),
            TrackerError::UnsupportedScheme(m) => TrackerFault::UnsupportedScheme(m@),
            TrackerError::Timeout => TrackerFault::Timeout,
            TrackerError::Url(m) => TrackerFault::Url(m@),
        }
    }
}

/// How a tracker is reached.
#[derive(Debug, Clone, Copy, PartialEq, Eq, Structural)]
pub enum TrackerKind {
    Http,
    Udp,
}

/// How the tracker at an address is reached, by the scheme of the address.
pub open spec fn kind_of(url: Seq<char>) -> Option<TrackerKind> {
    if text_at(url, 0, "http://"@) || text_at(url, 0, "https://"@) {
        Some(TrackerKind::Http)
    } else if text_at(url, 0, "udp://"@) {
        Some(TrackerKind::Udp)
    } else {
        None
    }
}

/// How the tracker at an address is reached.
pub fn tracker_kind(url: &str) -> (r: Result<TrackerKind, TrackerError>)
    ensures
        match kind_of(url@) {
            Some(k) => r == Ok::<TrackerKind, TrackerError>(k),
            None => r matches Err(e) && e@ == TrackerFault::UnsupportedScheme(url@),
        },
{
    if begins_with(url, "http://") || begins_with(url, "https://") {
        Ok(TrackerKind::Http)
    } else if begins_with(url, "udp://") {
        Ok(TrackerKind::Udp)
    } else {
        Err(TrackerError::UnsupportedScheme(url.to_owned()))
    }
}

} // verus!
