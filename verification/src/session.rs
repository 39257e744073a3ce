//! A session: the torrents that are managed, and how they are started, routed and removed.

use vstd::prelude::*;

use crate::meta::hash::Id20;
use crate::net::SocketAddr;
use crate::proxy::{copy_route, route_model, P2pRoute, RouteModel};
use crate::peer::responder::KnownInfoHash;
use crate::session::registry::{
    found, greeting, lists_torrents, ManagedTorrent, Registry, RegistryModel, TorrentIdOrHash,
};
use crate::session::start::{direct_tracker_source_addr, listen_addr, SessionOptions};

pub mod adding;
pub mod registry;
pub mod removing;
pub mod rerouting;
pub mod start;

verus! {

/// What a session manages, and what it was started with.
#[derive(Debug)]
pub struct Session {
    pub(crate) output_dir: String,
    pub(crate) opts: SessionOptions,
    pub(crate) p2p_proxy: Option<P2pRoute>,
    pub(crate) listen_port: u16,
    pub(crate) tracker_source_addr: Option<SocketAddr>,
    /// The number of the overlay node that is used, where one runs.
    pub(crate) dht: Option<u64>,
    pub(crate) registry: Registry,
}

/// The mathematical value of a [`Session`].
#[verifier::ext_equal]
pub struct SessionModel {
    pub output_dir: Seq<char>,
    pub opts: SessionOptions,
    pub p2p_proxy: Option<RouteModel>,
    pub listen_port: u16,
    pub tracker_source_addr: Option<SocketAddr>,
    pub dht: Option<u64>,
    pub registry: RegistryModel,
}

impl View for Session {
    type V = SessionModel;

    closed spec fn view(&self) -> SessionModel {
        SessionModel {
            output_dir: self.output_dir@,
            opts: self.opts,
            p2p_proxy: route_model(self.p2p_proxy),
            listen_port: self.listen_port,
            tracker_source_addr: self.tracker_source_addr,
            dht: self.dht,
            registry: self.registry@,
        }
    }
}

/// What becomes of a connection that a peer opened.
#[derive(Debug, Clone, Copy, PartialEq, Eq, Structural)]
pub enum InboundRoute {
    /// Hand the connection to the torrent with this number.
    Adopt(usize),
    /// Close the connection.
    Disconnect,
}

/// What the task of a torrent is told.
#[derive(Debug)]
pub enum TorrentCommand {
    Pause,
    Unpause,
    AddTrackers(Vec<String>),
}

impl Session {
    /// A session without torrents, whose listener was bound to `bound`.
    pub fn new(output_dir: String, opts: SessionOptions, bound: SocketAddr) -> (r: Self)
        ensures
            r@.output_dir == output_dir@,
            r@.opts == opts,
            r@.p2p_proxy == route_model(opts.p2p_proxy),
            r@.listen_port == bound.port,
            r@.tracker_source_addr == (match opts.listen {
                Some(l) => match l.listen_addr {
                    Some(configured) => if configured.ip.spec_unspecified() {
                        None
                    } else {
                        Some(SocketAddr { ip: bound.ip, port: 0 })
                    },
                    None => None,
                },
                None => None,
            }),
            r@.dht is None,
            r@.registry == (RegistryModel {
                torrents: Map::empty(),
                by_hash: Map::empty(),
                next_id: 1,
            }),
    {
        let configured = listen_addr(&opts);
        let tracker_source_addr = direct_tracker_source_addr(configured, bound);
        let p2p_proxy = copy_route(&opts.p2p_proxy);
        Session {
            output_dir,
            opts,
            p2p_proxy,
            listen_port: bound.port,
            tracker_source_addr,
            dht: None,
            registry: Registry::new(),
        }
    }

    pub fn listen_port(&self) -> (r: u16)
        ensures
            r == self@.listen_port,
    {
        self.listen_port
    }

    /// True when an overlay node runs for this session.
    pub fn dht_active(&self) -> (r: bool)
        ensures
            r == self@.dht is Some,
    {
        self.dht.is_some()
    }

    /// Note which overlay node is used.
    pub fn set_dht(&mut self, dht: Option<u64>)
        ensures
            final(self)@ == (SessionModel { dht, ..old(self)@ }),
    {
        self.dht = dht;
    }

    pub fn get(&self, which: TorrentIdOrHash) -> (r: Option<&ManagedTorrent>)
        ensures
            match found(self@.registry, which) {
                Some(t) => r == Some(&t),
                None => r is None,
            },
    {
        self.registry.get(which)
    }

    /// Every torrent with its digest in digits.
    pub fn list(&self) -> (r: Vec<(usize, String)>)
        ensures
            lists_torrents(r@, self@.registry),
    {
        self.registry.list()
    }

    /// How many torrents there are.
    pub fn count(&self) -> (r: usize)
        ensures
            exists|ids: Seq<usize>|
                #![trigger ids.len()]
                ids.no_duplicates() && r == ids.len() && forall|id: usize| #[trigger]
                    ids.contains(id) <==> self@.registry.torrents.contains_key(id),
    {
        let ids = self.registry.ids();
        assert(ids@.len() == ids.len());
        ids.len()
    }

    /// What each torrent is greeted with.
    pub fn known_infohashes(&self) -> (r: Vec<KnownInfoHash>)
        ensures
            exists|ids: Seq<usize>|
                #![trigger ids.len()]
                {
                    &&& ids.no_duplicates()
                    &&& forall|id: usize| #[trigger]
                        ids.contains(id) <==> self@.registry.torrents.contains_key(id)
                    &&& r@ == Seq::new(
                        ids.len(),
                        |i: int| greeting(self@.registry.torrents[ids[i]]),
                    )
                },
    {
        self.registry.known_infohashes()
    }

    /// Pause a torrent: which task is told what.
    pub fn pause(&self, torrent: &ManagedTorrent) -> (r: (usize, TorrentCommand))
        ensures
            r.0 == torrent.id,
            r.1 is Pause,
    {
        (torrent.id, TorrentCommand::Pause)
    }

    /// Let a torrent go on: which task is told what.
    pub fn unpause(&self, torrent: &ManagedTorrent) -> (r: (usize, TorrentCommand))
        ensures
            r.0 == torrent.id,
            r.1 is Unpause,
    {
        (torrent.id, TorrentCommand::Unpause)
    }

    /// Give a torrent further trackers: which task is told what. None where there is no such
    /// torrent.
    pub fn add_trackers(&self, info_hash: Id20, urls: Vec<String>) -> (r: Option<
        (usize, TorrentCommand),
    >)
        ensures
            match found(self@.registry, TorrentIdOrHash::Hash(info_hash)) {
                Some(t) => r == Some((t.id, TorrentCommand::AddTrackers(urls))),
                None => r is None,
            },
    {
        match self.registry.get(TorrentIdOrHash::Hash(info_hash)) {
            Some(t) => Some((t.id, TorrentCommand::AddTrackers(urls))),
            None => None,
        }
    }

    /// What becomes of a peer that has named a torrent. A peer that is blocked, or that asks for a
    /// torrent that is not managed, is sent away.
    pub fn route_inbound_peer(&self, info_hash: Id20, blocked: bool) -> (r: InboundRoute)
        ensures
            r == (match found(self@.registry, TorrentIdOrHash::Hash(info_hash)) {
                Some(t) => if blocked {
                    InboundRoute::Disconnect
                } else {
                    InboundRoute::Adopt(t.id)
                },
                None => InboundRoute::Disconnect,
            }),
    {
        if blocked {
            return InboundRoute::Disconnect;
        }
        match self.registry.get(TorrentIdOrHash::Hash(info_hash)) {
            Some(t) => InboundRoute::Adopt(t.id),
            None => InboundRoute::Disconnect,
        }
    }

    /// Which torrent is told of a peer that was found on the local network; none where it is
    /// private.
    pub fn route_local_peer(&self, info_hash: Id20) -> (r: Option<usize>)
        ensures
            r == (match found(self@.registry, TorrentIdOrHash::Hash(info_hash)) {
                Some(t) => match t.metadata {
                    Some(f) => if f.private {
                        None
                    } else {
                        Some(t.id)
                    },
                    None => Some(t.id),
                },
                None => None,
            }),
    {
        match self.registry.get(TorrentIdOrHash::Hash(info_hash)) {
            Some(t) => match &t.metadata {
                Some(f) => if f.private {
                    None
                } else {
                    Some(t.id)
                },
                None => Some(t.id),
            },
            None => None,
        }
    }
}

/// The sum of two counts, which stays at the largest number.
pub open spec fn saturating(a: int, b: int) -> int {
    if a + b > usize::MAX {
        usize::MAX as int
    } else {
        a + b
    }
}

/// What the torrents have answered to a new list of blocked peers, taken together: how many peers
/// were disconnected, and how many were dropped.
pub open spec fn blocked_totals(answers: Seq<Option<(usize, usize)>>) -> (int, int)
    decreases answers.len(),
{
    if answers.len() == 0 {
        (0, 0)
    } else {
        let front = blocked_totals(answers.drop_last());
        match answers.last() {
            Some((a, b)) => (saturating(front.0, a as int), saturating(front.1, b as int)),
            None => front,
        }
    }
}

/// Take together what the torrents have answered to a new list of blocked peers; a torrent that
/// did not answer does not count.
pub fn total_blocked(answers: &Vec<Option<(usize, usize)>>) -> (r: (usize, usize))
    ensures
        (r.0 as int, r.1 as int) == blocked_totals(answers@),
{
    let mut disconnected: usize = 0;
    let mut dropped: usize = 0;
    let mut i: usize = 0;
    assert(answers@.take(0) =~= seq![]);
    while i < answers.len()
        invariant
            i <= answers.len(),
            (disconnected as int, dropped as int) == blocked_totals(answers@.take(i as int)),
        decreases answers.len() - i,
    {
        assert(answers@.take(i + 1).drop_last() =~= answers@.take(i as int));
        if let Some((a, b)) = answers[i] {
            disconnected = disconnected.saturating_add(a);
            dropped = dropped.saturating_add(b);
        }
        i += 1;
    }
    assert(answers@.take(i as int) =~= answers@);
    (disconnected, dropped)
}

/// What the torrents answered is added up, torrent by torrent; a torrent that has not answered
/// counts nothing, and a sum stays at the largest number.
pub proof fn how_answers_are_added_up(answers: Seq<Option<(usize, usize)>>)
    ensures
        0 <= blocked_totals(answers).0 <= usize::MAX,
        0 <= blocked_totals(answers).1 <= usize::MAX,
        answers.len() == 0 ==> blocked_totals(answers) == (0int, 0int),
        answers.len() > 0 && answers.last() is None ==> blocked_totals(answers) == blocked_totals(
            answers.drop_last(),
        ),
        answers.len() > 0 ==> (answers.last() matches Some(a) ==> {
            let before = blocked_totals(answers.drop_last());
            let after = blocked_totals(answers);
            &&& before.0 + a.0 <= usize::MAX ==> after.0 == before.0 + a.0
            &&& before.1 + a.1 <= usize::MAX ==> after.1 == before.1 + a.1
            &&& before.0 + a.0 > usize::MAX ==> after.0 == usize::MAX
            &&& before.1 + a.1 > usize::MAX ==> after.1 == usize::MAX
        }),
    decreases answers.len(),
{
    if answers.len() > 0 {
        how_answers_are_added_up(answers.drop_last());
    }
}

} // verus!
