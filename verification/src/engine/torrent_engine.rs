//! The torrent side of the engine: its session, and the metadata it has resolved.

use vstd::prelude::*;

use crate::buf::bytes_from_vec;
use crate::engine::json::Object;
use crate::engine::magnet_cache::{invalidated, CacheModel, MagnetMetaCache};
use crate::engine::torrent::{
    add_options, asks_for, shows, torrent_stats, LiveReport, ProgressReport, TorrentStats,
};
use crate::meta::hash::Id20;
use crate::meta::metainfo::{torrent_of, TorrentMeta};
use crate::net::SocketAddr;
use crate::proxy::{route_model, P2pRoute};
use crate::session::adding::{
    add_step, carried, AddTorrent, AddTorrentOptions, AddTorrentStep,
};
use crate::session::registry::{
    found, lists_torrents, removed, ManagedTorrent, TorrentIdOrHash,
};
use crate::session::removing::{follows_removal, RemoveFollowUp};
use crate::session::rerouting::{swap_begins, RouteSwap};
use crate::session::start::UpnpStatus;
use crate::session::{Session, SessionModel, TorrentCommand};

pub mod magnets;

verus! {

/// How the torrent session stands.
#[derive(Debug, Clone, Copy)]
pub struct BtHealthSnapshot {
    pub listen_port: u16,
    pub lsd_active: bool,
    pub upnp_enabled: bool,
    pub upnp_mappings: usize,
    pub upnp_attempts: usize,
    pub torrents: usize,
    pub dht_active: bool,
    pub dht_nodes: usize,
}

/// Why the engine refuses.
#[derive(Clone, Copy, Debug, PartialEq, Eq, Structural)]
pub enum EngineFault {
    /// The engine was shut down.
    NotInitialized,
    UnknownTorrent,
    /// The route of peer traffic has changed since.
    RouteChanged,
}

/// The torrent side of the engine. It has no session once it was shut down.
#[derive(Debug)]
pub struct TorrentEngine {
    session: Option<Session>,
    output_dir: String,
    magnet_cache: MagnetMetaCache,
}

/// The mathematical value of a [`TorrentEngine`].
#[verifier::ext_equal]
pub struct EngineModel {
    pub session: Option<SessionModel>,
    pub output_dir: Seq<char>,
    pub magnet_cache: CacheModel,
}

impl View for TorrentEngine {
    type V = EngineModel;

    closed spec fn view(&self) -> EngineModel {
        EngineModel {
            session: match self.session {
                Some(s) => Some(s@),
                None => None,
            },
            output_dir: self.output_dir@,
            magnet_cache: self.magnet_cache@,
        }
    }
}

/// The torrent with a number, or why there is none.
pub open spec fn managed(m: EngineModel, torrent_id: usize) -> Result<ManagedTorrent, EngineFault> {
    match m.session {
        None => Err(EngineFault::NotInitialized),
        Some(s) => match found(s.registry, TorrentIdOrHash::Id(torrent_id)) {
            None => Err(EngineFault::UnknownTorrent),
            Some(t) => Ok(t),
        },
    }
}

impl TorrentEngine {
    pub fn new(output_dir: String, session: Session) -> (r: Self)
        ensures
            r@.session == Some(session@),
            r@.output_dir == output_dir@,
            r@.magnet_cache == (CacheModel {
                completed: Map::empty(),
                in_flight: Map::empty(),
                generation: 0,
            }),
    {
        TorrentEngine { session: Some(session), output_dir, magnet_cache: MagnetMetaCache::new() }
    }

    pub fn list_managed_torrents(&self) -> (r: Vec<(usize, String)>)
        ensures
            match self@.session {
                Some(s) => lists_torrents(r@, s.registry),
                None => r@.len() == 0,
            },
    {
        match &self.session {
            Some(s) => s.list(),
            None => Vec::new(),
        }
    }

    /// How the session stands, from what its services report.
    pub fn health_snapshot(&self, upnp: UpnpStatus, lsd_active: bool, dht_nodes: usize) -> (r: Option<
        BtHealthSnapshot,
    >)
        ensures
            match self@.session {
                Some(s) => {
                    &&& r matches Some(h)
                    &&& h.listen_port == s.listen_port
                    &&& h.lsd_active == lsd_active
                    &&& h.upnp_enabled == upnp.enabled
                    &&& h.upnp_mappings == upnp.mapping_count
                    &&& h.upnp_attempts == upnp.discovery_attempts
                    &&& exists|ids: Seq<usize>|
                        #![trigger ids.len()]
                        ids.no_duplicates() && h.torrents == ids.len() && forall|id: usize| #[trigger]
                            ids.contains(id) <==> s.registry.torrents.contains_key(id)
                    &&& h.dht_active == s.dht is Some
                    &&& h.dht_nodes == dht_nodes
                },
                None => r is None,
            },
    {
        match &self.session {
            Some(s) => Some(
                BtHealthSnapshot {
                    listen_port: s.listen_port(),
                    lsd_active,
                    upnp_enabled: upnp.enabled,
                    upnp_mappings: upnp.mapping_count,
                    upnp_attempts: upnp.discovery_attempts,
                    torrents: s.count(),
                    dht_active: s.dht_active(),
                    dht_nodes,
                },
            ),
            None => None,
        }
    }

    /// Begin to add a torrent from its file, with the peers that are known. There is no step where
    /// the engine was shut down.
    pub fn add_torrent_bytes_with_peers(
        &mut self,
        data: Vec<u8>,
        options: &Object,
        initial_peers: Vec<SocketAddr>,
        initial_tracker_peers: Vec<SocketAddr>,
    ) -> (r: Option<(AddTorrentOptions, AddTorrentStep)>)
        requires
            old(self)@.session matches Some(s) ==> s.registry.next_id < usize::MAX,
        ensures
            final(self)@.output_dir == old(self)@.output_dir,
            final(self)@.magnet_cache == old(self)@.magnet_cache,
            match old(self)@.session {
                None => r is None && final(self)@.session is None,
                Some(before) => {
                    &&& r matches Some((opts, step))
                    &&& final(self)@.session matches Some(after)
                    &&& asks_for(
                        opts,
                        options@,
                        old(self)@.output_dir,
                        initial_peers@,
                        initial_tracker_peers@,
                    )
                    &&& match torrent_of(data@) {
                        Err(e) => after == before && step == AddTorrentStep::Invalid(e),
                        Ok(m) => step matches AddTorrentStep::Step(meta, s) && meta@ == carried(
                            m,
                            opts,
                            s,
                        ) && add_step(before, m, opts, false, s, after),
                    }
                },
            },
    {
        let opts = add_options(
            options,
            self.output_dir.as_str(),
            initial_peers,
            initial_tracker_peers,
        );
        match self.session.take() {
            None => None,
            Some(mut session) => {
                let step = session.add_torrent(
                    AddTorrent::TorrentFileBytes(bytes_from_vec(data)),
                    &opts,
                );
                self.session = Some(session);
                Some((opts, step))
            },
        }
    }

    /// Begin to add a torrent from its file. There is no step where the engine was shut down.
    pub fn add_torrent_bytes(&mut self, data: Vec<u8>, options: &Object) -> (r: Option<
        (AddTorrentOptions, AddTorrentStep),
    >)
        requires
            old(self)@.session matches Some(s) ==> s.registry.next_id < usize::MAX,
        ensures
            final(self)@.output_dir == old(self)@.output_dir,
            final(self)@.magnet_cache == old(self)@.magnet_cache,
            match old(self)@.session {
                None => r is None && final(self)@.session is None,
                Some(before) => {
                    &&& r matches Some((opts, step))
                    &&& final(self)@.session matches Some(after)
                    &&& asks_for(opts, options@, old(self)@.output_dir, seq![], seq![])
                    &&& match torrent_of(data@) {
                        Err(e) => after == before && step == AddTorrentStep::Invalid(e),
                        Ok(m) => step matches AddTorrentStep::Step(meta, s) && meta@ == carried(
                            m,
                            opts,
                            s,
                        ) && add_step(before, m, opts, false, s, after),
                    }
                },
            },
    {
        self.add_torrent_bytes_with_peers(data, options, Vec::new(), Vec::new())
    }

    /// The generation of the route that magnet links are resolved by.
    pub fn magnet_route_generation(&self) -> (r: u64)
        ensures
            r == self@.magnet_cache.generation,
    {
        self.magnet_cache.route_snapshot()
    }

    /// The route has changed: what was resolved by the old one is dropped. Returns the links whose
    /// resolution was under way.
    pub fn invalidate_magnet_resolutions(&mut self) -> (r: Vec<Id20>)
        ensures
            final(self)@ == (EngineModel {
                magnet_cache: invalidated(old(self)@.magnet_cache),
                ..old(self)@
            }),
            forall|k: Id20| #[trigger]
                r@.contains(k) <==> old(self)@.magnet_cache.in_flight.contains_key(k),
    {
        self.magnet_cache.invalidate()
    }

    /// The session, for what its torrents report.
    pub fn session_mut(&mut self) -> (r: Option<&mut Session>)
        ensures
            match r {
                Some(s) => {
                    &&& old(self)@.session == Some(s@)
                    &&& final(self)@ == (EngineModel { session: Some(final(s)@), ..old(self)@ })
                },
                None => old(self)@.session is None && final(self)@ == old(self)@,
            },
    {
        match &mut self.session {
            Some(s) => Some(s),
            None => None,
        }
    }

    /// What is shown of a torrent, from what it reports.
    pub fn get_torrent_stats(
        &self,
        torrent_id: usize,
        progress: ProgressReport,
        live: Option<LiveReport>,
        name: Option<String>,
        root: String,
        meta: Option<&TorrentMeta>,
    ) -> (r: Option<TorrentStats>)
        ensures
            if self@.session matches Some(s) && found(
                s.registry,
                TorrentIdOrHash::Id(torrent_id),
            ) is Some {
                r matches Some(t) && shows(t, progress, live, name, root, meta)
            } else {
                r is None
            },
    {
        match &self.session {
            Some(s) => match s.get(TorrentIdOrHash::Id(torrent_id)) {
                Some(_) => Some(torrent_stats(progress, live, name, root, meta)),
                None => None,
            },
            None => None,
        }
    }

    /// Pause a torrent: which task is told what.
    pub fn pause(&self, torrent_id: usize) -> (r: Result<(usize, TorrentCommand), EngineFault>)
        ensures
            match managed(self@, torrent_id) {
                Ok(t) => r == Ok::<_, EngineFault>((t.id, TorrentCommand::Pause)),
                Err(e) => r == Err::<(usize, TorrentCommand), _>(e),
            },
    {
        match &self.session {
            None => Err(EngineFault::NotInitialized),
            Some(s) => match s.get(TorrentIdOrHash::Id(torrent_id)) {
                None => Err(EngineFault::UnknownTorrent),
                Some(t) => Ok(s.pause(t)),
            },
        }
    }

    /// Let a torrent go on: which task is told what.
    pub fn unpause(&self, torrent_id: usize) -> (r: Result<(usize, TorrentCommand), EngineFault>)
        ensures
            match managed(self@, torrent_id) {
                Ok(t) => r == Ok::<_, EngineFault>((t.id, TorrentCommand::Unpause)),
                Err(e) => r == Err::<(usize, TorrentCommand), _>(e),
            },
    {
        match &self.session {
            None => Err(EngineFault::NotInitialized),
            Some(s) => match s.get(TorrentIdOrHash::Id(torrent_id)) {
                None => Err(EngineFault::UnknownTorrent),
                Some(t) => Ok(s.unpause(t)),
            },
        }
    }

    /// Give a torrent further trackers: which task is told what.
    pub fn add_trackers(&self, torrent_id: usize, urls: Vec<String>) -> (r: Result<
        (usize, TorrentCommand),
        EngineFault,
    >)
        ensures
            match managed(self@, torrent_id) {
                Ok(t) => match found(
                    self@.session->0.registry,
                    TorrentIdOrHash::Hash(t.info_hash),
                ) {
                    Some(u) => r == Ok::<_, EngineFault>(
                        (u.id, TorrentCommand::AddTrackers(urls)),
                    ),
                    None => r == Err::<(usize, TorrentCommand), _>(EngineFault::UnknownTorrent),
                },
                Err(e) => r == Err::<(usize, TorrentCommand), _>(e),
            },
    {
        match &self.session {
            None => Err(EngineFault::NotInitialized),
            Some(s) => match s.get(TorrentIdOrHash::Id(torrent_id)) {
                None => Err(EngineFault::UnknownTorrent),
                Some(t) => match s.add_trackers(t.info_hash, urls) {
                    Some(order) => Ok(order),
                    None => Err(EngineFault::UnknownTorrent),
                },
            },
        }
    }

    /// Forget a torrent that has been stopped, so that it can be added again.
    pub fn remove(&mut self, torrent_id: usize) -> (r: Result<RemoveFollowUp, EngineFault>)
        ensures
            match old(self)@.session {
                None => final(self)@ == old(self)@ && r == Err::<RemoveFollowUp, EngineFault>(
                    EngineFault::NotInitialized,
                ),
                Some(s) => match found(s.registry, TorrentIdOrHash::Id(torrent_id)) {
                    None => final(self)@ == old(self)@ && r == Err::<RemoveFollowUp, EngineFault>(
                        EngineFault::UnknownTorrent,
                    ),
                    Some(t) => {
                        &&& final(self)@ == (EngineModel {
                            session: Some(
                                SessionModel {
                                    registry: removed(s.registry, t.id, t.info_hash),
                                    ..s
                                },
                            ),
                            ..old(self)@
                        })
                        &&& r matches Ok(f)
                        &&& follows_removal(f, t, s.dht)
                    },
                },
            },
    {
        match self.session.take() {
            None => Err(EngineFault::NotInitialized),
            Some(mut session) => {
                let follow = session.delete(TorrentIdOrHash::Id(torrent_id));
                self.session = Some(session);
                match follow {
                    Some(f) => Ok(f),
                    None => Err(EngineFault::UnknownTorrent),
                }
            },
        }
    }

    /// Begin to move every torrent to another route: see [`Session::reconfigure_p2p_proxy`].
    pub fn reconfigure_p2p_proxy(&mut self, proxy: Option<P2pRoute>, dht: Option<u64>) -> (r:
        Result<(RouteSwap, Vec<Id20>), EngineFault>)
        ensures
            match old(self)@.session {
                None => final(self)@ == old(self)@ && r == Err::<
                    (RouteSwap, Vec<Id20>),
                    EngineFault,
                >(EngineFault::NotInitialized),
                Some(s) => {
                    &&& final(self)@ == (EngineModel {
                        session: Some(SessionModel { p2p_proxy: route_model(proxy), dht, ..s }),
                        ..old(self)@
                    })
                    &&& r matches Ok((swap, hashes))
                    &&& swap.wf()
                    &&& swap_begins(s, dht, swap@, hashes@)
                },
            },
    {
        match self.session.take() {
            None => Err(EngineFault::NotInitialized),
            Some(mut session) => {
                let begun = session.reconfigure_p2p_proxy(proxy, dht);
                self.session = Some(session);
                Ok(begun)
            },
        }
    }

    /// Give the session up.
    pub fn shutdown(&mut self) -> (r: Option<Session>)
        ensures
            final(self)@ == (EngineModel { session: None, ..old(self)@ }),
            match old(self)@.session {
                Some(m) => r matches Some(s) && s@ == m,
                None => r is None,
            },
    {
        self.session.take()
    }
}

/// A torrent is managed exactly while there is a session and the session has one with its number;
/// without a session that is what is said, and otherwise that there is no such torrent.
pub proof fn which_torrents_are_managed(m: EngineModel, id: usize)
    ensures
        managed(m, id) is Ok <==> m.session is Some && m.session->0.registry.torrents.contains_key(
            id,
        ),
        managed(m, id) matches Ok(t) ==> t == m.session->0.registry.torrents[id],
        managed(m, id) matches Err(e) ==> (e is NotInitialized <==> m.session is None) && (
        e is UnknownTorrent <==> m.session is Some),
{
}

} // verus!
