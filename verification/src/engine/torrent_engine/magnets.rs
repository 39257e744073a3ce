//! How magnet links are resolved, listed and added: each link once, and never by a route that has
//! been left.

use vstd::prelude::*;

use crate::assoc::under;
use crate::buf::bytes_from_vec;
use crate::engine::json::{Json, Object};
use crate::engine::magnet_cache::{
    after_finish, after_lookup, unexpired, CacheLookup, ResolvedMagnetMeta,
    MAGNET_META_CACHE_TTL_MS, MAGNET_ROUTE_CHANGED,
};
use crate::engine::options::{OptionMap, TASK_P2P_PROXY_OVERRIDE_KEY};
use crate::engine::torrent::{
    add_resolved, asks_for, extract_file_details, magnet_plan, numbers_files, plain_flag,
    plans_link, MagnetPlan, TorrentFileInfo,
};
use crate::engine::torrent_engine::{EngineFault, EngineModel, TorrentEngine};
use crate::meta::hash::Id20;
use crate::meta::metainfo::{parse_torrent, torrent_of, FileDetails, MetaError};
use crate::session::adding::{
    add_step, carried, untracked, AddTorrent, AddTorrentOptions, AddTorrentStep,
};
use crate::session::registry::{found, RegistryModel, TorrentIdOrHash};

verus! {

/// What comes next for a magnet link, each with the generation of the route it belongs to.
#[derive(Debug)]
pub enum MagnetStep {
    /// The metadata is kept.
    Resolved(u64, ResolvedMagnetMeta),
    /// A resolution of the link with this digest is under way: wait for its result.
    Wait(u64, Id20),
    /// Resolve the link; the listener's port is announced to trackers.
    Resolve(u64, MagnetPlan, u16),
}

/// What comes next where the files of a link are asked for.
#[derive(Debug)]
pub enum ListStep {
    /// The torrent is managed, and its files are known.
    Files(Vec<TorrentFileInfo>),
    Step(MagnetStep),
}

/// Why a resolved link is not added.
#[derive(Debug)]
pub enum MagnetFault {
    Engine(EngineFault),
    /// What was resolved is no torrent.
    Invalid(MetaError),
}

/// The digest that a link is kept under; none where it is not shared.
pub open spec fn shared_key(options: OptionMap, info_hash: Option<Id20>) -> Option<Id20> {
    if plain_flag(options, TASK_P2P_PROXY_OVERRIDE_KEY@, false) {
        None
    } else {
        info_hash
    }
}

/// True when `r` comes next for a link that an engine with a session is asked for, and `after` is
/// the engine from there on.
pub open spec fn link_step(
    m: EngineModel,
    listen_port: u16,
    options: OptionMap,
    info_hash: Option<Id20>,
    now: u64,
    r: MagnetStep,
    after: EngineModel,
) -> bool {
    let generation = m.magnet_cache.generation;
    match shared_key(options, info_hash) {
        None => {
            &&& after == m
            &&& r matches MagnetStep::Resolve(g, plan, port)
            &&& g == generation
            &&& port == listen_port
            &&& plans_link(plan, options, info_hash)
        },
        Some(key) => {
            &&& after == (EngineModel {
                magnet_cache: after_lookup(m.magnet_cache, key, now),
                ..m
            })
            &&& match under(unexpired(m.magnet_cache.completed, now), key) {
                Some((parts, _)) => {
                    &&& r matches MagnetStep::Resolved(g, meta)
                    &&& g == generation
                    &&& meta@ == parts
                },
                None => if m.magnet_cache.in_flight.contains_key(key) {
                    r == MagnetStep::Wait(generation, key)
                } else {
                    &&& r matches MagnetStep::Resolve(g, plan, port)
                    &&& g == generation
                    &&& port == listen_port
                    &&& plans_link(plan, options, info_hash)
                },
            }
        },
    }
}

/// True when `r` are the files that a session knows, numbered from zero.
pub open spec fn numbers_details(r: Seq<TorrentFileInfo>, files: Seq<FileDetails>) -> bool {
    &&& r.len() == files.len()
    &&& forall|i: int|
        0 <= i < r.len() ==> (#[trigger] r[i]).index == i && r[i].path@ == files[i].filename@
            && r[i].length == files[i].len
}

/// The files of the torrent with a digest, where it is managed and has metadata.
pub open spec fn known_files(m: RegistryModel, info_hash: Option<Id20>) -> Option<Seq<FileDetails>> {
    match info_hash {
        Some(h) => match found(m, TorrentIdOrHash::Hash(h)) {
            Some(t) => match t.metadata {
                Some(facts) => Some(facts.files@),
                None => None,
            },
            None => None,
        },
        None => None,
    }
}

fn numbered(files: &Vec<FileDetails>) -> (r: Vec<TorrentFileInfo>)
    ensures
        numbers_details(r@, files@),
{
    let mut out: Vec<TorrentFileInfo> = Vec::new();
    let mut i: usize = 0;
    while i < files.len()
        invariant
            i <= files.len(),
            out.len() == i,
            forall|j: int|
                0 <= j < i ==> (#[trigger] out@[j]).index == j && out@[j].path@
                    == files@[j].filename@ && out@[j].length == files@[j].len,
        decreases files.len() - i,
    {
        let f = &files[i];
        out.push(TorrentFileInfo { index: i, path: f.filename.as_str().to_string(), length: f.len });
        i += 1;
    }
    out
}

impl TorrentEngine {
    fn next_for_link(&mut self, options: &Object, info_hash: Option<Id20>, now: u64) -> (r: Result<
        MagnetStep,
        EngineFault,
    >)
        ensures
            match old(self)@.session {
                None => final(self)@ == old(self)@ && r == Err::<MagnetStep, EngineFault>(
                    EngineFault::NotInitialized,
                ),
                Some(s) => r matches Ok(step) && link_step(
                    old(self)@,
                    s.listen_port,
                    options@,
                    info_hash,
                    now,
                    step,
                    final(self)@,
                ),
            },
    {
        let port: u16 = match &self.session {
            Some(s) => s.listen_port(),
            None => {
                return Err(EngineFault::NotInitialized);
            },
        };
        let plan = magnet_plan(options, info_hash);
        let generation: u64 = self.magnet_cache.route_snapshot();
        match plan.cached {
            None => Ok(MagnetStep::Resolve(generation, plan, port)),
            Some(key) => match self.magnet_cache.get_or_resolve(key, now) {
                CacheLookup::Hit(meta) => Ok(MagnetStep::Resolved(generation, meta)),
                CacheLookup::Join => Ok(MagnetStep::Wait(generation, key)),
                CacheLookup::Start(g) => Ok(MagnetStep::Resolve(g, plan, port)),
            },
        }
    }

    /// Begin to add the torrent of a magnet link. `info_hash` is the digest that the link names.
    pub fn resolve_and_add_magnet(
        &mut self,
        options: &Object,
        info_hash: Option<Id20>,
        now: u64,
    ) -> (r: Result<MagnetStep, EngineFault>)
        ensures
            match old(self)@.session {
                None => final(self)@ == old(self)@ && r == Err::<MagnetStep, EngineFault>(
                    EngineFault::NotInitialized,
                ),
                Some(s) => r matches Ok(step) && link_step(
                    old(self)@,
                    s.listen_port,
                    options@,
                    info_hash,
                    now,
                    step,
                    final(self)@,
                ),
            },
    {
        self.next_for_link(options, info_hash, now)
    }

    /// Begin to add the torrent of a magnet link, but only under the generation of the route that
    /// the caller knows.
    pub fn resolve_and_add_magnet_at_generation(
        &mut self,
        options: &Object,
        info_hash: Option<Id20>,
        now: u64,
        expected_generation: u64,
    ) -> (r: Result<MagnetStep, EngineFault>)
        ensures
            if expected_generation != old(self)@.magnet_cache.generation {
                final(self)@ == old(self)@ && r == Err::<MagnetStep, EngineFault>(
                    EngineFault::RouteChanged,
                )
            } else {
                match old(self)@.session {
                    None => final(self)@ == old(self)@ && r == Err::<MagnetStep, EngineFault>(
                        EngineFault::NotInitialized,
                    ),
                    Some(s) => r matches Ok(step) && link_step(
                        old(self)@,
                        s.listen_port,
                        options@,
                        info_hash,
                        now,
                        step,
                        final(self)@,
                    ),
                }
            },
    {
        if !self.magnet_cache.is_current(expected_generation) {
            return Err(EngineFault::RouteChanged);
        }
        self.next_for_link(options, info_hash, now)
    }

    /// Begin to list the files of a magnet link: those of a torrent that is managed are known.
    pub fn resolve_magnet(&mut self, options: &Object, info_hash: Option<Id20>, now: u64) -> (r:
        Result<ListStep, EngineFault>)
        ensures
            match old(self)@.session {
                None => final(self)@ == old(self)@ && r == Err::<ListStep, EngineFault>(
                    EngineFault::NotInitialized,
                ),
                Some(s) => match known_files(s.registry, info_hash) {
                    Some(known) => {
                        &&& final(self)@ == old(self)@
                        &&& r matches Ok(ListStep::Files(files))
                        &&& numbers_details(files@, known)
                    },
                    None => r matches Ok(ListStep::Step(step)) && link_step(
                        old(self)@,
                        s.listen_port,
                        options@,
                        info_hash,
                        now,
                        step,
                        final(self)@,
                    ),
                },
            },
    {
        if let (Some(s), Some(h)) = (&self.session, info_hash) {
            if let Some(t) = s.get(TorrentIdOrHash::Hash(h)) {
                if let Some(facts) = &t.metadata {
                    return Ok(ListStep::Files(numbered(&facts.files)));
                }
            }
        }
        match self.next_for_link(options, info_hash, now) {
            Ok(step) => Ok(ListStep::Step(step)),
            Err(e) => Err(e),
        }
    }

    /// A resolution has ended. `key` is the digest that its result is kept under. Returns what the
    /// caller, and those who wait for it, are told.
    pub fn magnet_resolved(
        &mut self,
        generation: u64,
        key: Option<Id20>,
        result: Result<ResolvedMagnetMeta, String>,
        now: u64,
    ) -> (r: Result<ResolvedMagnetMeta, String>)
        ensures
            final(self)@ == (match key {
                Some(k) => EngineModel {
                    magnet_cache: after_finish(
                        old(self)@.magnet_cache,
                        k,
                        generation,
                        match result {
                            Ok(m) => Some(m@),
                            Err(_) => None,
                        },
                        now + MAGNET_META_CACHE_TTL_MS,
                    ),
                    ..old(self)@
                },
                None => old(self)@,
            }),
            generation != old(self)@.magnet_cache.generation ==> (r matches Err(e) && e@
                == MAGNET_ROUTE_CHANGED@),
            generation == old(self)@.magnet_cache.generation ==> match result {
                Ok(m) => r matches Ok(x) && x@ == m@,
                Err(e) => r matches Err(x) && x@ == e@,
            },
    {
        match key {
            Some(k) => self.magnet_cache.finish(k, generation, result, now),
            None => if self.magnet_cache.is_current(generation) {
                result
            } else {
                Err(MAGNET_ROUTE_CHANGED.to_string())
            },
        }
    }

    /// The files of a link that was resolved under a generation of the route.
    pub fn resolved_files(&self, generation: u64, resolved: &ResolvedMagnetMeta) -> (r: Result<
        Vec<TorrentFileInfo>,
        MagnetFault,
    >)
        ensures
            if generation != self@.magnet_cache.generation {
                r == Err::<Vec<TorrentFileInfo>, MagnetFault>(
                    MagnetFault::Engine(EngineFault::RouteChanged),
                )
            } else {
                match torrent_of(resolved@.bytes) {
                    Err(e) => r == Err::<Vec<TorrentFileInfo>, MagnetFault>(
                        MagnetFault::Invalid(e),
                    ),
                    Ok(meta) => r matches Ok(files) && numbers_files(files@, meta.info),
                }
            },
    {
        if !self.magnet_cache.is_current(generation) {
            return Err(MagnetFault::Engine(EngineFault::RouteChanged));
        }
        match parse_torrent(resolved.bytes.as_slice()) {
            Ok(meta) => Ok(extract_file_details(&meta.info)),
            Err(e) => Err(MagnetFault::Invalid(e)),
        }
    }

    /// Begin to add the torrent of a link that was resolved under a generation of the route: with
    /// the peers that were found on the way, but for those of other sources where the torrent is
    /// private. A link of an older generation is not added.
    pub fn add_resolved_magnet(
        &mut self,
        generation: u64,
        resolved: &ResolvedMagnetMeta,
        options: &Object,
    ) -> (r: Result<(AddTorrentOptions, AddTorrentStep), MagnetFault>)
        requires
            old(self)@.session matches Some(s) ==> s.registry.next_id < usize::MAX,
        ensures
            final(self)@.output_dir == old(self)@.output_dir,
            final(self)@.magnet_cache == old(self)@.magnet_cache,
            if generation != old(self)@.magnet_cache.generation {
                final(self)@ == old(self)@ && r == Err::<
                    (AddTorrentOptions, AddTorrentStep),
                    MagnetFault,
                >(MagnetFault::Engine(EngineFault::RouteChanged))
            } else {
                match torrent_of(resolved@.bytes) {
                    Err(e) => final(self)@ == old(self)@ && r == Err::<
                        (AddTorrentOptions, AddTorrentStep),
                        MagnetFault,
                    >(MagnetFault::Invalid(e)),
                    Ok(meta) => match old(self)@.session {
                        None => final(self)@ == old(self)@ && r == Err::<
                            (AddTorrentOptions, AddTorrentStep),
                            MagnetFault,
                        >(MagnetFault::Engine(EngineFault::NotInitialized)),
                        Some(before) => {
                            &&& r matches Ok((opts, AddTorrentStep::Step(carries, step)))
                            &&& carries@ == carried(meta, opts, step)
                            &&& final(self)@.session matches Some(after)
                            &&& asks_for(
                                opts,
                                options@,
                                old(self)@.output_dir,
                                if meta.info.private {
                                    seq![]
                                } else {
                                    untracked(resolved@.peers, resolved@.tracker_peers)
                                },
                                resolved@.tracker_peers,
                            )
                            &&& add_step(before, meta, opts, false, step, after)
                        },
                    },
                }
            },
    {
        if !self.magnet_cache.is_current(generation) {
            return Err(MagnetFault::Engine(EngineFault::RouteChanged));
        }
        let opts = match add_resolved(options, self.output_dir.as_str(), resolved) {
            Ok(opts) => opts,
            Err(e) => {
                return Err(MagnetFault::Invalid(e));
            },
        };
        let bytes = crate::bencode::copy_range(resolved.bytes.as_slice(), 0, resolved.bytes.len());
        assert(bytes@ =~= resolved@.bytes);
        match self.session.take() {
            None => Err(MagnetFault::Engine(EngineFault::NotInitialized)),
            Some(mut session) => {
                let step = session.add_torrent(
                    AddTorrent::TorrentFileBytes(bytes_from_vec(bytes)),
                    &opts,
                );
                self.session = Some(session);
                Ok((opts, step))
            },
        }
    }
}

/// What comes next for a link: one that is shared and was resolved before is there at once, one
/// that is being resolved is waited for, and any other is resolved; a link that is not shared is
/// resolved always, and leaves nothing behind.
pub proof fn what_comes_next_for_a_link(
    m: EngineModel,
    listen_port: u16,
    options: OptionMap,
    info_hash: Option<Id20>,
    now: u64,
    r: MagnetStep,
    after: EngineModel,
)
    requires
        link_step(m, listen_port, options, info_hash, now, r, after),
    ensures
        ({
            let own = options.contains_key("risuko-task-p2p-proxy-override"@)
                && options["risuko-task-p2p-proxy-override"@] == Json::Bool(true);
            let shared = !own && info_hash is Some;
            let kept = shared && m.magnet_cache.completed.contains_key(info_hash->0)
                && m.magnet_cache.completed[info_hash->0].1 > now;
            let waits = shared && !kept && m.magnet_cache.in_flight.contains_key(info_hash->0);
            &&& r is Resolved <==> kept
            &&& r is Wait <==> waits
            &&& r is Resolve <==> !kept && !waits
            &&& r matches MagnetStep::Resolved(g, meta) ==> meta@ == m.magnet_cache.completed[
                info_hash->0
            ].0
            &&& r matches MagnetStep::Wait(g, key) ==> info_hash == Some(key)
            &&& r matches MagnetStep::Resolve(g, plan, port) ==> port == listen_port && plans_link(
                plan,
                options,
                info_hash,
            )
            &&& !shared ==> after == m
            &&& after.session == m.session && after.output_dir == m.output_dir
        }),
{
}

} // verus!
