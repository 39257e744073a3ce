//! How torrents are added: what is checked, what is reserved, and what follows.

use bytes::Bytes;
use vstd::prelude::*;

use crate::buf::{bytes_as_slice, shared_bytes};
use crate::meta::hash::Id20;
use crate::meta::lengths::{pieces_for, Lengths, LengthsError};
use crate::meta::metainfo::info::{files_length, joined_path};
use crate::meta::metainfo::{
    accepted_files_stay_inside, announced_under, parse_torrent, tier_views, torrent_of, FileDetails,
    InfoModel, MetaError, MetaModel, MetaVersion, TorrentInfoHashes, TorrentMeta,
    ValidatedTorrentMetaV1Info,
};
use crate::net::SocketAddr;
use crate::peer::connection::EncryptionPolicy;
use crate::proxy::{copy_route, route_model, P2pRoute, RouteModel};
use crate::session::registry::{
    claim_of, claimed, committed, released, sound, Claim, ManagedTorrent, RegistryModel, RootDir,
};
use crate::session::{Session, SessionModel};
use crate::text::{copy_texts, text_views};
use crate::tracker::list::{expand_trackers, listed};

verus! {

/// How a torrent is added.
#[derive(Debug, Clone)]
pub struct AddTorrentOptions {
    pub output_folder: Option<String>,
    pub trackers: Option<Vec<String>>,
    pub only_files: Option<Vec<usize>>,
    pub list_only: bool,
    pub create_subfolder: bool,
    pub initial_peers: Vec<SocketAddr>,
    pub initial_tracker_peers: Vec<SocketAddr>,
    pub p2p_proxy: Option<P2pRoute>,
    pub p2p_proxy_is_task_override: bool,
}

impl Default for AddTorrentOptions {
    fn default() -> (r: Self)
        ensures
            r.output_folder is None,
            r.trackers is None,
            r.only_files is None,
            !r.list_only,
            r.create_subfolder,
            r.initial_peers@ == Seq::<SocketAddr>::empty(),
            r.initial_tracker_peers@ == Seq::<SocketAddr>::empty(),
            r.p2p_proxy is None,
            !r.p2p_proxy_is_task_override,
    {
        AddTorrentOptions {
            output_folder: None,
            trackers: None,
            only_files: None,
            list_only: false,
            create_subfolder: true,
            initial_peers: Vec::new(),
            initial_tracker_peers: Vec::new(),
            p2p_proxy: None,
            p2p_proxy_is_task_override: false,
        }
    }
}

/// How a torrent that was reserved is started.
#[derive(Debug)]
pub struct TorrentPlan {
    pub id: usize,
    pub lengths: Lengths,
    pub root_dir: RootDir,
    pub only_files: Option<Vec<usize>>,
    pub max_outstanding_per_peer: Option<usize>,
    pub max_peers: Option<usize>,
    pub encryption: EncryptionPolicy,
    pub advertise_v2: bool,
    pub create_subfolder: bool,
    /// True when the torrent has a datagram transport of its own.
    pub own_utp: bool,
    pub dht: Option<u64>,
    pub p2p_proxy: Option<P2pRoute>,
    pub p2p_proxy_is_task_override: bool,
    pub tracker_source_addr: Option<SocketAddr>,
}

/// The description and the files of a torrent that is not added.
#[derive(Debug)]
pub struct ListOnlyResponse {
    pub info: ValidatedTorrentMetaV1Info,
    pub files: Vec<FileDetails>,
}

/// What a caller that adds a torrent is told.
#[derive(Debug)]
pub enum AddTorrentResponse {
    /// The torrent was added under this number.
    Added(usize),
    /// The torrent is managed already, under this number.
    AlreadyManaged(usize),
    /// The files are listed, and nothing is added.
    ListOnly(ListOnlyResponse),
}

/// What adding a torrent comes to.
#[derive(Debug)]
pub enum AddStep {
    /// There is nothing left to do.
    Respond(AddTorrentResponse),
    /// The torrent with this number has the same digest: find out whether its files have to be
    /// verified anew, remove it where they do, and go on.
    Check(usize),
    /// Another torrent with this digest is being added.
    Busy,
    BadLengths(LengthsError),
    /// The digest is reserved: start the torrent as planned.
    Start(TorrentPlan),
}

/// Why a torrent of the session has to be verified anew: it is finished, or some of it was
/// downloaded and its files are gone. `payload_present` is absent where its storage cannot be
/// opened.
pub fn needs_rescan(finished: bool, progress_bytes: u64, payload_present: Option<bool>) -> (r: bool)
    ensures
        r == (finished || (progress_bytes > 0 && payload_present == Some(false))),
{
    if finished {
        return true;
    }
    if progress_bytes == 0 {
        return false;
    }
    match payload_present {
        Some(present) => !present,
        None => false,
    }
}

/// Where a torrent is stored: in a directory of its own, where it has several files and is not to
/// lie flat.
pub open spec fn root_of(
    output_dir: Seq<char>,
    folder: Option<Seq<char>>,
    create_subfolder: bool,
    info: InfoModel,
) -> (Seq<char>, Option<Seq<char>>) {
    (
        match folder {
            Some(f) => f,
            None => output_dir,
        },
        if info.single_file_mode || !create_subfolder {
            None
        } else {
            Some(info.name)
        },
    )
}

/// The mathematical value of a [`RootDir`].
pub open spec fn root_model(r: RootDir) -> (Seq<char>, Option<Seq<char>>) {
    (
        r.base@,
        match r.subfolder {
            Some(s) => Some(s@),
            None => None,
        },
    )
}

/// The mathematical value of a text that may be absent.
pub open spec fn folder_of(opts: AddTorrentOptions) -> Option<Seq<char>> {
    match opts.output_folder {
        Some(f) => Some(f@),
        None => None,
    }
}

/// The route that a torrent takes: its own where the task has one, else the session's.
pub open spec fn route_for(own: Option<RouteModel>, is_override: bool, session: Option<RouteModel>) -> Option<
    RouteModel,
> {
    if is_override || own is Some {
        own
    } else {
        session
    }
}

/// True when `p` is how a torrent is started under the number `id`.
pub open spec fn planned(
    p: TorrentPlan,
    id: usize,
    s: SessionModel,
    meta: MetaModel,
    opts: AddTorrentOptions,
) -> bool {
    &&& p.id == id
    &&& p.lengths.total() == files_length(meta.info.files)
    &&& p.lengths.piece() == meta.info.piece_length
    &&& p.lengths.pieces() == pieces_for(
        files_length(meta.info.files) as u64,
        meta.info.piece_length,
    )
    &&& root_model(p.root_dir) == root_of(
        s.output_dir,
        folder_of(opts),
        opts.create_subfolder,
        meta.info,
    )
    &&& match (p.only_files, opts.only_files) {
        (Some(a), Some(b)) => a@ == b@,
        (None, None) => true,
        _ => false,
    }
    &&& p.max_outstanding_per_peer == s.opts.max_outstanding_requests_per_peer
    &&& p.max_peers == s.opts.max_peers_per_torrent
    &&& p.encryption == s.opts.encryption
    &&& p.advertise_v2 == (meta.meta_version is V2)
    &&& p.create_subfolder == opts.create_subfolder
    &&& p.own_utp == opts.p2p_proxy_is_task_override
    &&& p.dht == (if meta.info.private {
        None
    } else {
        s.dht
    })
    &&& route_model(p.p2p_proxy) == route_for(
        route_model(opts.p2p_proxy),
        opts.p2p_proxy_is_task_override,
        s.p2p_proxy,
    )
    &&& p.p2p_proxy_is_task_override == opts.p2p_proxy_is_task_override
    &&& p.tracker_source_addr == s.tracker_source_addr
}

/// The tiers of trackers with one more for those that a task adds.
pub open spec fn with_extra_tier(
    tiers: Seq<Seq<Seq<char>>>,
    extra: Option<Seq<Seq<char>>>,
) -> Seq<Seq<Seq<char>>> {
    match extra {
        Some(texts) => if listed(texts).len() == 0 {
            tiers
        } else {
            tiers.push(listed(texts))
        },
        None => tiers,
    }
}

/// The texts of a list that may be absent.
pub open spec fn maybe_texts(v: Option<Vec<String>>) -> Option<Seq<Seq<char>>> {
    match v {
        Some(v) => Some(text_views(v@)),
        None => None,
    }
}

/// True when `r` lists the files of a torrent.
pub open spec fn lists_files(r: Seq<FileDetails>, info: InfoModel) -> bool {
    &&& r.len() == info.files.len()
    &&& forall|i: int|
        0 <= i < r.len() ==> (#[trigger] r[i]).filename@ == joined_path(info.files[i].path)
            && r[i].len == info.files[i].length
}

/// Why the lengths of a torrent cannot be used.
pub open spec fn bad_lengths(info: InfoModel) -> Option<LengthsError> {
    let n = files_length(info.files);
    if n == 0 {
        Some(LengthsError::ZeroLength)
    } else if info.piece_length == 0 {
        Some(LengthsError::ZeroPieceLength)
    } else if pieces_for(n as u64, info.piece_length) > u32::MAX {
        Some(LengthsError::TooManyPieces)
    } else {
        None
    }
}

/// True when `step` is what adding a torrent comes to, and `after` is the session then.
pub open spec fn add_step(
    s: SessionModel,
    meta: MetaModel,
    opts: AddTorrentOptions,
    checked: bool,
    step: AddStep,
    after: SessionModel,
) -> bool {
    let h = meta.info_hash;
    if opts.list_only {
        after == s && (step matches AddStep::Respond(AddTorrentResponse::ListOnly(l))
            && l.info@ == meta.info && lists_files(l.files@, meta.info))
    } else {
        match claim_of(s.registry, h) {
            Claim::AlreadyManaged(id) => after == s && step == (if checked {
                AddStep::Respond(AddTorrentResponse::AlreadyManaged(id))
            } else {
                AddStep::Check(id)
            }),
            Claim::Busy => after == s && step is Busy,
            Claim::Reserved(id) => match bad_lengths(meta.info) {
                Some(e) => after == s && step == AddStep::BadLengths(e),
                None => {
                    &&& after == (SessionModel { registry: claimed(s.registry, h), ..s })
                    &&& step matches AddStep::Start(p)
                    &&& planned(p, id, s, meta, opts)
                },
            },
        }
    }
}

/// The metadata that goes with a step: where the torrent is started, with the trackers that the
/// task adds.
pub open spec fn carried(meta: MetaModel, opts: AddTorrentOptions, step: AddStep) -> MetaModel {
    if step is Start {
        MetaModel {
            announce_list: with_extra_tier(meta.announce_list, maybe_texts(opts.trackers)),
            ..meta
        }
    } else {
        meta
    }
}

/// Who a peer was heard of from.
#[derive(Debug, Clone, Copy, PartialEq, Eq, Structural)]
pub enum PeerSource {
    Tracker,
    Manual,
}

/// What follows once a torrent was added.
#[derive(Debug)]
pub struct AddFollowUp {
    pub response: AddTorrentResponse,
    /// The digests that the overlay is to keep to itself.
    pub private_hashes: Vec<Id20>,
    /// The peers that the torrent starts with, in turn.
    pub peers: Vec<(SocketAddr, PeerSource)>,
    /// What is announced on the local network.
    pub announce_locally: Option<Id20>,
}

/// The peers that a torrent starts with: those of its trackers first.
pub open spec fn first_contacts(
    tracker_peers: Seq<SocketAddr>,
    peers: Seq<SocketAddr>,
) -> Seq<(SocketAddr, PeerSource)> {
    Seq::new(tracker_peers.len(), |i: int| (tracker_peers[i], PeerSource::Tracker)) + Seq::new(
        peers.len(),
        |i: int| (peers[i], PeerSource::Manual),
    )
}

fn copy_indices(v: &Option<Vec<usize>>) -> (r: Option<Vec<usize>>)
    ensures
        match (r, *v) {
            (Some(a), Some(b)) => a@ == b@,
            (None, None) => true,
            _ => false,
        },
{
    match v {
        Some(v) => {
            let mut out: Vec<usize> = Vec::new();
            let mut i: usize = 0;
            while i < v.len()
                invariant
                    i <= v.len(),
                    out@ == v@.take(i as int),
                decreases v.len() - i,
            {
                out.push(v[i]);
                assert(out@ =~= v@.take(i + 1));
                i += 1;
            }
            assert(v@.take(i as int) =~= v@);
            Some(out)
        },
        None => None,
    }
}

/// Put the trackers that a task adds into a tier of their own.
pub fn add_extra_trackers(meta: &mut TorrentMeta, extra: &Option<Vec<String>>)
    ensures
        final(meta)@ == (MetaModel {
            announce_list: with_extra_tier(old(meta)@.announce_list, maybe_texts(*extra)),
            ..old(meta)@
        }),
{
    if let Some(texts) = extra {
        let tier = expand_trackers(texts);
        if tier.len() > 0 {
            let ghost before = meta.announce_list@;
            let ghost names = text_views(tier@);
            meta.announce_list.push(tier);
            assert(tier_views(meta.announce_list@) =~= tier_views(before).push(names));
        }
    }
}

impl Session {
    /// Begin to add a torrent. Nothing is reserved unless the torrent can be started; `checked`
    /// says that a torrent with the same digest, where there is one, need not be verified anew.
    /// Where the torrent is started, the trackers that the task adds are among its own.
    pub fn add_from_meta(
        &mut self,
        meta: &mut TorrentMeta,
        opts: &AddTorrentOptions,
        checked: bool,
    ) -> (r: AddStep)
        requires
            !opts.list_only && claim_of(old(self)@.registry, old(meta)@.info_hash) is Reserved ==> {
                &&& files_length(old(meta)@.info.files) <= u64::MAX
                &&& old(self)@.registry.next_id < usize::MAX
            },
        ensures
            add_step(old(self)@, old(meta)@, *opts, checked, r, final(self)@),
            final(meta)@ == carried(old(meta)@, *opts, r),
    {
        if opts.list_only {
            let files = meta.info.iter_file_details();
            let info = meta.info.clone();
            return AddStep::Respond(AddTorrentResponse::ListOnly(ListOnlyResponse { info, files }));
        }
        let h = meta.info_hash;
        match self.registry.lookup(&h) {
            Claim::AlreadyManaged(id) => {
                return if checked {
                    AddStep::Respond(AddTorrentResponse::AlreadyManaged(id))
                } else {
                    AddStep::Check(id)
                };
            },
            Claim::Busy => {
                return AddStep::Busy;
            },
            Claim::Reserved(_) => {},
        }
        let lengths = match Lengths::new(meta.info.total_length(), meta.info.piece_length) {
            Ok(l) => l,
            Err(e) => {
                return AddStep::BadLengths(e);
            },
        };
        let base = match &opts.output_folder {
            Some(f) => f.as_str().to_string(),
            None => self.output_dir.as_str().to_string(),
        };
        let subfolder = if meta.info.single_file_mode || !opts.create_subfolder {
            None
        } else {
            Some(meta.info.name.as_str().to_string())
        };
        let p2p_proxy = if opts.p2p_proxy_is_task_override || opts.p2p_proxy.is_some() {
            copy_route(&opts.p2p_proxy)
        } else {
            copy_route(&self.p2p_proxy)
        };
        let advertise_v2 = match meta.meta_version {
            MetaVersion::V2 => true,
            _ => false,
        };
        let id: usize = match self.registry.claim(h) {
            Claim::Reserved(id) => id,
            _ => {
                assert(false);
                return AddStep::Busy;
            },
        };
        let uses_dht = !meta.info.private;
        add_extra_trackers(meta, &opts.trackers);
        AddStep::Start(
            TorrentPlan {
                id,
                lengths,
                root_dir: RootDir { base, subfolder },
                only_files: copy_indices(&opts.only_files),
                max_outstanding_per_peer: self.opts.max_outstanding_requests_per_peer,
                max_peers: self.opts.max_peers_per_torrent,
                encryption: self.opts.encryption,
                advertise_v2,
                create_subfolder: opts.create_subfolder,
                own_utp: opts.p2p_proxy_is_task_override,
                dht: if uses_dht {
                    self.dht
                } else {
                    None
                },
                p2p_proxy,
                p2p_proxy_is_task_override: opts.p2p_proxy_is_task_override,
                tracker_source_addr: self.tracker_source_addr,
            },
        )
    }

    /// A torrent that was reserved could not be started: give the claim up, so that a retry can
    /// succeed.
    pub fn add_failed(&mut self, info_hash: &Id20, id: usize)
        ensures
            final(self)@ == (SessionModel {
                registry: released(old(self)@.registry, *info_hash, id),
                ..old(self)@
            }),
    {
        self.registry.release(info_hash, id);
    }

    /// A torrent that was reserved has started.
    pub fn add_started(
        &mut self,
        torrent: ManagedTorrent,
        meta: &TorrentMeta,
        opts: &AddTorrentOptions,
    ) -> (r: AddFollowUp)
        ensures
            final(self)@ == (SessionModel {
                registry: committed(old(self)@.registry, torrent),
                ..old(self)@
            }),
            r.response == AddTorrentResponse::Added(torrent.id),
            r.private_hashes@ == (if meta@.info.private && old(self)@.dht is Some {
                announced_under(
                    TorrentInfoHashes {
                        v1: if meta.meta_version is V2 {
                            None
                        } else {
                            Some(meta.info_hash)
                        },
                        v2: meta.info_hash_v2,
                    },
                )
            } else {
                seq![]
            }),
            r.peers@ == first_contacts(opts.initial_tracker_peers@, opts.initial_peers@),
            r.announce_locally == (if meta@.info.private {
                None
            } else {
                Some(meta.info_hash)
            }),
    {
        let response = AddTorrentResponse::Added(torrent.id);
        self.registry.commit(torrent);
        let private_hashes = if meta.info.private && self.dht.is_some() {
            meta.announce_infohashes()
        } else {
            Vec::new()
        };
        let mut peers: Vec<(SocketAddr, PeerSource)> = Vec::new();
        let mut i: usize = 0;
        let ghost all = first_contacts(opts.initial_tracker_peers@, opts.initial_peers@);
        while i < opts.initial_tracker_peers.len()
            invariant
                i <= opts.initial_tracker_peers.len(),
                all == first_contacts(opts.initial_tracker_peers@, opts.initial_peers@),
                peers@ == all.take(i as int),
            decreases opts.initial_tracker_peers.len() - i,
        {
            peers.push((opts.initial_tracker_peers[i], PeerSource::Tracker));
            assert(peers@ =~= all.take(i + 1));
            i += 1;
        }
        let mut j: usize = 0;
        let ghost n = opts.initial_tracker_peers.len() as int;
        while j < opts.initial_peers.len()
            invariant
                j <= opts.initial_peers.len(),
                n == opts.initial_tracker_peers@.len(),
                all == first_contacts(opts.initial_tracker_peers@, opts.initial_peers@),
                peers@ == all.take(n + j),
            decreases opts.initial_peers.len() - j,
        {
            peers.push((opts.initial_peers[j], PeerSource::Manual));
            assert(peers@ =~= all.take(n + j + 1));
            j += 1;
        }
        assert(all.take(n + j) =~= all);
        AddFollowUp {
            response,
            private_hashes,
            peers,
            announce_locally: if meta.info.private {
                None
            } else {
                Some(meta.info_hash)
            },
        }
    }
}

/// The peers that no tracker told of.
pub open spec fn untracked(peers: Seq<SocketAddr>, tracker_peers: Seq<SocketAddr>) -> Seq<SocketAddr>
    decreases peers.len(),
{
    if peers.len() == 0 {
        seq![]
    } else if tracker_peers.contains(peers.last()) {
        untracked(peers.drop_last(), tracker_peers)
    } else {
        untracked(peers.drop_last(), tracker_peers).push(peers.last())
    }
}

fn has_addr(v: &Vec<SocketAddr>, addr: &SocketAddr) -> (r: bool)
    ensures
        r == v@.contains(*addr),
{
    let mut i: usize = 0;
    while i < v.len()
        invariant
            i <= v.len(),
            forall|j: int| 0 <= j < i ==> v@[j] != *addr,
        decreases v.len() - i,
    {
        if v[i] == *addr {
            return true;
        }
        i += 1;
    }
    false
}

/// The peers that a torrent may start with beside those of its trackers: a private torrent uses
/// no others.
pub fn usable_peers(
    peers: &Vec<SocketAddr>,
    tracker_peers: &Vec<SocketAddr>,
    private: bool,
) -> (r: Vec<SocketAddr>)
    ensures
        r@ == (if private {
            seq![]
        } else {
            untracked(peers@, tracker_peers@)
        }),
{
    let mut out: Vec<SocketAddr> = Vec::new();
    if private {
        return out;
    }
    let mut i: usize = 0;
    assert(peers@.take(0) =~= seq![]);
    while i < peers.len()
        invariant
            i <= peers.len(),
            out@ == untracked(peers@.take(i as int), tracker_peers@),
        decreases peers.len() - i,
    {
        assert(peers@.take(i + 1).drop_last() =~= peers@.take(i as int));
        if !has_addr(tracker_peers, &peers[i]) {
            out.push(peers[i]);
        }
        i += 1;
    }
    assert(peers@.take(i as int) =~= peers@);
    out
}

/// Put the peers that were found while a magnet link was resolved to those that a torrent starts
/// with.
pub fn add_resolved_peers(
    opts: &mut AddTorrentOptions,
    peers: &Vec<SocketAddr>,
    tracker_peers: &Vec<SocketAddr>,
    private: bool,
)
    ensures
        *final(opts) == (AddTorrentOptions {
            initial_peers: final(opts).initial_peers,
            initial_tracker_peers: final(opts).initial_tracker_peers,
            ..*old(opts)
        }),
        final(opts).initial_tracker_peers@ == old(opts).initial_tracker_peers@ + tracker_peers@,
        final(opts).initial_peers@ == old(opts).initial_peers@ + (if private {
            seq![]
        } else {
            untracked(peers@, tracker_peers@)
        }),
{
    let mut more = usable_peers(peers, tracker_peers, private);
    opts.initial_tracker_peers.extend_from_slice(tracker_peers.as_slice());
    assert(opts.initial_tracker_peers@ =~= old(opts).initial_tracker_peers@ + tracker_peers@);
    opts.initial_peers.append(&mut more);
}

/// What a torrent is added from.
#[derive(Debug)]
pub enum AddTorrent {
    TorrentFileBytes(Bytes),
    Url(String),
}

/// How a link is resolved: from where, by which route, and for how long.
#[derive(Debug)]
pub struct ResolvePlan {
    pub url: String,
    pub trackers: Vec<String>,
    pub listen_port: u16,
    /// In seconds.
    pub timeout: u64,
    pub encryption: EncryptionPolicy,
    /// True when the resolution has a datagram transport of its own.
    pub own_utp: bool,
    pub p2p_proxy: Option<P2pRoute>,
}

/// How long a link is resolved, in seconds.
pub const RESOLVE_TIMEOUT: u64 = 120;

/// What adding a torrent begins with.
#[derive(Debug)]
pub enum AddTorrentStep {
    /// The torrent file cannot be accepted.
    Invalid(MetaError),
    /// What adding the torrent came to.
    Step(TorrentMeta, AddStep),
    /// Resolve the link, and add what it stands for.
    Resolve(ResolvePlan),
}

/// True when `p` is how a link is resolved.
pub open spec fn resolves(p: ResolvePlan, url: Seq<char>, s: SessionModel, opts: AddTorrentOptions) -> bool {
    &&& p.url@ == url
    &&& text_views(p.trackers@) == (match maybe_texts(opts.trackers) {
        Some(t) => t,
        None => seq![],
    })
    &&& p.listen_port == s.listen_port
    &&& p.timeout == RESOLVE_TIMEOUT
    &&& p.encryption == s.opts.encryption
    &&& p.own_utp == opts.p2p_proxy_is_task_override
    &&& route_model(p.p2p_proxy) == route_for(
        route_model(opts.p2p_proxy),
        opts.p2p_proxy_is_task_override,
        s.p2p_proxy,
    )
}

impl Session {
    /// Begin to add a torrent, from its file or from a link.
    pub fn add_torrent(&mut self, which: AddTorrent, opts: &AddTorrentOptions) -> (r: AddTorrentStep)
        requires
            which is TorrentFileBytes && !opts.list_only ==> old(self)@.registry.next_id
                < usize::MAX,
        ensures
            match which {
                AddTorrent::TorrentFileBytes(bytes) => match torrent_of(shared_bytes(bytes)) {
                    Err(e) => final(self)@ == old(self)@ && r == AddTorrentStep::Invalid(e),
                    Ok(m) => {
                        &&& r matches AddTorrentStep::Step(meta, step)
                        &&& add_step(old(self)@, m, *opts, false, step, final(self)@)
                        &&& meta@ == carried(m, *opts, step)
                    },
                },
                AddTorrent::Url(url) => {
                    &&& final(self)@ == old(self)@
                    &&& r matches AddTorrentStep::Resolve(p)
                    &&& resolves(p, url@, old(self)@, *opts)
                },
            },
    {
        match which {
            AddTorrent::TorrentFileBytes(bytes) => {
                let mut meta = match parse_torrent(bytes_as_slice(&bytes)) {
                    Ok(m) => m,
                    Err(e) => {
                        return AddTorrentStep::Invalid(e);
                    },
                };
                proof {
                    accepted_files_stay_inside(shared_bytes(bytes));
                }
                let step = self.add_from_meta(&mut meta, opts, false);
                AddTorrentStep::Step(meta, step)
            },
            AddTorrent::Url(url) => {
                let p2p_proxy = if opts.p2p_proxy_is_task_override || opts.p2p_proxy.is_some() {
                    copy_route(&opts.p2p_proxy)
                } else {
                    copy_route(&self.p2p_proxy)
                };
                let trackers = match &opts.trackers {
                    Some(v) => copy_texts(v),
                    None => Vec::new(),
                };
                assert(opts.trackers is None ==> text_views(trackers@) =~= seq![]);
                AddTorrentStep::Resolve(
                    ResolvePlan {
                        url,
                        trackers,
                        listen_port: self.listen_port,
                        timeout: RESOLVE_TIMEOUT,
                        encryption: self.opts.encryption,
                        own_utp: opts.p2p_proxy_is_task_override,
                        p2p_proxy,
                    },
                )
            },
        }
    }
}

/// A torrent that could not be started leaves nothing behind but its number.
pub proof fn failed_adds_leave_nothing(
    s: SessionModel,
    meta: MetaModel,
    opts: AddTorrentOptions,
    checked: bool,
    step: AddStep,
    after: SessionModel,
)
    requires
        sound(s.registry),
        0 <= s.registry.next_id < usize::MAX,
        add_step(s, meta, opts, checked, step, after),
        step is Start,
    ensures
        released(after.registry, meta.info_hash, step->Start_0.id) == (RegistryModel {
            next_id: s.registry.next_id + 1,
            ..s.registry
        }),
{
    crate::session::registry::claims_are_exclusive(s.registry, meta.info_hash);
}

/// A torrent that is started is stored in the directory that its options name, else in that of the
/// session, and has a directory of its own there, under its name, exactly where it has several
/// files and its options ask for one. What its removal goes by is what it was stored by.
pub proof fn where_a_torrent_is_stored(
    s: SessionModel,
    meta: MetaModel,
    opts: AddTorrentOptions,
    checked: bool,
    p: TorrentPlan,
    after: SessionModel,
)
    requires
        add_step(s, meta, opts, checked, AddStep::Start(p), after),
    ensures
        opts.output_folder matches Some(f) ==> p.root_dir.base@ == f@,
        opts.output_folder is None ==> p.root_dir.base@ == s.output_dir,
        p.root_dir.subfolder is Some <==> !meta.info.single_file_mode && opts.create_subfolder,
        p.root_dir.subfolder matches Some(d) ==> d@ == meta.info.name,
        !opts.create_subfolder ==> p.root_dir.subfolder is None,
        p.create_subfolder == opts.create_subfolder,
{
}

/// A torrent that is started takes its length from its files, its pieces from its length, its
/// limits and its encryption from the session, and the files that it is about from its options. A
/// private one never reaches the overlay, and a route of the task goes before that of the session.
pub proof fn what_a_start_takes_over(
    s: SessionModel,
    meta: MetaModel,
    opts: AddTorrentOptions,
    checked: bool,
    p: TorrentPlan,
    after: SessionModel,
)
    requires
        add_step(s, meta, opts, checked, AddStep::Start(p), after),
    ensures
        !opts.list_only,
        !s.registry.by_hash.contains_key(meta.info_hash),
        0 <= s.registry.next_id <= usize::MAX ==> p.id == s.registry.next_id,
        after.registry.by_hash == s.registry.by_hash.insert(meta.info_hash, p.id),
        after.registry.torrents == s.registry.torrents,
        p.lengths.total() == files_length(meta.info.files),
        p.lengths.total() > 0,
        p.lengths.piece() == meta.info.piece_length,
        p.lengths.piece() > 0,
        p.lengths.pieces() <= u32::MAX,
        files_length(meta.info.files) <= u64::MAX ==> (p.lengths.pieces() - 1)
            * meta.info.piece_length < files_length(meta.info.files) <= p.lengths.pieces()
            * meta.info.piece_length,
        p.only_files is Some <==> opts.only_files is Some,
        p.only_files matches Some(a) ==> a@ == opts.only_files->0@,
        p.max_outstanding_per_peer == s.opts.max_outstanding_requests_per_peer,
        p.max_peers == s.opts.max_peers_per_torrent,
        p.encryption == s.opts.encryption,
        p.advertise_v2 <==> meta.meta_version is V2,
        meta.info.private ==> p.dht is None,
        !meta.info.private ==> p.dht == s.dht,
        opts.p2p_proxy is Some || opts.p2p_proxy_is_task_override ==> route_model(p.p2p_proxy)
            == route_model(opts.p2p_proxy),
        opts.p2p_proxy is None && !opts.p2p_proxy_is_task_override ==> route_model(p.p2p_proxy)
            == s.p2p_proxy,
        p.own_utp == opts.p2p_proxy_is_task_override,
        p.p2p_proxy_is_task_override == opts.p2p_proxy_is_task_override,
        p.tracker_source_addr == s.tracker_source_addr,
{
    let n = files_length(meta.info.files);
    if n <= u64::MAX {
        let l = meta.info.piece_length as int;
        let k = pieces_for(n as u64, meta.info.piece_length) as int;
        assert((k - 1) * l < n <= k * l) by {
            vstd::arithmetic::div_mod::lemma_fundamental_div_mod(n as int, l);
            vstd::arithmetic::div_mod::lemma_fundamental_div_mod(n as int - 1, l);
            vstd::arithmetic::div_mod::lemma_fundamental_div_mod(n as int + l - 1, l);
            assert((k - 1) * l < n <= k * l) by (nonlinear_arith)
                requires
                    l > 0,
                    n > 0,
                    k == n as int / l + (if n as int % l == 0 {
                        0int
                    } else {
                        1
                    }) || k == (n + l - 1) / l,
                    n as int == l * (n as int / l) + n as int % l,
                    0 <= n as int % l < l,
                    n + l - 1 == l * ((n + l - 1) / l) + (n + l - 1) % l,
                    0 <= (n + l - 1) % l < l,
            ;
        }
    }
}

/// Nothing is added where only the files are asked for, where the digest is taken, or where the
/// lengths cannot be used; the session is then as it was. Where none of these holds, the torrent
/// is started.
pub proof fn when_a_torrent_is_added(
    s: SessionModel,
    meta: MetaModel,
    opts: AddTorrentOptions,
    checked: bool,
    step: AddStep,
    after: SessionModel,
)
    requires
        add_step(s, meta, opts, checked, step, after),
    ensures
        !(step is Start) ==> after == s,
        step is Start <==> !opts.list_only && !s.registry.by_hash.contains_key(meta.info_hash)
            && files_length(meta.info.files) > 0 && meta.info.piece_length > 0 && pieces_for(
            files_length(meta.info.files) as u64,
            meta.info.piece_length,
        ) <= u32::MAX,
        opts.list_only <==> (step matches AddStep::Respond(AddTorrentResponse::ListOnly(l))),
        step matches AddStep::Respond(AddTorrentResponse::ListOnly(l)) ==> {
            &&& l.info@ == meta.info
            &&& l.files@.len() == meta.info.files.len()
            &&& forall|i: int|
                0 <= i < l.files@.len() ==> (#[trigger] l.files@[i]).len
                    == meta.info.files[i].length && l.files@[i].filename@ == joined_path(
                    meta.info.files[i].path,
                )
        },
        !opts.list_only && s.registry.by_hash.contains_key(meta.info_hash) ==> {
            let id = s.registry.by_hash[meta.info_hash];
            &&& !s.registry.torrents.contains_key(id) <==> step is Busy
            &&& s.registry.torrents.contains_key(id) && checked <==> step == AddStep::Respond(
                AddTorrentResponse::AlreadyManaged(id),
            )
            &&& s.registry.torrents.contains_key(id) && !checked <==> step == AddStep::Check(id)
        },
        !opts.list_only && !s.registry.by_hash.contains_key(meta.info_hash) ==> {
            &&& files_length(meta.info.files) == 0 <==> step == AddStep::BadLengths(
                LengthsError::ZeroLength,
            )
            &&& files_length(meta.info.files) > 0 && meta.info.piece_length == 0 <==> step
                == AddStep::BadLengths(LengthsError::ZeroPieceLength)
        },
{
}

/// The trackers that a task adds stand in a tier of their own, behind those of the torrent; with
/// none to add the tiers are as they were. Nothing else of the metadata changes.
pub proof fn a_task_adds_trackers(meta: MetaModel, opts: AddTorrentOptions, step: AddStep)
    ensures
        ({
            let out = carried(meta, opts, step);
            let more: Seq<Seq<char>> = match opts.trackers {
                Some(v) => listed(text_views(v@)),
                None => seq![],
            };
            &&& out == (MetaModel { announce_list: out.announce_list, ..meta })
            &&& forall|i: int|
                0 <= i < meta.announce_list.len() ==> #[trigger] out.announce_list[i]
                    == meta.announce_list[i]
            &&& !(step is Start) || more.len() == 0 ==> out.announce_list.len()
                == meta.announce_list.len()
            &&& step is Start && more.len() > 0 ==> out.announce_list.len()
                == meta.announce_list.len() + 1 && out.announce_list.last() == more
        }),
{
}

/// A torrent starts with the peers of its trackers, and then with the others, each in their order
/// and each told apart.
pub proof fn the_first_contacts(tracker_peers: Seq<SocketAddr>, peers: Seq<SocketAddr>)
    ensures
        first_contacts(tracker_peers, peers).len() == tracker_peers.len() + peers.len(),
        forall|i: int|
            0 <= i < tracker_peers.len() ==> #[trigger] first_contacts(tracker_peers, peers)[i] == (
                tracker_peers[i],
                PeerSource::Tracker,
            ),
        forall|i: int|
            tracker_peers.len() <= i < tracker_peers.len() + peers.len() ==> #[trigger]
            first_contacts(tracker_peers, peers)[i] == (
                peers[i - tracker_peers.len()],
                PeerSource::Manual,
            ),
{
}

/// The peers that no tracker told of are exactly the others, none is left out and none told of
/// more often than it was found; they stay in their order.
pub proof fn other_peers_are_kept(peers: Seq<SocketAddr>, tracker_peers: Seq<SocketAddr>)
    ensures
        forall|a: SocketAddr| #[trigger]
            untracked(peers, tracker_peers).contains(a) <==> peers.contains(a)
                && !tracker_peers.contains(a),
        untracked(peers, tracker_peers).len() <= peers.len(),
        (forall|i: int| 0 <= i < peers.len() ==> !tracker_peers.contains(#[trigger] peers[i]))
            ==> untracked(peers, tracker_peers) == peers,
    decreases peers.len(),
{
    if peers.len() > 0 {
        let front = peers.drop_last();
        let last = peers.last();
        let before = untracked(front, tracker_peers);
        let out = untracked(peers, tracker_peers);
        other_peers_are_kept(front, tracker_peers);
        assert(peers =~= front.push(last));
        assert(peers[peers.len() - 1] == last);
        assert forall|a: SocketAddr| #[trigger] out.contains(a) <==> peers.contains(a)
            && !tracker_peers.contains(a) by {
            lemma_pushed_contact(front, last, a);
            lemma_pushed_contact(before, last, a);
            assert(before.contains(a) <==> front.contains(a) && !tracker_peers.contains(a));
        }
        if forall|i: int| 0 <= i < peers.len() ==> !tracker_peers.contains(#[trigger] peers[i]) {
            assert forall|i: int| 0 <= i < front.len() implies !tracker_peers.contains(
                #[trigger] front[i],
            ) by {
                assert(front[i] == peers[i]);
            }
        }
    } else {
        assert(untracked(peers, tracker_peers) =~= peers);
    }
}

proof fn lemma_pushed_contact(s: Seq<SocketAddr>, last: SocketAddr, a: SocketAddr)
    ensures
        s.push(last).contains(a) <==> s.contains(a) || a == last,
{
    let t = s.push(last);
    assert(t[s.len() as int] == last);
    if s.contains(a) {
        let i = choose|i: int| 0 <= i < s.len() && s[i] == a;
        assert(t[i] == a);
    }
    if t.contains(a) {
        let i = choose|i: int| 0 <= i < t.len() && t[i] == a;
        if i < s.len() {
            assert(s[i] == a);
        }
    }
}

/// A link is resolved for two minutes, from the port of the session and with its encryption, with
/// the trackers of the task, and by the route of the task where it has one.
pub proof fn how_a_link_is_resolved(
    p: ResolvePlan,
    url: Seq<char>,
    s: SessionModel,
    opts: AddTorrentOptions,
)
    requires
        resolves(p, url, s, opts),
    ensures
        p.url@ == url,
        opts.trackers matches Some(t) ==> text_views(p.trackers@) == text_views(t@),
        opts.trackers is None ==> p.trackers@.len() == 0,
        p.listen_port == s.listen_port,
        p.timeout == 120,
        p.encryption == s.opts.encryption,
        p.own_utp == opts.p2p_proxy_is_task_override,
        opts.p2p_proxy is Some || opts.p2p_proxy_is_task_override ==> route_model(p.p2p_proxy)
            == route_model(opts.p2p_proxy),
        opts.p2p_proxy is None && !opts.p2p_proxy_is_task_override ==> route_model(p.p2p_proxy)
            == s.p2p_proxy,
{
    assert(text_views(p.trackers@).len() == p.trackers@.len());
}

} // verus!
