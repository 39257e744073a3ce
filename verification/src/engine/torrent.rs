//! What the engine tells a torrent session: the options of a task in the session's terms, and what
//! the session says of its torrents in the engine's.

use vstd::prelude::*;

use crate::engine::json::{text_of_json, value_under, Json, Object};
use crate::engine::magnet_cache::ResolvedMagnetMeta;
use crate::engine::options::{text_under, EngineOptions, OptionMap, TASK_P2P_PROXY_OVERRIDE_KEY};
use crate::meta::hash::{Id20, Id32};
use crate::meta::hex::hex_text;
use crate::meta::metainfo::info::joined_path;
use crate::meta::metainfo::{
    maybe_text, parse_torrent, tier_views, torrent_of, InfoModel, MetaError, MetaModel,
    MetaVersion, TorrentMeta, ValidatedTorrentMetaV1Info,
};
use crate::net::literal::{parts_of, split_parts};
use crate::net::{IpAddr, Ipv4Addr, SocketAddr};
use crate::peer::connection::EncryptionPolicy;
use crate::proxy::{copy_route, is_empty, p2p_route, route_model, route_of, P2pRoute, RouteModel};
use crate::session::adding::{
    maybe_texts, untracked, usable_peers, AddTorrentOptions, AddTorrentResponse,
};
use crate::session::registry::{found, ManagedTorrent, TorrentIdOrHash};
use crate::session::Session;
use crate::session::start::{ListenerOptions, SessionOptions};
use crate::text::{
    chars_views, copy_texts, number_in, parse_number, same_text, text_views, to_chars, trim_chars,
    trimmed,
};
use crate::tracker::list::{add_listed, listed_parts, with_names};

verus! {

/// The settings of the torrent session. What is not set is as the session has it.
#[derive(Debug, Clone, Default)]
pub struct BtTuning {
    pub max_outstanding_per_peer: Option<usize>,
    pub max_peers_per_torrent: Option<usize>,
    pub upload_rate_limit: Option<u64>,
    pub enable_upnp: Option<bool>,
    /// In seconds.
    pub upnp_lease: Option<u64>,
    pub encryption_policy: Option<String>,
    pub listen_ipv6: Option<bool>,
    pub enable_lsd: Option<bool>,
    pub p2p_proxy: Option<P2pRoute>,
}

/// The encryption policy that a setting names; encryption is preferred where it names none.
pub open spec fn policy_named(s: Option<Seq<char>>) -> EncryptionPolicy {
    if s == Some("plaintext"@) {
        EncryptionPolicy::PlaintextOnly
    } else if s == Some("require"@) {
        EncryptionPolicy::RequireEncryption
    } else {
        EncryptionPolicy::Prefer
    }
}

pub fn encryption_policy_from_str(s: Option<&str>) -> (r: EncryptionPolicy)
    ensures
        r == policy_named(
            match s {
                Some(t) => Some(t@),
                None => None,
            },
        ),
{
    match s {
        Some(t) => if same_text(t, "plaintext") {
            EncryptionPolicy::PlaintextOnly
        } else if same_text(t, "require") {
            EncryptionPolicy::RequireEncryption
        } else {
            EncryptionPolicy::Prefer
        },
        None => EncryptionPolicy::Prefer,
    }
}

/// The options of the session that the settings ask for.
pub fn session_options(tuning: &BtTuning) -> (r: SessionOptions)
    ensures
        r.listen matches Some(l) && l == (ListenerOptions {
            listen_addr: Some(
                SocketAddr { ip: IpAddr::V4(Ipv4Addr([0u8, 0u8, 0u8, 0u8])), port: 0 },
            ),
            enable_upnp_port_forwarding: tuning.enable_upnp != Some(false),
            upnp_lease: tuning.upnp_lease,
            listen_ipv6: tuning.listen_ipv6 == Some(true),
        }),
        r.max_outstanding_requests_per_peer == tuning.max_outstanding_per_peer,
        r.max_peers_per_torrent == tuning.max_peers_per_torrent,
        r.upload_rate_limit == tuning.upload_rate_limit,
        r.disable_local_service_discovery == (tuning.enable_lsd == Some(false)),
        !r.disable_dht,
        r.encryption == policy_named(maybe_text(tuning.encryption_policy)),
        route_model(r.p2p_proxy) == route_model(tuning.p2p_proxy),
{
    let encryption = match &tuning.encryption_policy {
        Some(s) => encryption_policy_from_str(Some(s.as_str())),
        None => encryption_policy_from_str(None),
    };
    SessionOptions {
        disable_dht: false,
        listen: Some(
            ListenerOptions {
                listen_addr: Some(SocketAddr::v4([0u8, 0u8, 0u8, 0u8], 0)),
                enable_upnp_port_forwarding: match tuning.enable_upnp {
                    Some(b) => b,
                    None => true,
                },
                upnp_lease: tuning.upnp_lease,
                listen_ipv6: match tuning.listen_ipv6 {
                    Some(b) => b,
                    None => false,
                },
            },
        ),
        max_outstanding_requests_per_peer: tuning.max_outstanding_per_peer,
        max_peers_per_torrent: tuning.max_peers_per_torrent,
        upload_rate_limit: tuning.upload_rate_limit,
        disable_local_service_discovery: match tuning.enable_lsd {
            Some(b) => !b,
            None => false,
        },
        encryption,
        p2p_proxy: copy_route(&tuning.p2p_proxy),
    }
}

/// The files that a list of numbers picks; the first file has the number one.
pub open spec fn picked(parts: Seq<Seq<char>>) -> Seq<usize>
    decreases parts.len(),
{
    if parts.len() == 0 {
        seq![]
    } else {
        let front = picked(parts.drop_last());
        match number_in(trimmed(parts.last()), usize::MAX as nat) {
            Some(n) => if n >= 1 {
                front.push((n - 1) as usize)
            } else {
                front
            },
            None => front,
        }
    }
}

/// The files that a task picks; all where it picks none.
pub open spec fn selection(options: OptionMap) -> Option<Seq<usize>> {
    let files = picked(parts_of(trimmed(text_under(options, "select-file"@)), ','));
    if files.len() == 0 {
        None
    } else {
        Some(files)
    }
}

fn text_setting(options: &Object, key: &str) -> (r: String)
    ensures
        r@ == text_under(options@, key@),
{
    match options.get(key) {
        Some(v) => match v.as_str() {
            Some(s) => s.to_string(),
            None => String::new(),
        },
        None => String::new(),
    }
}

/// The flag under a name, where it is one.
pub open spec fn plain_flag(options: OptionMap, key: Seq<char>, other: bool) -> bool {
    match value_under(options, key) {
        Some(Json::Bool(b)) => b,
        _ => other,
    }
}

fn flag_setting(options: &Object, key: &str, other: bool) -> (r: bool)
    ensures
        r == plain_flag(options@, key@, other),
{
    match options.get(key) {
        Some(v) => match v.as_bool() {
            Some(b) => b,
            None => other,
        },
        None => other,
    }
}

pub fn parse_select_files(options: &Object) -> (r: Option<Vec<usize>>)
    ensures
        match selection(options@) {
            Some(files) => r matches Some(v) && v@ == files,
            None => r is None,
        },
{
    let raw = text_setting(options, "select-file");
    let c = to_chars(raw.as_str());
    let t = trim_chars(c.as_slice());
    let parts = split_parts(t.as_slice(), ',');
    let ghost all = chars_views(parts@);
    let mut out: Vec<usize> = Vec::new();
    let mut i: usize = 0;
    assert(all.take(0) =~= seq![]);
    while i < parts.len()
        invariant
            i <= parts.len(),
            all == chars_views(parts@),
            out@ == picked(all.take(i as int)),
        decreases parts.len() - i,
    {
        assert(all.take(i + 1).drop_last() =~= all.take(i as int));
        let part = trim_chars(parts[i].as_slice());
        if let Some(n) = parse_number(part.as_slice(), usize::MAX as u64) {
            if n >= 1 {
                out.push((n - 1) as usize);
            }
        }
        i += 1;
    }
    assert(all.take(i as int) =~= all);
    if out.len() == 0 {
        None
    } else {
        Some(out)
    }
}

/// The trackers that a task adds, each once.
pub fn parse_trackers(options: &Object) -> (r: Vec<String>)
    ensures
        text_views(r@) == with_names(seq![], listed_parts(text_under(options@, "bt-tracker"@))),
{
    let raw = text_setting(options, "bt-tracker");
    let mut out: Vec<String> = Vec::new();
    assert(text_views(out@) =~= seq![]);
    add_listed(&mut out, raw.as_str());
    out
}

/// The route of peer traffic that options name; absent where they name none.
pub open spec fn route_in(options: OptionMap) -> Option<RouteModel> {
    let tcp = text_under(options, "p2p-proxy"@);
    let udp = text_under(options, "p2p-udp-proxy"@);
    if trimmed(tcp).len() == 0 && trimmed(udp).len() == 0 {
        None
    } else {
        Some(
            route_of(
                tcp,
                text_under(options, "p2p-no-proxy"@),
                udp,
                text_under(options, "p2p-udp-no-proxy"@),
            ),
        )
    }
}

pub fn p2p_proxy_from_options(options: &Object) -> (r: Option<P2pRoute>)
    ensures
        route_model(r) == route_in(options@),
{
    let tcp = text_setting(options, "p2p-proxy");
    let tcp_bypass = text_setting(options, "p2p-no-proxy");
    let udp = text_setting(options, "p2p-udp-proxy");
    let udp_bypass = text_setting(options, "p2p-udp-no-proxy");
    let none_tcp = is_empty(crate::text::trim(tcp.as_str()).as_str());
    let none_udp = is_empty(crate::text::trim(udp.as_str()).as_str());
    if none_tcp && none_udp {
        return None;
    }
    Some(p2p_route(tcp.as_str(), tcp_bypass.as_str(), udp.as_str(), udp_bypass.as_str()))
}

impl EngineOptions {
    /// The route of peer traffic that the global options name.
    pub fn p2p_proxy_connector(&self) -> (r: P2pRoute)
        ensures
            r@ == route_of(
                text_under(self@, "p2p-proxy"@),
                text_under(self@, "p2p-no-proxy"@),
                text_under(self@, "p2p-udp-proxy"@),
                text_under(self@, "p2p-udp-no-proxy"@),
            ),
    {
        let tcp = text_setting(&self.global, "p2p-proxy");
        let tcp_bypass = text_setting(&self.global, "p2p-no-proxy");
        let udp = text_setting(&self.global, "p2p-udp-proxy");
        let udp_bypass = text_setting(&self.global, "p2p-udp-no-proxy");
        p2p_route(tcp.as_str(), tcp_bypass.as_str(), udp.as_str(), udp_bypass.as_str())
    }
}

/// The directory that a task stores in.
pub open spec fn task_dir(options: OptionMap, output_dir: Seq<char>) -> Seq<char> {
    match value_under(options, "dir"@) {
        Some(Json::Text(s)) => s,
        _ => output_dir,
    }
}

fn dir_setting(options: &Object, output_dir: &str) -> (r: String)
    ensures
        r@ == task_dir(options@, output_dir@),
{
    match options.get("dir") {
        Some(v) => match v.as_str() {
            Some(s) => s.to_string(),
            None => output_dir.to_string(),
        },
        None => output_dir.to_string(),
    }
}

/// True when `r` is how the session adds a torrent that a task asks for.
pub open spec fn asks_for(
    r: AddTorrentOptions,
    options: OptionMap,
    output_dir: Seq<char>,
    peers: Seq<SocketAddr>,
    tracker_peers: Seq<SocketAddr>,
) -> bool {
    let trackers = with_names(seq![], listed_parts(text_under(options, "bt-tracker"@)));
    &&& r.output_folder matches Some(f)
    &&& f@ == task_dir(options, output_dir)
    &&& maybe_texts(r.trackers) == (if trackers.len() == 0 {
        None
    } else {
        Some(trackers)
    })
    &&& match selection(options) {
        Some(files) => r.only_files matches Some(v) && v@ == files,
        None => r.only_files is None,
    }
    &&& !r.list_only
    &&& r.create_subfolder == plain_flag(options, "bt-create-subfolder"@, true)
    &&& r.initial_peers@ == peers
    &&& r.initial_tracker_peers@ == tracker_peers
    &&& route_model(r.p2p_proxy) == route_in(options)
    &&& r.p2p_proxy_is_task_override == plain_flag(options, TASK_P2P_PROXY_OVERRIDE_KEY@, false)
}

/// How the session adds a torrent that a task asks for.
pub fn add_options(
    options: &Object,
    output_dir: &str,
    initial_peers: Vec<SocketAddr>,
    initial_tracker_peers: Vec<SocketAddr>,
) -> (r: AddTorrentOptions)
    ensures
        asks_for(r, options@, output_dir@, initial_peers@, initial_tracker_peers@),
{
    let trackers = parse_trackers(options);
    AddTorrentOptions {
        output_folder: Some(dir_setting(options, output_dir)),
        trackers: if trackers.len() == 0 {
            None
        } else {
            Some(trackers)
        },
        only_files: parse_select_files(options),
        list_only: false,
        create_subfolder: flag_setting(options, "bt-create-subfolder", true),
        initial_peers,
        initial_tracker_peers,
        p2p_proxy: p2p_proxy_from_options(options),
        p2p_proxy_is_task_override: flag_setting(options, TASK_P2P_PROXY_OVERRIDE_KEY, false),
    }
}

/// How the session adds a torrent that was resolved from a magnet link: with the peers that were
/// found on the way, but for those of other sources where the torrent is private.
pub fn add_resolved(options: &Object, output_dir: &str, resolved: &ResolvedMagnetMeta) -> (r: Result<
    AddTorrentOptions,
    MetaError,
>)
    ensures
        match torrent_of(resolved@.bytes) {
            Err(e) => r == Err::<AddTorrentOptions, MetaError>(e),
            Ok(meta) => r matches Ok(a) && asks_for(
                a,
                options@,
                output_dir@,
                if meta.info.private {
                    seq![]
                } else {
                    untracked(resolved@.peers, resolved@.tracker_peers)
                },
                resolved@.tracker_peers,
            ),
        },
{
    let meta = match parse_torrent(resolved.bytes.as_slice()) {
        Ok(m) => m,
        Err(e) => {
            return Err(e);
        },
    };
    let peers = usable_peers(&resolved.peers, &resolved.tracker_peers, meta.info.private);
    let mut tracker_peers: Vec<SocketAddr> = Vec::new();
    tracker_peers.extend_from_slice(resolved.tracker_peers.as_slice());
    assert(tracker_peers@ =~= resolved.tracker_peers@);
    Ok(add_options(options, output_dir, peers, tracker_peers))
}

/// How a magnet link is resolved.
#[derive(Debug)]
pub struct MagnetPlan {
    pub trackers: Vec<String>,
    pub encryption: EncryptionPolicy,
    pub p2p_proxy: Option<P2pRoute>,
    /// True when the resolution has a datagram transport of its own.
    pub own_utp: bool,
    /// The digest that the result is kept under; absent where it is not shared.
    pub cached: Option<Id20>,
}

/// True when `r` is how a magnet link is resolved: a task with a route of its own shares neither
/// the session's transport nor the cache.
pub open spec fn plans_link(r: MagnetPlan, options: OptionMap, info_hash: Option<Id20>) -> bool {
    &&& text_views(r.trackers@) == with_names(
        seq![],
        listed_parts(text_under(options, "bt-tracker"@)),
    )
    &&& r.encryption == policy_named(
        match value_under(options, "bt-encryption-policy"@) {
            Some(v) => text_of_json(v),
            None => None,
        },
    )
    &&& route_model(r.p2p_proxy) == route_in(options)
    &&& r.own_utp == plain_flag(options, TASK_P2P_PROXY_OVERRIDE_KEY@, false)
    &&& r.cached == (if r.own_utp {
        None
    } else {
        info_hash
    })
}

/// How a magnet link is resolved.
pub fn magnet_plan(options: &Object, info_hash: Option<Id20>) -> (r: MagnetPlan)
    ensures
        plans_link(r, options@, info_hash),
{
    let encryption = match options.get("bt-encryption-policy") {
        Some(v) => encryption_policy_from_str(v.as_str()),
        None => encryption_policy_from_str(None),
    };
    let own = flag_setting(options, TASK_P2P_PROXY_OVERRIDE_KEY, false);
    MagnetPlan {
        trackers: parse_trackers(options),
        encryption,
        p2p_proxy: p2p_proxy_from_options(options),
        own_utp: own,
        cached: if own {
            None
        } else {
            info_hash
        },
    }
}

/// Where the torrent file of a magnet link is saved: the directory, and the name of the file.
pub open spec fn metadata_file(options: OptionMap, output_dir: Seq<char>, bytes: Seq<u8>) -> Option<
    (Seq<char>, Seq<char>),
> {
    if !plain_flag(options, "bt-save-metadata"@, false) {
        None
    } else {
        match torrent_of(bytes) {
            Ok(meta) => Some(
                (task_dir(options, output_dir), hex_text(meta.info_hash@) + ".torrent"@),
            ),
            Err(_) => None,
        }
    }
}

/// Where the torrent file of a magnet link is saved, where it is to be.
pub fn metadata_path(options: &Object, output_dir: &str, bytes: &[u8]) -> (r: Option<
    (String, String),
>)
    ensures
        match metadata_file(options@, output_dir@, bytes@) {
            Some((d, f)) => r matches Some((dir, file)) && dir@ == d && file@ == f,
            None => r is None,
        },
{
    if !flag_setting(options, "bt-save-metadata", false) {
        return None;
    }
    match parse_torrent(bytes) {
        Ok(meta) => {
            let file = crate::text::join_text(meta.info_hash.to_hex().as_str(), ".torrent");
            Some((dir_setting(options, output_dir), file))
        },
        Err(_) => None,
    }
}

/// A file of a torrent.
#[derive(Debug)]
pub struct TorrentFileInfo {
    pub index: usize,
    pub path: String,
    pub length: u64,
}

/// True when `r` are the files of a torrent, numbered from zero.
pub open spec fn numbers_files(r: Seq<TorrentFileInfo>, info: InfoModel) -> bool {
    &&& r.len() == info.files.len()
    &&& forall|i: int|
        0 <= i < r.len() ==> (#[trigger] r[i]).index == i && r[i].path@ == joined_path(
            info.files[i].path,
        ) && r[i].length == info.files[i].length
}

pub fn extract_file_details(info: &ValidatedTorrentMetaV1Info) -> (r: Vec<TorrentFileInfo>)
    ensures
        numbers_files(r@, info@),
{
    let details = info.iter_file_details();
    let mut out: Vec<TorrentFileInfo> = Vec::new();
    let mut i: usize = 0;
    while i < details.len()
        invariant
            i <= details.len(),
            details.len() == info@.files.len(),
            forall|j: int|
                0 <= j < details.len() ==> (#[trigger] details@[j]).filename@ == joined_path(
                    info@.files[j].path,
                ) && details@[j].len == info@.files[j].length,
            out.len() == i,
            forall|j: int|
                0 <= j < i ==> (#[trigger] out@[j]).index == j && out@[j].path@ == joined_path(
                    info@.files[j].path,
                ) && out@[j].length == info@.files[j].length,
        decreases details.len() - i,
    {
        let d = &details[i];
        out.push(
            TorrentFileInfo { index: i, path: d.filename.as_str().to_string(), length: d.len },
        );
        i += 1;
    }
    out
}

/// The tiers that are not empty.
pub open spec fn full_tiers(tiers: Seq<Seq<Seq<char>>>) -> Seq<Seq<Seq<char>>>
    decreases tiers.len(),
{
    if tiers.len() == 0 {
        seq![]
    } else if tiers.last().len() == 0 {
        full_tiers(tiers.drop_last())
    } else {
        full_tiers(tiers.drop_last()).push(tiers.last())
    }
}

/// The trackers of a torrent in tiers: one tier with its only tracker, where it lists none.
pub open spec fn announce_tiers(meta: MetaModel) -> Seq<Seq<Seq<char>>> {
    if meta.announce_list.len() > 0 {
        full_tiers(meta.announce_list)
    } else {
        match meta.announce {
            Some(url) => if url.len() > 0 {
                seq![seq![url]]
            } else {
                seq![]
            },
            None => seq![],
        }
    }
}

pub fn build_announce_list(meta: &TorrentMeta) -> (r: Vec<Vec<String>>)
    ensures
        tier_views(r@) == announce_tiers(meta@),
{
    let mut out: Vec<Vec<String>> = Vec::new();
    assert(tier_views(out@) =~= seq![]);
    if meta.announce_list.len() > 0 {
        let ghost all = tier_views(meta.announce_list@);
        let mut i: usize = 0;
        assert(all.take(0) =~= seq![]);
        while i < meta.announce_list.len()
            invariant
                i <= meta.announce_list.len(),
                all == tier_views(meta.announce_list@),
                tier_views(out@) == full_tiers(all.take(i as int)),
            decreases meta.announce_list.len() - i,
        {
            assert(all.take(i + 1).drop_last() =~= all.take(i as int));
            if meta.announce_list[i].len() > 0 {
                let ghost before = out@;
                let tier = copy_texts(&meta.announce_list[i]);
                let ghost t = text_views(tier@);
                out.push(tier);
                assert(tier_views(out@) =~= tier_views(before).push(t));
            }
            i += 1;
        }
        assert(all.take(i as int) =~= all);
        return out;
    }
    if let Some(url) = &meta.announce {
        if !is_empty(url.as_str()) {
            let mut tier: Vec<String> = Vec::new();
            tier.push(url.as_str().to_string());
            assert(text_views(tier@) =~= seq![url@]);
            out.push(tier);
            assert(tier_views(out@) =~= seq![seq![url@]]);
        }
    }
    out
}

/// What the engine shows of the metadata of a torrent.
#[derive(Debug)]
pub struct TorrentMetadataInfo {
    pub piece_length: u32,
    pub num_pieces: u32,
    pub comment: Option<String>,
    pub creation_date: Option<i64>,
    pub announce_list: Vec<Vec<String>>,
}

fn copy_maybe(s: &Option<String>) -> (r: Option<String>)
    ensures
        maybe_text(r) == maybe_text(*s),
{
    match s {
        Some(t) => Some(t.as_str().to_string()),
        None => None,
    }
}

pub fn metadata_info(meta: &TorrentMeta) -> (r: TorrentMetadataInfo)
    ensures
        r.piece_length == meta.info.piece_length,
        r.num_pieces == (meta.info.pieces.len() / 20) as u32,
        maybe_text(r.comment) == maybe_text(meta.comment),
        r.creation_date == meta.creation_date,
        tier_views(r.announce_list@) == announce_tiers(meta@),
{
    TorrentMetadataInfo {
        piece_length: meta.info.piece_length,
        num_pieces: (meta.info.pieces.len() / 20) as u32,
        comment: copy_maybe(&meta.comment),
        creation_date: meta.creation_date,
        announce_list: build_announce_list(meta),
    }
}

/// What the engine shows of a peer.
#[derive(Debug)]
pub struct PeerSnapshot {
    pub addr: SocketAddr,
    pub bitfield: Vec<u8>,
    pub am_choking: bool,
    pub am_interested: bool,
    pub peer_choking: bool,
    pub peer_interested: bool,
    pub seeder: bool,
    pub peer_id: Option<[u8; 20]>,
    pub client: Option<String>,
    pub downloaded: u64,
    pub uploaded: u64,
    pub dl_speed: u64,
    pub up_speed: u64,
    pub incoming: bool,
    pub snubbed: bool,
    pub optimistic_unchoke: bool,
}

/// What a running torrent reports: its speeds in bytes a second, and its peers.
#[derive(Debug)]
pub struct LiveReport {
    pub download_speed: u64,
    pub upload_speed: u64,
    pub num_peers: u32,
    pub peers: Vec<PeerSnapshot>,
}

/// How many peers have everything.
pub open spec fn seeders(peers: Seq<PeerSnapshot>) -> nat
    decreases peers.len(),
{
    if peers.len() == 0 {
        0
    } else {
        seeders(peers.drop_last()) + (if peers.last().seeder {
            1nat
        } else {
            0nat
        })
    }
}

fn count_seeders(peers: &Vec<PeerSnapshot>) -> (r: usize)
    ensures
        r == seeders(peers@),
{
    let mut n: usize = 0;
    let mut i: usize = 0;
    assert(peers@.take(0) =~= seq![]);
    while i < peers.len()
        invariant
            i <= peers.len(),
            n <= i,
            n == seeders(peers@.take(i as int)),
        decreases peers.len() - i,
    {
        assert(peers@.take(i + 1).drop_last() =~= peers@.take(i as int));
        if peers[i].seeder {
            n += 1;
        }
        i += 1;
    }
    assert(peers@.take(i as int) =~= peers@);
    n
}

/// What the engine shows of a torrent.
#[derive(Debug)]
pub struct TorrentStats {
    pub total_bytes: u64,
    pub downloaded_bytes: u64,
    pub uploaded_bytes: u64,
    pub download_speed: u64,
    pub upload_speed: u64,
    pub num_peers: u32,
    pub num_seeders: u32,
    pub is_finished: bool,
    pub name: Option<String>,
    pub file_progress: Vec<u64>,
    pub file_details: Option<Vec<TorrentFileInfo>>,
    pub resolved_root: Option<String>,
    pub single_file_mode: bool,
    pub peers: Vec<PeerSnapshot>,
    pub metadata: Option<TorrentMetadataInfo>,
}

/// What a torrent reports of its progress.
#[derive(Debug)]
pub struct ProgressReport {
    pub total_bytes: u64,
    pub progress_bytes: u64,
    pub uploaded_bytes: u64,
    pub finished: bool,
    pub file_progress: Vec<u64>,
}

/// True when `r` is what the engine shows of a torrent. One that does not run has no speed and no
/// peers; of one without metadata nothing is shown but its progress.
pub open spec fn shows(
    r: TorrentStats,
    progress: ProgressReport,
    live: Option<LiveReport>,
    name: Option<String>,
    root: String,
    meta: Option<&TorrentMeta>,
) -> bool {
    &&& r.total_bytes == progress.total_bytes
    &&& r.downloaded_bytes == progress.progress_bytes
    &&& r.uploaded_bytes == progress.uploaded_bytes
    &&& r.is_finished == progress.finished
    &&& r.file_progress == progress.file_progress
    &&& r.name == name
    &&& r.resolved_root == Some(root)
    &&& match live {
        Some(l) => r.download_speed == l.download_speed && r.upload_speed == l.upload_speed
            && r.num_peers == l.num_peers && r.peers == l.peers && r.num_seeders == seeders(
            l.peers@,
        ) as u32,
        None => r.download_speed == 0 && r.upload_speed == 0 && r.num_peers == 0 && r.peers@.len()
            == 0 && r.num_seeders == 0,
    }
    &&& match meta {
        Some(m) => {
            &&& r.single_file_mode == m.info.single_file_mode
            &&& r.file_details matches Some(files)
            &&& numbers_files(files@, m.info@)
            &&& r.metadata matches Some(i)
            &&& i.piece_length == m.info.piece_length
            &&& i.num_pieces == (m.info.pieces.len() / 20) as u32
            &&& maybe_text(i.comment) == maybe_text(m.comment)
            &&& i.creation_date == m.creation_date
            &&& tier_views(i.announce_list@) == announce_tiers(m@)
        },
        None => !r.single_file_mode && r.file_details is None && r.metadata is None,
    }
}

/// Put together what the engine shows of a torrent.
pub fn torrent_stats(
    progress: ProgressReport,
    live: Option<LiveReport>,
    name: Option<String>,
    root: String,
    meta: Option<&TorrentMeta>,
) -> (r: TorrentStats)
    ensures
        shows(r, progress, live, name, root, meta),
{
    let live = match live {
        Some(l) => l,
        None => LiveReport {
            download_speed: 0,
            upload_speed: 0,
            num_peers: 0,
            peers: Vec::new(),
        },
    };
    let num_seeders: u32 = count_seeders(&live.peers) as u32;
    let (file_details, metadata, single_file_mode) = match meta {
        Some(m) => (
            Some(extract_file_details(&m.info)),
            Some(metadata_info(m)),
            m.info.single_file_mode,
        ),
        None => (None, None, false),
    };
    TorrentStats {
        total_bytes: progress.total_bytes,
        downloaded_bytes: progress.progress_bytes,
        uploaded_bytes: progress.uploaded_bytes,
        download_speed: live.download_speed,
        upload_speed: live.upload_speed,
        num_peers: live.num_peers,
        num_seeders,
        is_finished: progress.finished,
        name,
        file_progress: progress.file_progress,
        file_details,
        resolved_root: Some(root),
        single_file_mode,
        peers: live.peers,
        metadata,
    }
}

/// A torrent as the engine names it.
#[derive(Debug)]
pub struct TorrentHandle {
    pub id: usize,
    pub info_hash: Option<String>,
    pub info_hash_v2: Option<String>,
    pub meta_version: Option<String>,
}

/// The mathematical value of the digits of a digest that may be absent.
pub open spec fn long_digits(h: Option<Id32>) -> Option<Seq<char>> {
    match h {
        Some(h) => Some(hex_text(h@)),
        None => None,
    }
}

fn long_hex(h: &Option<Id32>) -> (r: Option<String>)
    ensures
        maybe_text(r) == long_digits(*h),
{
    match h {
        Some(h) => Some(h.to_hex()),
        None => None,
    }
}

/// The name of a version of the format.
pub open spec fn version_text(v: Option<MetaVersion>) -> Option<Seq<char>> {
    match v {
        Some(MetaVersion::V1) => Some("v1"@),
        Some(MetaVersion::V2) => Some("v2"@),
        Some(MetaVersion::Hybrid) => Some("hybrid"@),
        None => None,
    }
}

/// True when `r` names a torrent.
pub open spec fn names_torrent(r: TorrentHandle, t: ManagedTorrent) -> bool {
    &&& r.id == t.id
    &&& maybe_text(r.info_hash) == Some(hex_text(t.info_hash@))
    &&& maybe_text(r.info_hash_v2) == long_digits(t.info_hash_v2)
    &&& maybe_text(r.meta_version) == version_text(t.meta_version)
}

/// A torrent of the session, as the engine names it. Where files were only listed, there is none.
pub fn extract_handle(response: &AddTorrentResponse, session: &Session) -> (r: Option<TorrentHandle>)
    ensures
        match *response {
            AddTorrentResponse::Added(id) | AddTorrentResponse::AlreadyManaged(id) => match found(
                session@.registry,
                TorrentIdOrHash::Id(id),
            ) {
                Some(t) => r matches Some(h) && names_torrent(h, t),
                None => r is None,
            },
            AddTorrentResponse::ListOnly(_) => r is None,
        },
{
    let id: usize = match response {
        AddTorrentResponse::Added(id) => *id,
        AddTorrentResponse::AlreadyManaged(id) => *id,
        AddTorrentResponse::ListOnly(_) => {
            return None;
        },
    };
    match session.get(TorrentIdOrHash::Id(id)) {
        Some(t) => Some(
            TorrentHandle {
                id: t.id,
                info_hash: Some(t.info_hash.to_hex()),
                info_hash_v2: long_hex(&t.info_hash_v2),
                meta_version: match t.meta_version {
                    Some(v) => Some(v.as_str().to_string()),
                    None => None,
                },
            },
        ),
        None => None,
    }
}

/// The digests and the name that a magnet link carries.
#[derive(Debug)]
pub struct Magnet {
    pub info_hash: Id20,
    pub info_hash_v2: Option<Id32>,
    pub display_name: Option<String>,
}

/// What a magnet link says.
#[derive(Debug)]
pub struct MagnetInfo {
    pub info_hash: String,
    pub info_hash_v2: Option<String>,
    pub display_name: Option<String>,
}

/// What a magnet link says, for display.
pub fn inspect_magnet(magnet: &Magnet) -> (r: MagnetInfo)
    ensures
        r.info_hash@ == hex_text(magnet.info_hash@),
        maybe_text(r.info_hash_v2) == long_digits(magnet.info_hash_v2),
        maybe_text(r.display_name) == maybe_text(magnet.display_name),
{
    MagnetInfo {
        info_hash: magnet.info_hash.to_hex(),
        info_hash_v2: long_hex(&magnet.info_hash_v2),
        display_name: copy_maybe(&magnet.display_name),
    }
}

proof fn lemma_pushed_item<T>(s: Seq<T>, last: T, x: T)
    ensures
        s.push(last).contains(x) <==> s.contains(x) || x == last,
{
    let t = s.push(last);
    assert(t[s.len() as int] == last);
    if s.contains(x) {
        let i = choose|i: int| 0 <= i < s.len() && s[i] == x;
        assert(t[i] == x);
    }
    if t.contains(x) {
        let i = choose|i: int| 0 <= i < t.len() && t[i] == x;
        if i < s.len() {
            assert(s[i] == x);
        }
    }
}

/// A task picks exactly the files whose numbers it lists, where the first file has the number one;
/// what is no number is passed over.
pub proof fn which_files_are_picked(parts: Seq<Seq<char>>)
    ensures
        forall|k: usize| #[trigger]
            picked(parts).contains(k) <==> exists|i: int|
                0 <= i < parts.len() && number_in(
                    trimmed(#[trigger] parts[i]),
                    usize::MAX as nat,
                ) == Some((k + 1) as nat),
        picked(parts).len() <= parts.len(),
    decreases parts.len(),
{
    if parts.len() > 0 {
        let front = parts.drop_last();
        which_files_are_picked(front);
        let before = picked(front);
        let out = picked(parts);
        let last = parts.len() - 1;
        assert(parts[last] == parts.last());
        let told = number_in(trimmed(parts.last()), usize::MAX as nat);
        assert forall|k: usize| #[trigger] out.contains(k) <==> exists|i: int|
            0 <= i < parts.len() && number_in(trimmed(#[trigger] parts[i]), usize::MAX as nat)
                == Some((k + 1) as nat) by {
            if told is Some && told->0 >= 1 {
                lemma_pushed_item(before, (told->0 - 1) as usize, k);
            }
            if before.contains(k) {
                let i = choose|i: int|
                    0 <= i < front.len() && number_in(
                        trimmed(#[trigger] front[i]),
                        usize::MAX as nat,
                    ) == Some((k + 1) as nat);
                assert(parts[i] == front[i]);
            }
            if exists|i: int|
                0 <= i < parts.len() && number_in(trimmed(#[trigger] parts[i]), usize::MAX as nat)
                    == Some((k + 1) as nat) {
                let i = choose|i: int|
                    0 <= i < parts.len() && number_in(
                        trimmed(#[trigger] parts[i]),
                        usize::MAX as nat,
                    ) == Some((k + 1) as nat);
                if i < last {
                    assert(parts[i] == front[i]);
                    assert(before.contains(k));
                } else {
                    assert(told == Some((k + 1) as nat));
                    assert((told->0 - 1) as usize == k);
                }
            }
            if told is Some && told->0 >= 1 && (told->0 - 1) as usize == k {
                assert(told->0 <= usize::MAX);
                assert(number_in(trimmed(parts[last]), usize::MAX as nat) == Some((k + 1) as nat));
            }
        }
    }
}

/// All files are picked where a task lists no number that is one; otherwise those that it lists.
pub proof fn what_a_task_selects(options: OptionMap)
    ensures
        ({
            let text = match options.contains_key("select-file"@) {
                true => match options["select-file"@] {
                    Json::Text(t) => t,
                    _ => seq![],
                },
                false => seq![],
            };
            let files = picked(parts_of(trimmed(text), ','));
            &&& selection(options) is None <==> files.len() == 0
            &&& selection(options) matches Some(v) ==> v == files
        }),
{
}

/// The trackers of a torrent are shown in its tiers, none left out but those that are empty. A
/// torrent without tiers has one, with its only tracker.
pub proof fn which_tiers_are_shown(meta: MetaModel)
    ensures
        meta.announce_list.len() > 0 ==> forall|t: Seq<Seq<char>>| #[trigger]
            announce_tiers(meta).contains(t) <==> meta.announce_list.contains(t) && t.len() > 0,
        meta.announce_list.len() > 0 && (forall|i: int|
            0 <= i < meta.announce_list.len() ==> (#[trigger] meta.announce_list[i]).len() > 0)
            ==> announce_tiers(meta) == meta.announce_list,
        meta.announce_list.len() == 0 && meta.announce is Some && meta.announce->0.len() > 0
            ==> announce_tiers(meta) == seq![seq![meta.announce->0]],
        meta.announce_list.len() == 0 && (meta.announce is None || meta.announce->0.len() == 0)
            ==> announce_tiers(meta).len() == 0,
{
    lemma_full_tiers(meta.announce_list);
}

proof fn lemma_full_tiers(tiers: Seq<Seq<Seq<char>>>)
    ensures
        forall|t: Seq<Seq<char>>| #[trigger]
            full_tiers(tiers).contains(t) <==> tiers.contains(t) && t.len() > 0,
        (forall|i: int| 0 <= i < tiers.len() ==> (#[trigger] tiers[i]).len() > 0) ==> full_tiers(
            tiers,
        ) == tiers,
    decreases tiers.len(),
{
    if tiers.len() > 0 {
        let front = tiers.drop_last();
        lemma_full_tiers(front);
        assert(tiers =~= front.push(tiers.last()));
        assert(tiers[tiers.len() - 1] == tiers.last());
        assert forall|t: Seq<Seq<char>>| #[trigger] full_tiers(tiers).contains(t) <==> tiers.contains(
            t,
        ) && t.len() > 0 by {
            lemma_pushed_item(front, tiers.last(), t);
            lemma_pushed_item(full_tiers(front), tiers.last(), t);
            assert(full_tiers(front).contains(t) <==> front.contains(t) && t.len() > 0);
        }
        if forall|i: int| 0 <= i < tiers.len() ==> (#[trigger] tiers[i]).len() > 0 {
            assert forall|i: int| 0 <= i < front.len() implies (#[trigger] front[i]).len() > 0 by {
                assert(front[i] == tiers[i]);
            }
        }
    } else {
        assert(full_tiers(tiers) =~= tiers);
    }
}

/// Encryption is preferred unless the setting names plain text or asks for encryption.
pub proof fn which_policies_are_named()
    ensures
        policy_named(Some("plaintext"@)) == EncryptionPolicy::PlaintextOnly,
        policy_named(Some("require"@)) == EncryptionPolicy::RequireEncryption,
        policy_named(None) == EncryptionPolicy::Prefer,
        forall|s: Seq<char>|
            s != "plaintext"@ && s != "require"@ ==> #[trigger] policy_named(Some(s))
                == EncryptionPolicy::Prefer,
{
    reveal_strlit("plaintext");
    reveal_strlit("require");
    assert("plaintext"@.len() == 9 && "require"@.len() == 7);
}

/// How a task asks for a torrent: it is stored in the directory of the task where it names one,
/// else in that of the engine; it has a directory of its own unless the task says otherwise; and it
/// starts with exactly the peers that are known.
pub proof fn how_a_task_asks_for_a_torrent(
    r: AddTorrentOptions,
    options: OptionMap,
    output_dir: Seq<char>,
    peers: Seq<SocketAddr>,
    tracker_peers: Seq<SocketAddr>,
)
    requires
        asks_for(r, options, output_dir, peers, tracker_peers),
    ensures
        r.output_folder is Some,
        options.contains_key("dir"@) && options["dir"@] is Text ==> r.output_folder->0@
            == options["dir"@]->Text_0,
        !(options.contains_key("dir"@) && options["dir"@] is Text) ==> r.output_folder->0@
            == output_dir,
        r.create_subfolder <==> !(options.contains_key("bt-create-subfolder"@)
            && options["bt-create-subfolder"@] == Json::Bool(false)),
        !r.list_only,
        r.initial_peers@ == peers,
        r.initial_tracker_peers@ == tracker_peers,
        r.only_files is Some <==> selection(options) is Some,
        r.only_files matches Some(v) ==> selection(options) == Some(v@),
        options.contains_key("bt-tracker"@) && options["bt-tracker"@] is Text && with_names(
            seq![],
            listed_parts(options["bt-tracker"@]->Text_0),
        ).len() > 0 ==> r.trackers is Some && text_views(r.trackers->0@) == with_names(
            seq![],
            listed_parts(options["bt-tracker"@]->Text_0),
        ),
        r.p2p_proxy_is_task_override <==> options.contains_key("risuko-task-p2p-proxy-override"@)
            && options["risuko-task-p2p-proxy-override"@] == Json::Bool(true),
{
}

/// A torrent file is kept exactly where the task asks for it and the file can be read, in the
/// directory of the task, under the digits of its digest.
pub proof fn where_a_torrent_file_is_kept(
    options: OptionMap,
    output_dir: Seq<char>,
    bytes: Seq<u8>,
)
    ensures
        metadata_file(options, output_dir, bytes) is Some <==> options.contains_key(
            "bt-save-metadata"@,
        ) && options["bt-save-metadata"@] == Json::Bool(true) && torrent_of(bytes) is Ok,
        metadata_file(options, output_dir, bytes) matches Some(p) ==> p.0 == task_dir(
            options,
            output_dir,
        ) && p.1 == hex_text(torrent_of(bytes)->Ok_0.info_hash@) + ".torrent"@,
{
}

/// The peers that have everything are counted one by one.
pub proof fn how_seeders_are_counted(peers: Seq<PeerSnapshot>)
    ensures
        seeders(peers) <= peers.len(),
        seeders(peers) == peers.len() <==> (forall|i: int|
            0 <= i < peers.len() ==> (#[trigger] peers[i]).seeder),
        seeders(peers) == 0 <==> (forall|i: int|
            0 <= i < peers.len() ==> !(#[trigger] peers[i]).seeder),
        peers.len() > 0 ==> seeders(peers) - seeders(peers.drop_last()) == (if peers.last().seeder {
            1int
        } else {
            0
        }),
    decreases peers.len(),
{
    if peers.len() > 0 {
        let front = peers.drop_last();
        how_seeders_are_counted(front);
        assert(peers[peers.len() - 1] == peers.last());
        assert forall|i: int| 0 <= i < front.len() implies #[trigger] front[i] == peers[i] by {}
        if seeders(front) == front.len() {
            assert forall|i: int| 0 <= i < peers.len() - 1 implies (#[trigger] peers[i]).seeder by {
                assert(front[i] == peers[i]);
            }
        }
        if seeders(front) == 0 {
            assert forall|i: int| 0 <= i < peers.len() - 1 implies !(
            #[trigger] peers[i]).seeder by {
                assert(front[i] == peers[i]);
            }
        }
        if forall|i: int| 0 <= i < peers.len() ==> (#[trigger] peers[i]).seeder {
            assert forall|i: int| 0 <= i < front.len() implies (#[trigger] front[i]).seeder by {
                assert(front[i] == peers[i]);
            }
        }
        if forall|i: int| 0 <= i < peers.len() ==> !(#[trigger] peers[i]).seeder {
            assert forall|i: int| 0 <= i < front.len() implies !(#[trigger] front[i]).seeder by {
                assert(front[i] == peers[i]);
            }
        }
    }
}

/// What is shown of a torrent is what its reports say. One that does not run has no speed and no
/// peers, and of one without metadata no files are shown; otherwise every file is, in its place.
pub proof fn what_is_shown_of_a_torrent(
    r: TorrentStats,
    progress: ProgressReport,
    live: Option<LiveReport>,
    name: Option<String>,
    root: String,
    meta: Option<&TorrentMeta>,
)
    requires
        shows(r, progress, live, name, root, meta),
    ensures
        r.total_bytes == progress.total_bytes,
        r.downloaded_bytes == progress.progress_bytes,
        r.uploaded_bytes == progress.uploaded_bytes,
        r.is_finished == progress.finished,
        r.file_progress == progress.file_progress,
        r.name == name,
        r.resolved_root == Some(root),
        live is None ==> r.download_speed == 0 && r.upload_speed == 0 && r.num_peers == 0
            && r.num_seeders == 0 && r.peers@.len() == 0,
        live matches Some(l) ==> r.download_speed == l.download_speed && r.upload_speed
            == l.upload_speed && r.num_peers == l.num_peers && r.peers == l.peers,
        r.file_details is Some <==> meta is Some,
        meta matches Some(m) ==> r.single_file_mode == m.info.single_file_mode
            && r.file_details->0@.len() == m.info@.files.len() && forall|i: int|
            0 <= i < m.info@.files.len() ==> (#[trigger] r.file_details->0@[i]).index == i
                && r.file_details->0@[i].length == m.info@.files[i].length
                && r.file_details->0@[i].path@ == joined_path(m.info@.files[i].path),
{
}

/// A torrent is named by its number, the digits of its digests, and its version.
pub proof fn how_a_torrent_is_named(r: TorrentHandle, t: ManagedTorrent)
    requires
        names_torrent(r, t),
    ensures
        r.id == t.id,
        r.info_hash matches Some(d) && d@ == hex_text(t.info_hash@),
        r.info_hash_v2 is Some <==> t.info_hash_v2 is Some,
        r.info_hash_v2 matches Some(d) ==> d@ == hex_text(t.info_hash_v2->0@),
        r.meta_version is Some <==> t.meta_version is Some,
        t.meta_version == Some(MetaVersion::V1) ==> r.meta_version->0@ == seq!['v', '1'],
        t.meta_version == Some(MetaVersion::V2) ==> r.meta_version->0@ == seq!['v', '2'],
        t.meta_version == Some(MetaVersion::Hybrid) ==> r.meta_version->0@ == seq![
            'h',
            'y',
            'b',
            'r',
            'i',
            'd',
        ],
{
    reveal_strlit("v1");
    reveal_strlit("v2");
    reveal_strlit("hybrid");
    assert("v1"@ =~= seq!['v', '1']);
    assert("v2"@ =~= seq!['v', '2']);
    assert("hybrid"@ =~= seq!['h', 'y', 'b', 'r', 'i', 'd']);
}

/// A link that belongs to a task with a route of its own is not shared; any other is kept under its
/// digest. Its trackers and its route are those of the task.
pub proof fn how_a_link_is_planned(r: MagnetPlan, options: OptionMap, info_hash: Option<Id20>)
    requires
        plans_link(r, options, info_hash),
    ensures
        r.own_utp <==> options.contains_key("risuko-task-p2p-proxy-override"@)
            && options["risuko-task-p2p-proxy-override"@] == Json::Bool(true),
        r.own_utp ==> r.cached is None,
        !r.own_utp ==> r.cached == info_hash,
        route_model(r.p2p_proxy) == route_in(options),
        options.contains_key("bt-tracker"@) && options["bt-tracker"@] is Text ==> text_views(
            r.trackers@,
        ) == with_names(seq![], listed_parts(options["bt-tracker"@]->Text_0)),
        !options.contains_key("bt-encryption-policy"@) ==> r.encryption == EncryptionPolicy::Prefer,
        options.contains_key("bt-encryption-policy"@) && options["bt-encryption-policy"@]
            == Json::Text("require"@) ==> r.encryption == EncryptionPolicy::RequireEncryption,
        options.contains_key("bt-encryption-policy"@) && options["bt-encryption-policy"@]
            == Json::Text("plaintext"@) ==> r.encryption == EncryptionPolicy::PlaintextOnly,
{
    which_policies_are_named();
}

} // verus!
