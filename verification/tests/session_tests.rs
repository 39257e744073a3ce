use bytes::Bytes;
use risuko_bt::bencode::{encode_to_vec, Value};
use risuko_bt::meta::hash::Id20;
use risuko_bt::meta::lengths::LengthsError;
use risuko_bt::meta::metainfo::{parse_torrent, MetaVersion, TorrentMeta};
use risuko_bt::net::literal::parse_ip;
use risuko_bt::net::SocketAddr;
use risuko_bt::proxy::{p2p_route, P2pRoute};
use risuko_bt::session::adding::{
    add_resolved_peers, needs_rescan, usable_peers, AddStep, AddTorrent, AddTorrentOptions,
    AddTorrentResponse, AddTorrentStep, PeerSource, TorrentPlan,
};
use risuko_bt::session::registry::{
    Claim, ManagedTorrent, Registry, RootDir, TorrentFacts, TorrentIdOrHash,
};
use risuko_bt::session::removing::deletions;
use risuko_bt::session::rerouting::{SwapFault, SwapStep};
use risuko_bt::session::start::{
    direct_tracker_source_addr, listen_addr, services, upnp_mapping_specs, upnp_plan, upnp_status,
    utp_bind_addresses, ListenerOptions, MapProto, SessionOptions, UpnpStatus,
    DEFAULT_UPNP_LEASE,
};
use risuko_bt::session::{total_blocked, InboundRoute, Session};

fn addr(text: &str) -> SocketAddr {
    let (host, port) = text.rsplit_once(':').unwrap();
    let host = host.trim_start_matches('[').trim_end_matches(']');
    SocketAddr::new(parse_ip(host).unwrap(), port.parse().unwrap())
}

fn torrent_file(name: &str, private: bool) -> Vec<u8> {
    let mut info = vec![
        (b"length".to_vec(), Value::Int(40_000)),
        (b"name".to_vec(), Value::Bytes(name.as_bytes().to_vec())),
        (b"piece length".to_vec(), Value::Int(16_384)),
        (b"pieces".to_vec(), Value::Bytes(vec![0; 60])),
    ];
    if private {
        info.push((b"private".to_vec(), Value::Int(1)));
    }
    encode_to_vec(&Value::Dict(vec![(b"info".to_vec(), Value::Dict(info))]))
}

fn folder_file(name: &str) -> Vec<u8> {
    let file = |length: i64, path: &[&str]| {
        Value::Dict(vec![
            (b"length".to_vec(), Value::Int(length)),
            (
                b"path".to_vec(),
                Value::List(
                    path.iter()
                        .map(|p| Value::Bytes(p.as_bytes().to_vec()))
                        .collect(),
                ),
            ),
        ])
    };
    let info = Value::Dict(vec![
        (
            b"files".to_vec(),
            Value::List(vec![file(10, &["a.txt"]), file(20, &["sub", "b.txt"])]),
        ),
        (b"name".to_vec(), Value::Bytes(name.as_bytes().to_vec())),
        (b"piece length".to_vec(), Value::Int(16_384)),
        (b"pieces".to_vec(), Value::Bytes(vec![0; 20])),
    ]);
    encode_to_vec(&Value::Dict(vec![(b"info".to_vec(), info)]))
}

fn session() -> Session {
    Session::new(
        "/downloads".to_string(),
        SessionOptions::default(),
        addr("0.0.0.0:43123"),
    )
}

/// The torrent that a plan starts.
fn started(plan: TorrentPlan, meta: &TorrentMeta) -> ManagedTorrent {
    ManagedTorrent {
        id: plan.id,
        info_hash: meta.info_hash,
        info_hash_v2: meta.info_hash_v2,
        meta_version: Some(meta.meta_version),
        advertise_v2: plan.advertise_v2,
        create_subfolder: plan.create_subfolder,
        root_dir: plan.root_dir,
        p2p_proxy_is_task_override: plan.p2p_proxy_is_task_override,
        metadata: Some(TorrentFacts {
            private: meta.info.private,
            name: meta.info.name.clone(),
            single_file_mode: meta.info.single_file_mode,
            files: meta.info.iter_file_details(),
            announced: meta.announce_infohashes(),
        }),
    }
}

/// Add a torrent and have it started.
fn add(s: &mut Session, file: Vec<u8>, opts: &AddTorrentOptions) -> (usize, Id20) {
    match s.add_torrent(AddTorrent::TorrentFileBytes(Bytes::from(file)), opts) {
        AddTorrentStep::Step(meta, AddStep::Start(plan)) => {
            let id = plan.id;
            let hash = meta.info_hash;
            let torrent = started(plan, &meta);
            let follow = s.add_started(torrent, &meta, opts);
            assert!(matches!(follow.response, AddTorrentResponse::Added(n) if n == id));
            (id, hash)
        }
        other => panic!("expected a torrent to start, got {other:?}"),
    }
}

// ---- start ----

#[test]
fn upnp_specs_map_tcp_and_actual_utp_ports() {
    assert_eq!(
        upnp_mapping_specs(41_000, Some(42_000)),
        vec![(41_000, MapProto::Tcp), (42_000, MapProto::Udp)]
    );
    assert_eq!(
        upnp_mapping_specs(41_000, None),
        vec![(41_000, MapProto::Tcp)]
    );
}

#[test]
fn tracker_source_uses_explicit_listener_ip_and_ignores_wildcards() {
    let bound: SocketAddr = addr("192.0.2.7:43123");
    assert_eq!(
        direct_tracker_source_addr(addr("192.0.2.7:0"), bound),
        Some(addr("192.0.2.7:0"))
    );
    assert_eq!(direct_tracker_source_addr(addr("0.0.0.0:0"), bound), None);
}

#[test]
fn ports_are_forwarded_only_when_asked_for() {
    let mut opts = SessionOptions::default();
    assert!(upnp_plan(&opts, 41_000, None).is_none());
    assert_eq!(listen_addr(&opts), addr("0.0.0.0:0"));
    opts.listen = Some(ListenerOptions {
        listen_addr: Some(addr("10.0.0.1:7000")),
        enable_upnp_port_forwarding: true,
        upnp_lease: None,
        listen_ipv6: true,
    });
    let plan = upnp_plan(&opts, 41_000, Some(42_000)).unwrap();
    assert_eq!(plan.lease, DEFAULT_UPNP_LEASE);
    assert_eq!(plan.mappings.len(), 2);
    assert_eq!(listen_addr(&opts), addr("10.0.0.1:7000"));
    assert_eq!(
        utp_bind_addresses(7000),
        vec![addr("0.0.0.0:7000"), addr("0.0.0.0:0")]
    );
    let services = services(&opts, 41_000);
    assert_eq!(services.listen_v6, Some(addr("[::]:41000")));
    assert!(services.dht);
    assert!(services.local_discovery);
    assert_eq!(
        upnp_status(Some((2, 5))),
        UpnpStatus { enabled: true, mapping_count: 2, discovery_attempts: 5 }
    );
    assert_eq!(
        upnp_status(None),
        UpnpStatus { enabled: false, mapping_count: 0, discovery_attempts: 0 }
    );
}

// ---- registry ----

#[test]
fn claims_on_a_digest_exclude_each_other() {
    let mut registry = Registry::new();
    let hash = Id20([1u8; 20]);
    let id = match registry.claim(hash) {
        Claim::Reserved(id) => id,
        other => panic!("expected a claim, got {other:?}"),
    };
    assert_eq!(registry.claim(hash), Claim::Busy);
    registry.release(&hash, id);
    assert!(matches!(registry.claim(hash), Claim::Reserved(next) if next > id));
}

#[test]
fn torrents_are_added_once() {
    let mut s = session();
    let opts = AddTorrentOptions::default();
    let (id, hash) = add(&mut s, torrent_file("one.bin", false), &opts);
    assert_eq!(s.count(), 1);
    assert_eq!(s.get(TorrentIdOrHash::Hash(hash)).unwrap().id, id);
    assert_eq!(s.get(TorrentIdOrHash::Id(id)).unwrap().info_hash, hash);
    assert_eq!(s.list(), vec![(id, hash.to_hex())]);
    assert_eq!(s.known_infohashes().len(), 1);
    assert_eq!(s.route_inbound_peer(hash, false), InboundRoute::Adopt(id));
    assert_eq!(s.route_inbound_peer(hash, true), InboundRoute::Disconnect);
    assert_eq!(
        s.route_inbound_peer(Id20([0u8; 20]), false),
        InboundRoute::Disconnect
    );
    assert_eq!(s.route_local_peer(hash), Some(id));

    // Added again, the torrent is checked first, and then found to be managed.
    let mut meta = parse_torrent(&torrent_file("one.bin", false)).unwrap();
    assert!(matches!(
        s.add_from_meta(&mut meta, &opts, false),
        AddStep::Check(n) if n == id
    ));
    assert!(matches!(
        s.add_from_meta(&mut meta, &opts, true),
        AddStep::Respond(AddTorrentResponse::AlreadyManaged(n)) if n == id
    ));
}

#[test]
fn torrents_under_way_are_busy_until_they_fail() {
    let mut s = session();
    let opts = AddTorrentOptions::default();
    let mut meta = parse_torrent(&torrent_file("one.bin", false)).unwrap();
    let plan = match s.add_from_meta(&mut meta, &opts, false) {
        AddStep::Start(plan) => plan,
        other => panic!("expected a plan, got {other:?}"),
    };
    assert!(matches!(
        s.add_from_meta(&mut meta, &opts, false),
        AddStep::Busy
    ));
    s.add_failed(&meta.info_hash, plan.id);
    assert_eq!(s.count(), 0);
    assert!(matches!(
        s.add_from_meta(&mut meta, &opts, false),
        AddStep::Start(_)
    ));
}

#[test]
fn listing_reserves_nothing() {
    let mut s = session();
    let mut opts = AddTorrentOptions::default();
    opts.list_only = true;
    let mut meta = parse_torrent(&folder_file("docs")).unwrap();
    match s.add_from_meta(&mut meta, &opts, false) {
        AddStep::Respond(AddTorrentResponse::ListOnly(list)) => {
            let names: Vec<&str> = list.files.iter().map(|f| f.filename.as_str()).collect();
            assert_eq!(names, vec!["a.txt", "sub/b.txt"]);
            assert_eq!(list.info.name, "docs");
            assert_eq!(list.info.piece_length, meta.info.piece_length);
            assert_eq!(list.info.pieces, meta.info.pieces);
            assert_eq!(list.info.files.len(), 2);
            assert_eq!(list.info.files[1].path, vec!["sub", "b.txt"]);
            assert_eq!(list.info.files[1].length, meta.info.files[1].length);
            assert!(!list.info.private);
            assert!(!list.info.single_file_mode);
        }
        other => panic!("expected a list, got {other:?}"),
    }
    opts.list_only = false;
    assert!(matches!(
        s.add_from_meta(&mut meta, &opts, false),
        AddStep::Start(_)
    ));
}

#[test]
fn plans_follow_the_options() {
    let mut s = session();
    let opts = AddTorrentOptions {
        output_folder: Some("/elsewhere".to_string()),
        trackers: Some(vec!["udp://a:1, udp://b:2".to_string()]),
        only_files: Some(vec![1]),
        ..AddTorrentOptions::default()
    };
    let mut meta = parse_torrent(&folder_file("docs")).unwrap();
    match s.add_from_meta(&mut meta, &opts, false) {
        AddStep::Start(plan) => {
            assert_eq!(plan.root_dir.base, "/elsewhere");
            assert_eq!(plan.root_dir.subfolder.as_deref(), Some("docs"));
            assert_eq!(plan.only_files, Some(vec![1]));
            assert_eq!(plan.lengths.total_pieces(), 1);
        }
        other => panic!("expected a plan, got {other:?}"),
    }
    assert_eq!(
        meta.announce_list.last(),
        Some(&vec!["udp://a:1".to_string(), "udp://b:2".to_string()])
    );
}

#[test]
fn torrents_without_contents_are_refused() {
    let mut s = session();
    let mut meta = parse_torrent(&torrent_file("one.bin", false)).unwrap();
    meta.info.piece_length = 0;
    let step = s.add_from_meta(&mut meta, &AddTorrentOptions::default(), false);
    assert!(matches!(
        step,
        AddStep::BadLengths(LengthsError::ZeroPieceLength)
    ));
    assert_eq!(s.known_infohashes().len(), 0);
}

#[test]
fn links_are_resolved_before_they_are_added() {
    let mut s = session();
    let opts = AddTorrentOptions {
        trackers: Some(vec!["udp://a:1".to_string()]),
        ..AddTorrentOptions::default()
    };
    match s.add_torrent(AddTorrent::Url("magnet:?xt=urn:btih:00".to_string()), &opts) {
        AddTorrentStep::Resolve(plan) => {
            assert_eq!(plan.url, "magnet:?xt=urn:btih:00");
            assert_eq!(plan.trackers, vec!["udp://a:1".to_string()]);
            assert_eq!(plan.listen_port, 43123);
        }
        other => panic!("expected a plan, got {other:?}"),
    }
    assert!(matches!(
        s.add_torrent(AddTorrent::TorrentFileBytes(Bytes::from_static(b"x")), &opts),
        AddTorrentStep::Invalid(_)
    ));
}

#[test]
fn first_peers_come_from_trackers_first() {
    let a = addr("10.0.0.1:1");
    let b = addr("10.0.0.2:1");
    assert_eq!(usable_peers(&vec![a, b], &vec![a], false), vec![b]);
    assert!(usable_peers(&vec![a, b], &vec![a], true).is_empty());
    let mut opts = AddTorrentOptions::default();
    add_resolved_peers(&mut opts, &vec![a, b], &vec![a], false);
    let mut s = session();
    s.set_dht(Some(3));
    assert!(s.dht_active());
    let mut meta = parse_torrent(&torrent_file("secret.bin", true)).unwrap();
    let plan = match s.add_from_meta(&mut meta, &opts, false) {
        AddStep::Start(plan) => plan,
        other => panic!("expected a plan, got {other:?}"),
    };
    assert_eq!(plan.dht, None);
    let torrent = started(plan, &meta);
    let follow = s.add_started(torrent, &meta, &opts);
    assert_eq!(
        follow.peers,
        vec![(a, PeerSource::Tracker), (b, PeerSource::Manual)]
    );
    assert_eq!(follow.private_hashes, vec![meta.info_hash]);
    assert_eq!(follow.announce_locally, None);

    let mut open = parse_torrent(&torrent_file("open.bin", false)).unwrap();
    assert!(matches!(
        s.add_from_meta(&mut open, &AddTorrentOptions::default(), false),
        AddStep::Start(plan) if plan.dht == Some(3)
    ));
}

#[test]
fn finished_torrents_and_lost_files_are_checked() {
    assert!(needs_rescan(true, 0, None));
    assert!(!needs_rescan(false, 0, Some(false)));
    assert!(needs_rescan(false, 1, Some(false)));
    assert!(!needs_rescan(false, 1, Some(true)));
    assert!(!needs_rescan(false, 1, None));
}

// ---- removal ----

#[test]
fn deleting_takes_only_what_belongs_to_the_torrent() {
    let mut s = session();
    let opts = AddTorrentOptions::default();
    let (single, _) = add(&mut s, torrent_file("one.bin", false), &opts);
    let (folder, hash) = add(&mut s, folder_file("docs"), &opts);
    let flat = AddTorrentOptions {
        create_subfolder: false,
        ..AddTorrentOptions::default()
    };
    let (loose, _) = add(&mut s, folder_file("loose"), &flat);

    let one = deletions(s.get(TorrentIdOrHash::Id(single)).unwrap(), true).unwrap();
    assert_eq!(one.len(), 1);
    assert_eq!(one[0].path, vec!["one.bin".to_string()]);
    assert!(!one[0].whole_directory);
    let all = deletions(s.get(TorrentIdOrHash::Id(folder)).unwrap(), true).unwrap();
    assert_eq!(all.len(), 1);
    assert!(all[0].whole_directory);
    let each = deletions(s.get(TorrentIdOrHash::Id(loose)).unwrap(), true).unwrap();
    assert_eq!(each.len(), 2);
    assert_eq!(
        each[1].path,
        vec!["sub".to_string(), "b.txt".to_string()]
    );
    assert!(each.iter().all(|d| !d.whole_directory));
    assert!(deletions(s.get(TorrentIdOrHash::Id(loose)).unwrap(), false)
        .map_or(true, |d| d.is_empty()));

    let gone = s.delete(TorrentIdOrHash::Hash(hash)).unwrap();
    assert_eq!(gone.forget_locally, Some(hash));
    assert_eq!(s.count(), 2);
    assert!(s.get(TorrentIdOrHash::Id(folder)).is_none());
    assert!(s.delete(TorrentIdOrHash::Hash(hash)).is_none());
}

#[test]
fn file_names_that_lead_out_are_not_deleted() {
    let mut meta = parse_torrent(&folder_file("docs")).unwrap();
    meta.info.name = String::new();
    let mut files = meta.info.iter_file_details();
    files[0].filename = "../outside".to_string();
    let torrent = ManagedTorrent {
        id: 1,
        info_hash: meta.info_hash,
        info_hash_v2: None,
        meta_version: Some(MetaVersion::V1),
        advertise_v2: false,
        create_subfolder: true,
        root_dir: RootDir { base: "/d".to_string(), subfolder: None },
        p2p_proxy_is_task_override: false,
        metadata: Some(TorrentFacts {
            private: false,
            name: String::new(),
            single_file_mode: false,
            files,
            announced: vec![],
        }),
    };
    let list = deletions(&torrent, true).unwrap();
    assert_eq!(list.len(), 1);
    assert_eq!(list[0].path, vec!["sub".to_string(), "b.txt".to_string()]);
}

// ---- change of route ----

fn route() -> Option<P2pRoute> {
    Some(p2p_route("socks5://p:1", "", "", ""))
}

#[test]
fn every_torrent_is_told_of_a_new_route() {
    let mut s = session();
    add(&mut s, torrent_file("one.bin", false), &AddTorrentOptions::default());
    let own = AddTorrentOptions {
        p2p_proxy: route(),
        p2p_proxy_is_task_override: true,
        ..AddTorrentOptions::default()
    };
    add(&mut s, torrent_file("two.bin", true), &own);
    let (mut swap, hashes) = s.reconfigure_p2p_proxy(route(), Some(4));
    assert!(s.dht_active());
    assert_eq!(hashes.len(), 1);
    let mut told = 0;
    loop {
        match swap.step() {
            SwapStep::Tell { id, replace_proxy, restore } => {
                assert!(!restore);
                let own = s.get(TorrentIdOrHash::Id(id)).unwrap();
                assert_eq!(replace_proxy, !own.p2p_proxy_is_task_override);
                told += 1;
                swap.on_answer();
            }
            other => {
                assert_eq!(other, SwapStep::Moved);
                break;
            }
        }
    }
    assert_eq!(told, 2);
    s.rollback_p2p_route(&swap);
    assert!(s.dht_active());
}

#[test]
fn a_torrent_that_cannot_be_moved_takes_the_route_back() {
    let mut s = session();
    let (id, _) = add(&mut s, torrent_file("one.bin", false), &AddTorrentOptions::default());
    let (mut swap, _) = s.reconfigure_p2p_proxy(route(), Some(4));
    swap.on_fault(SwapFault::NotSent(id));
    loop {
        match swap.step() {
            SwapStep::Tell { restore, .. } => {
                assert!(restore);
                swap.on_answer();
            }
            other => {
                assert_eq!(other, SwapStep::Restored(SwapFault::NotSent(id)));
                break;
            }
        }
    }
    s.rollback_p2p_route(&swap);
    assert!(!s.dht_active());
}

#[test]
fn blocked_peers_are_counted_together() {
    assert_eq!(
        total_blocked(&vec![Some((1, 2)), None, Some((3, usize::MAX))]),
        (4, usize::MAX)
    );
}
