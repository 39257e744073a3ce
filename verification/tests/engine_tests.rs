use base64::Engine;
use risuko_bt::bencode::{encode_to_vec, Value as Bencoded};
use risuko_bt::engine::json::{Object, Value};
use risuko_bt::engine::magnet_cache::{
    CacheLookup, MagnetMetaCache, ResolvedMagnetMeta, MAGNET_META_CACHE_TTL_MS,
    MAGNET_ROUTE_CHANGED,
};
use risuko_bt::engine::options::TASK_P2P_PROXY_OVERRIDE_KEY;
use risuko_bt::engine::thunder::{
    decode_thunder_uri, is_magnet_uri, is_thunder_uri, open_envelope, read_payload,
};
use risuko_bt::engine::torrent::{
    add_options, add_resolved, build_announce_list, encryption_policy_from_str, extract_handle,
    inspect_magnet, magnet_plan, metadata_info, metadata_path, p2p_proxy_from_options,
    parse_select_files, parse_trackers, session_options, BtTuning, LiveReport, Magnet,
    PeerSnapshot, ProgressReport,
};
use risuko_bt::engine::torrent_engine::magnets::{ListStep, MagnetFault, MagnetStep};
use risuko_bt::engine::torrent_engine::{EngineFault, TorrentEngine};
use risuko_bt::meta::hash::{Id20, Id32};
use risuko_bt::meta::metainfo::{parse_torrent, TorrentMeta};
use risuko_bt::net::SocketAddr;
use risuko_bt::peer::connection::EncryptionPolicy;
use risuko_bt::session::adding::{AddStep, AddTorrentResponse, AddTorrentStep, TorrentPlan};
use risuko_bt::session::registry::{ManagedTorrent, TorrentFacts};
use risuko_bt::session::start::{SessionOptions, UpnpStatus};
use risuko_bt::session::{Session, TorrentCommand};

fn text(s: &str) -> Value {
    Value::Text(s.to_string())
}

fn map(entries: Vec<(&str, Value)>) -> Object {
    let mut m = Object::new();
    for (k, v) in entries {
        m.insert(k.to_string(), v);
    }
    m
}

fn resolved_meta(byte: u8) -> ResolvedMagnetMeta {
    ResolvedMagnetMeta {
        bytes: vec![byte],
        peers: vec![],
        tracker_peers: vec![],
    }
}

fn peer(n: u8) -> SocketAddr {
    SocketAddr::v4([10, 0, 0, n], 6881)
}

fn torrent_file(name: &str, private: bool) -> Vec<u8> {
    let mut info = vec![
        (b"length".to_vec(), Bencoded::Int(40_000)),
        (b"name".to_vec(), Bencoded::Bytes(name.as_bytes().to_vec())),
        (b"piece length".to_vec(), Bencoded::Int(16_384)),
        (b"pieces".to_vec(), Bencoded::Bytes(vec![0; 60])),
    ];
    if private {
        info.push((b"private".to_vec(), Bencoded::Int(1)));
    }
    encode_to_vec(&Bencoded::Dict(vec![
        (
            b"announce".to_vec(),
            Bencoded::Bytes(b"http://tracker/announce".to_vec()),
        ),
        (b"comment".to_vec(), Bencoded::Bytes(b"note".to_vec())),
        (b"info".to_vec(), Bencoded::Dict(info)),
    ]))
}

fn engine() -> TorrentEngine {
    let session = Session::new(
        "/downloads".to_string(),
        SessionOptions::default(),
        SocketAddr::v4([0, 0, 0, 0], 43123),
    );
    TorrentEngine::new("/downloads".to_string(), session)
}

fn started(plan: TorrentPlan, meta: &TorrentMeta) -> ManagedTorrent {
    ManagedTorrent {
        id: plan.id,
        info_hash: meta.info_hash,
        info_hash_v2: meta.info_hash_v2,
        meta_version: Some(meta.meta_version),
        advertise_v2: plan.advertise_v2,
        create_subfolder: plan.create_subfolder,
        root_dir: plan.root_dir,
        p2p_proxy_is_task_override: plan.p2p_proxy_is_task_override,
        metadata: Some(TorrentFacts {
            private: meta.info.private,
            name: meta.info.name.clone(),
            single_file_mode: meta.info.single_file_mode,
            files: meta.info.iter_file_details(),
            announced: meta.announce_infohashes(),
        }),
    }
}

/// Add a torrent to the engine and have it started.
fn add(e: &mut TorrentEngine, file: Vec<u8>) -> (usize, Id20) {
    let (opts, step) = e
        .add_torrent_bytes_with_peers(file, &Object::new(), vec![], vec![])
        .unwrap();
    match step {
        AddTorrentStep::Step(meta, AddStep::Start(plan)) => {
            let id = plan.id;
            let torrent = started(plan, &meta);
            let session = e.session_mut().unwrap();
            let follow = session.add_started(torrent, &meta, &opts);
            let handle = extract_handle(&follow.response, session).unwrap();
            assert_eq!(handle.id, id);
            assert_eq!(handle.info_hash, Some(meta.info_hash.to_hex()));
            assert_eq!(handle.meta_version.as_deref(), Some("v1"));
            (id, meta.info_hash)
        }
        other => panic!("expected a torrent to start, got {other:?}"),
    }
}

// ---- magnet cache ----

#[test]
fn magnet_cache_singleflights_concurrent_callers() {
    let mut cache = MagnetMetaCache::new();
    let key = Id20([7; 20]);

    let generation = match cache.get_or_resolve(key, 0) {
        CacheLookup::Start(generation) => generation,
        other => panic!("expected to start, got {other:?}"),
    };
    assert!(matches!(cache.get_or_resolve(key, 0), CacheLookup::Join));

    let told = cache.finish(key, generation, Ok(resolved_meta(42)), 25);
    assert_eq!(told.unwrap().bytes, vec![42]);

    match cache.get_or_resolve(key, 26) {
        CacheLookup::Hit(meta) => assert_eq!(meta.bytes, vec![42]),
        other => panic!("expected a hit, got {other:?}"),
    }
}

#[test]
fn magnet_cache_failure_does_not_poison_retry() {
    let mut cache = MagnetMetaCache::new();
    let key = Id20([9; 20]);

    let generation = match cache.get_or_resolve(key, 0) {
        CacheLookup::Start(generation) => generation,
        other => panic!("expected to start, got {other:?}"),
    };
    let error = cache
        .finish(key, generation, Err("first attempt failed".to_string()), 1)
        .unwrap_err();
    assert_eq!(error, "first attempt failed");

    assert!(matches!(
        cache.get_or_resolve(key, 2),
        CacheLookup::Start(g) if g == generation
    ));
    let retried = cache
        .finish(key, generation, Ok(resolved_meta(11)), 3)
        .unwrap();
    assert_eq!(retried.bytes, vec![11]);
}

#[test]
fn magnet_cache_invalidation_cancels_old_route_and_clears_entries() {
    let mut cache = MagnetMetaCache::new();
    let key = Id20([3; 20]);
    let old = match cache.get_or_resolve(key, 0) {
        CacheLookup::Start(generation) => generation,
        other => panic!("expected to start, got {other:?}"),
    };
    assert_eq!(cache.invalidate(), vec![key]);
    let error = cache
        .finish(key, old, Ok(resolved_meta(1)), 1)
        .unwrap_err();
    assert!(error.contains("P2P proxy profile changed"));

    let new = match cache.get_or_resolve(key, 2) {
        CacheLookup::Start(generation) => generation,
        other => panic!("expected to start, got {other:?}"),
    };
    let refreshed = cache.finish(key, new, Ok(resolved_meta(2)), 3).unwrap();
    assert_eq!(refreshed.bytes, vec![2]);
}

#[test]
fn delayed_resolver_cannot_adopt_the_new_route_generation() {
    let mut cache = MagnetMetaCache::new();
    let old_generation = cache.route_snapshot();

    // A resolver that was started before the change, then delayed until after it.
    cache.invalidate();
    assert!(!cache.is_current(old_generation));

    let error = cache
        .route_snapshot_for(old_generation)
        .expect_err("old resolver must not adopt the new route token");
    assert_eq!(error, MAGNET_ROUTE_CHANGED);

    let new_generation = cache.route_snapshot();
    assert_ne!(new_generation, old_generation);
    assert!(cache.is_current(new_generation));
}

#[test]
fn kept_metadata_expires() {
    let mut cache = MagnetMetaCache::new();
    let key = Id20([5; 20]);
    let generation = cache.route_snapshot();
    cache.get_or_resolve(key, 0);
    cache.finish(key, generation, Ok(resolved_meta(1)), 10).unwrap();
    assert!(matches!(
        cache.get_or_resolve(key, 10 + MAGNET_META_CACHE_TTL_MS - 1),
        CacheLookup::Hit(_)
    ));
    assert!(matches!(
        cache.get_or_resolve(key, 10 + MAGNET_META_CACHE_TTL_MS),
        CacheLookup::Start(_)
    ));
}

#[test]
fn what_was_found_is_kept_while_other_links_come_and_go() {
    let mut cache = MagnetMetaCache::new();
    let key = Id20([6; 20]);
    let other = Id20([8; 20]);
    let generation = match cache.get_or_resolve(key, 100) {
        CacheLookup::Start(generation) => generation,
        answer => panic!("expected to start, got {answer:?}"),
    };
    assert!(matches!(cache.get_or_resolve(other, 5_000), CacheLookup::Start(_)));
    assert!(matches!(cache.get_or_resolve(key, 300_000), CacheLookup::Join));
    cache.finish(key, generation, Ok(resolved_meta(6)), 400_000).unwrap();
    cache
        .finish(other, generation, Err("no peers".to_string()), 400_001)
        .unwrap_err();
    assert!(matches!(cache.get_or_resolve(other, 500_000), CacheLookup::Start(_)));
    match cache.get_or_resolve(key, 519_999) {
        CacheLookup::Hit(meta) => assert_eq!(meta.bytes, vec![6]),
        answer => panic!("expected a hit, got {answer:?}"),
    }
    assert!(matches!(cache.get_or_resolve(key, 520_000), CacheLookup::Start(_)));
}

#[test]
fn being_given_what_was_found_does_not_renew_it() {
    let mut cache = MagnetMetaCache::new();
    let key = Id20([2; 20]);
    let generation = cache.route_snapshot();
    cache.get_or_resolve(key, 0);
    cache.finish(key, generation, Ok(resolved_meta(2)), 0).unwrap();
    for asked in [1_000, 60_000, 100_000, 119_999] {
        assert!(matches!(cache.get_or_resolve(key, asked), CacheLookup::Hit(_)));
    }
    assert!(matches!(cache.get_or_resolve(key, 120_000), CacheLookup::Start(_)));
}

#[test]
fn what_was_found_is_kept_to_the_end_of_the_clock() {
    let mut cache = MagnetMetaCache::new();
    let key = Id20([4; 20]);
    let generation = cache.route_snapshot();
    cache.get_or_resolve(key, u64::MAX - 2);
    cache.finish(key, generation, Ok(resolved_meta(4)), u64::MAX - 1).unwrap();
    assert!(matches!(cache.get_or_resolve(key, u64::MAX), CacheLookup::Hit(_)));
}

// ---- options of a task ----

#[test]
fn parse_trackers_splits_newlines_and_commas() {
    let opts = map(vec![(
        "bt-tracker",
        text("udp://a:1/announce\n\nudp://b:2/announce,http://c:3/announce\r\nudp://a:1/announce"),
    )]);
    assert_eq!(
        parse_trackers(&opts),
        vec![
            "udp://a:1/announce".to_string(),
            "udp://b:2/announce".to_string(),
            "http://c:3/announce".to_string(),
        ]
    );
}

#[test]
fn encryption_policy_known_values() {
    assert!(matches!(
        encryption_policy_from_str(Some("plaintext")),
        EncryptionPolicy::PlaintextOnly
    ));
    assert!(matches!(
        encryption_policy_from_str(Some("prefer")),
        EncryptionPolicy::Prefer
    ));
    assert!(matches!(
        encryption_policy_from_str(Some("require")),
        EncryptionPolicy::RequireEncryption
    ));
}

#[test]
fn encryption_policy_unknown_falls_back_to_prefer() {
    assert!(matches!(
        encryption_policy_from_str(None),
        EncryptionPolicy::Prefer
    ));
    assert!(matches!(
        encryption_policy_from_str(Some("garbage")),
        EncryptionPolicy::Prefer
    ));
    // case-sensitive: uppercase is not recognised
    assert!(matches!(
        encryption_policy_from_str(Some("REQUIRE")),
        EncryptionPolicy::Prefer
    ));
}

#[test]
fn selected_files_count_from_one() {
    let opts = |s: &str| map(vec![("select-file", text(s))]);
    assert_eq!(
        parse_select_files(&opts(" 1, 3 ,x,0,7")),
        Some(vec![0, 2, 6])
    );
    assert_eq!(parse_select_files(&opts("")), None);
    assert_eq!(parse_select_files(&Object::new()), None);
}

#[test]
fn tasks_say_how_they_are_added() {
    let opts = map(vec![
        ("dir", text("/task")),
        ("bt-create-subfolder", Value::Bool(false)),
        ("p2p-proxy", text(" socks5://p:1 ")),
        (TASK_P2P_PROXY_OVERRIDE_KEY, Value::Bool(true)),
    ]);
    let add = add_options(&opts, "/downloads", vec![peer(1)], vec![peer(2)]);
    assert_eq!(add.output_folder.as_deref(), Some("/task"));
    assert!(!add.create_subfolder);
    assert!(add.trackers.is_none());
    assert!(add.p2p_proxy_is_task_override);
    assert_eq!(add.p2p_proxy.unwrap().tcp.unwrap().server, "socks5://p:1");
    assert_eq!(add.initial_peers, vec![peer(1)]);
    assert!(p2p_proxy_from_options(&Object::new()).is_none());

    let key = Some(Id20([1; 20]));
    assert_eq!(magnet_plan(&opts, key).cached, None);
    assert!(magnet_plan(&opts, key).own_utp);
    assert_eq!(magnet_plan(&Object::new(), key).cached, key);
}

#[test]
fn private_links_start_with_their_trackers_peers() {
    for (private, rest) in [(false, vec![peer(3)]), (true, vec![])] {
        let resolved = ResolvedMagnetMeta {
            bytes: torrent_file("x.bin", private),
            peers: vec![peer(1), peer(3)],
            tracker_peers: vec![peer(1)],
        };
        let add = add_resolved(&Object::new(), "/d", &resolved).unwrap();
        assert_eq!(add.initial_tracker_peers, vec![peer(1)]);
        assert_eq!(add.initial_peers, rest);
    }
    assert!(add_resolved(&Object::new(), "/d", &resolved_meta(0)).is_err());
}

#[test]
fn session_options_follow_the_tuning() {
    let tuning = BtTuning {
        max_outstanding_per_peer: Some(9),
        max_peers_per_torrent: None,
        upload_rate_limit: Some(1000),
        enable_upnp: None,
        upnp_lease: Some(60),
        encryption_policy: Some("require".to_string()),
        listen_ipv6: None,
        enable_lsd: Some(false),
        p2p_proxy: None,
    };
    let opts = session_options(&tuning);
    let listen = opts.listen.unwrap();
    assert_eq!(listen.listen_addr, Some(SocketAddr::v4([0, 0, 0, 0], 0)));
    assert!(listen.enable_upnp_port_forwarding);
    assert_eq!(listen.upnp_lease, Some(60));
    assert!(!listen.listen_ipv6);
    assert_eq!(opts.max_outstanding_requests_per_peer, Some(9));
    assert_eq!(opts.upload_rate_limit, Some(1000));
    assert!(opts.disable_local_service_discovery);
    assert!(!opts.disable_dht);
    assert_eq!(opts.encryption, EncryptionPolicy::RequireEncryption);
}

#[test]
fn metadata_is_saved_only_when_asked_for() {
    let file = torrent_file("x.bin", false);
    let meta = parse_torrent(&file).unwrap();
    assert!(metadata_path(&Object::new(), "/d", &file).is_none());
    let opts = map(vec![("bt-save-metadata", Value::Bool(true))]);
    assert_eq!(
        metadata_path(&opts, "/d", &file),
        Some((
            "/d".to_string(),
            format!("{}.torrent", meta.info_hash.to_hex())
        ))
    );
    assert!(metadata_path(&opts, "/d", b"x").is_none());
}

#[test]
fn torrents_are_described() {
    let meta = parse_torrent(&torrent_file("x.bin", false)).unwrap();
    assert_eq!(
        build_announce_list(&meta),
        vec![vec!["http://tracker/announce".to_string()]]
    );
    let info = metadata_info(&meta);
    assert_eq!(info.piece_length, 16_384);
    assert_eq!(info.num_pieces, 3);
    assert_eq!(info.comment.as_deref(), Some("note"));
    let link = inspect_magnet(&Magnet {
        info_hash: Id20([0xab; 20]),
        info_hash_v2: Some(Id32([1; 32])),
        display_name: Some("x".to_string()),
    });
    assert_eq!(link.info_hash, "ab".repeat(20));
    assert_eq!(link.info_hash_v2, Some("01".repeat(32)));
    assert_eq!(link.display_name.as_deref(), Some("x"));
}

// ---- the engine ----

#[test]
fn the_engine_reports_its_torrents() {
    let mut e = engine();
    let file = torrent_file("x.bin", false);
    let (id, hash) = add(&mut e, file.clone());
    assert_eq!(e.list_managed_torrents(), vec![(id, hash.to_hex())]);
    let health = e
        .health_snapshot(
            UpnpStatus { enabled: true, mapping_count: 1, discovery_attempts: 2 },
            true,
            8,
        )
        .unwrap();
    assert_eq!(health.listen_port, 43123);
    assert_eq!(health.torrents, 1);
    assert_eq!(health.dht_nodes, 8);
    assert!(!health.dht_active);

    let progress = || ProgressReport {
        total_bytes: 40_000,
        progress_bytes: 7,
        uploaded_bytes: 3,
        finished: false,
        file_progress: vec![7],
    };
    let snapshot = |seeder: bool| PeerSnapshot {
        addr: peer(1),
        bitfield: vec![],
        am_choking: false,
        am_interested: false,
        peer_choking: false,
        peer_interested: false,
        seeder,
        peer_id: None,
        client: None,
        downloaded: 0,
        uploaded: 0,
        dl_speed: 0,
        up_speed: 0,
        incoming: false,
        snubbed: false,
        optimistic_unchoke: false,
    };
    let live = LiveReport {
        download_speed: 5,
        upload_speed: 6,
        num_peers: 3,
        peers: vec![snapshot(true), snapshot(false), snapshot(true)],
    };
    let meta = parse_torrent(&file).unwrap();
    let stats = e
        .get_torrent_stats(
            id,
            progress(),
            Some(live),
            Some("x.bin".to_string()),
            "/downloads".to_string(),
            Some(&meta),
        )
        .unwrap();
    assert_eq!(stats.num_seeders, 2);
    assert_eq!(stats.download_speed, 5);
    assert!(stats.single_file_mode);
    assert_eq!(stats.file_details.unwrap()[0].path, "x.bin");
    assert!(e
        .get_torrent_stats(id + 1, progress(), None, None, String::new(), None)
        .is_none());

    assert_eq!(e.remove(id + 1).unwrap_err(), EngineFault::UnknownTorrent);
    assert_eq!(e.remove(id).unwrap().forget_locally, Some(hash));
    assert!(e.list_managed_torrents().is_empty());
    assert!(e.shutdown().is_some());
    assert_eq!(e.remove(id).unwrap_err(), EngineFault::NotInitialized);
    assert!(e.reconfigure_p2p_proxy(None, None).is_err());
}

#[test]
fn links_are_resolved_once_and_added_by_their_route() {
    let mut e = engine();
    let file = torrent_file("x.bin", false);
    let hash = parse_torrent(&file).unwrap().info_hash;
    let none = Object::new();
    let generation = match e.resolve_and_add_magnet(&none, Some(hash), 0).unwrap() {
        MagnetStep::Resolve(generation, plan, port) => {
            assert_eq!(port, 43123);
            assert_eq!(plan.cached, Some(hash));
            generation
        }
        other => panic!("expected to resolve, got {other:?}"),
    };
    assert!(matches!(
        e.resolve_and_add_magnet(&none, Some(hash), 0).unwrap(),
        MagnetStep::Wait(g, k) if g == generation && k == hash
    ));
    let found = ResolvedMagnetMeta {
        bytes: file.clone(),
        peers: vec![peer(1)],
        tracker_peers: vec![],
    };
    let meta = e
        .magnet_resolved(generation, Some(hash), Ok(found), 5)
        .unwrap();
    assert_eq!(e.resolved_files(generation, &meta).unwrap().len(), 1);
    assert!(matches!(
        e.resolve_magnet(&none, Some(hash), 6).unwrap(),
        ListStep::Step(MagnetStep::Resolved(_, _))
    ));
    let (opts, step) = e.add_resolved_magnet(generation, &meta, &none).unwrap();
    assert_eq!(opts.initial_peers, vec![peer(1)]);
    assert!(matches!(
        step,
        AddTorrentStep::Step(_, AddStep::Start(_))
    ));

    assert!(e.invalidate_magnet_resolutions().is_empty());
    assert_ne!(e.magnet_route_generation(), generation);
    assert!(matches!(
        e.add_resolved_magnet(generation, &meta, &none),
        Err(MagnetFault::Engine(EngineFault::RouteChanged))
    ));
    assert!(matches!(
        e.resolve_and_add_magnet_at_generation(&none, Some(hash), 7, generation),
        Err(EngineFault::RouteChanged)
    ));
    assert_eq!(
        e.magnet_resolved(generation, None, Ok(resolved_meta(1)), 8)
            .unwrap_err(),
        MAGNET_ROUTE_CHANGED
    );
}

#[test]
fn managed_links_are_listed_at_once() {
    let mut e = engine();
    let (_, hash) = add(&mut e, torrent_file("x.bin", false));
    match e.resolve_magnet(&Object::new(), Some(hash), 0).unwrap() {
        ListStep::Files(files) => {
            assert_eq!(files[0].path, "x.bin");
            assert_eq!(files[0].length, 40_000);
        }
        other => panic!("expected the files, got {other:?}"),
    }
    assert!(matches!(
        e.session_mut().map(|s| s.count()),
        Some(1)
    ));
    let listed = AddTorrentResponse::ListOnly(risuko_bt::session::adding::ListOnlyResponse {
        info: parse_torrent(&torrent_file("y.bin", false)).unwrap().info,
        files: vec![],
    });
    assert!(extract_handle(&listed, e.session_mut().unwrap()).is_none());
}

// ---- links ----

#[test]
fn decodes_thunder_magnet_and_html_query_separator() {
    let encoded = base64::engine::general_purpose::STANDARD
        .encode("AAmagnet:?xt=urn:btih:cab507494d02ebb1178b38f2e9d7be299c86b862&amp;dn=ExampleZZ");
    let uri = decode_thunder_uri(&format!("THUNDER://{encoded}"));
    assert_eq!(
        uri.as_deref(),
        Some("magnet:?xt=urn:btih:cab507494d02ebb1178b38f2e9d7be299c86b862&dn=Example")
    );
}

#[test]
fn decodes_thunder_numeric_ampersand_entities_and_trailing_punctuation() {
    let encoded = base64::engine::general_purpose::STANDARD.encode(
        "AAmagnet:?xt=urn:btih:cab507494d02ebb1178b38f2e9d7be299c86b862&#x000026;dn=ExampleZZ",
    );
    assert_eq!(
        decode_thunder_uri(&format!("thunder://{encoded}).")),
        Some(
            "magnet:?xt=urn:btih:cab507494d02ebb1178b38f2e9d7be299c86b862&dn=Example".to_string()
        )
    );
}

#[test]
fn decodes_thunder_ampersands_after_existing_query_parameters() {
    let encoded = base64::engine::general_purpose::STANDARD.encode(
        "AAmagnet:?xt=urn:btih:cab507494d02ebb1178b38f2e9d7be299c86b862&tr=udp%3A%2F%2Ftracker.example%3A80%2Fannounce&amp;dn=ExampleZZ",
    );
    assert_eq!(
        decode_thunder_uri(&format!("thunder://{encoded}")),
        Some(
            "magnet:?xt=urn:btih:cab507494d02ebb1178b38f2e9d7be299c86b862&tr=udp%3A%2F%2Ftracker.example%3A80%2Fannounce&dn=Example"
                .to_string()
        )
    );
}

#[test]
fn preserves_unknown_thunder_entity_with_nested_ampersand() {
    let encoded = base64::engine::general_purpose::STANDARD
        .encode("AAmagnet:?xt=urn:btih:cab507494d02ebb1178b38f2e9d7be299c86b862&foo&amp;barZZ");
    assert_eq!(
        decode_thunder_uri(&format!("thunder://{encoded}")),
        Some(
            "magnet:?xt=urn:btih:cab507494d02ebb1178b38f2e9d7be299c86b862&foo&amp;bar".to_string()
        )
    );
}

#[test]
fn decodes_thunder_payload_with_partial_padding() {
    let uri = "magnet:?xt=urn:btih:cab507494d02ebb1178b38f2e9d7be299c86b862&dn=Examplex";
    let encoded = base64::engine::general_purpose::STANDARD.encode(format!("AA{uri}ZZ"));
    assert!(encoded.ends_with("=="));
    let partial = encoded.strip_suffix('=').unwrap();
    let unpadded = encoded.trim_end_matches('=');

    assert_eq!(
        decode_thunder_uri(&format!("thunder://{partial}")),
        Some(uri.to_string())
    );
    assert_eq!(
        decode_thunder_uri(&format!("thunder://{unpadded}")),
        Some(uri.to_string())
    );
}

#[test]
fn decodes_thunder_payload_with_mixed_base64_alphabets() {
    let uri = "magnet:?xt=urn:btih:cab507494d02ebb1178b38f2e9d7be299c86b862&dn=\u{0BFF}";
    let encoded = base64::engine::general_purpose::STANDARD.encode(format!("AA{uri}ZZ"));
    assert!(encoded.contains('+'));
    assert!(encoded.contains('/'));
    let mixed = encoded.replacen('+', "-", 1);

    assert_eq!(
        decode_thunder_uri(&format!("thunder://{mixed}")),
        Some(uri.to_string())
    );

    let url_safe = encoded.replacen('/', "_", 1);
    assert_eq!(
        decode_thunder_uri(&format!("thunder://{url_safe}")),
        Some(uri.to_string())
    );
}

#[test]
fn wrapped_links_come_out_again() {
    for link in ["https://mirror.example/a", "x", "ftp://h/\u{bff}\u{e9}", "AAZZ", "a b;c"] {
        let encoded = base64::engine::general_purpose::STANDARD.encode(format!("AA{link}ZZ"));
        let for_links = encoded.replace('+', "-").replace('/', "_");
        for scheme in ["thunder", "THUNDER", "tHunDer"] {
            for body in [
                encoded.as_str(),
                encoded.trim_end_matches('='),
                for_links.as_str(),
                for_links.trim_end_matches('='),
            ] {
                for tail in ["", ")", ".", "))..)"] {
                    assert_eq!(
                        decode_thunder_uri(&format!("{scheme}://{body}{tail}")),
                        Some(link.to_string())
                    );
                }
            }
        }
    }
}

#[test]
fn rejects_thunder_payload_with_undocumented_trailing_characters() {
    let encoded = base64::engine::general_purpose::STANDARD
        .encode("AAmagnet:?xt=urn:btih:cab507494d02ebb1178b38f2e9d7be299c86b862ZZ");

    assert_eq!(decode_thunder_uri(&format!("thunder://{encoded}!")), None);
}

#[test]
fn rejects_thunder_payload_without_envelope() {
    let encoded = base64::engine::general_purpose::STANDARD.encode("ABC");
    assert_eq!(decode_thunder_uri(&format!("thunder://{encoded}")), None);
}

#[test]
fn link_schemes_ignore_case() {
    assert!(is_magnet_uri("MAGNET:?xt=1"));
    assert!(!is_magnet_uri("http://magnet:"));
    assert!(is_thunder_uri("Thunder://x"));
    assert!(!is_thunder_uri("thunder:/x"));
    assert_eq!(read_payload("http://x"), None);
    assert_eq!(open_envelope(b"AAhttp://xZZ"), Some("http://x".to_string()));
    assert_eq!(open_envelope(b"AAhttp://x"), None);
}

#[test]
fn torrents_are_paused_and_given_trackers() {
    let mut e = engine();
    let (id, _) = add(&mut e, torrent_file("x.bin", false));
    assert!(matches!(e.pause(id), Ok((n, TorrentCommand::Pause)) if n == id));
    assert!(matches!(e.unpause(id), Ok((n, TorrentCommand::Unpause)) if n == id));
    let urls = vec!["udp://tracker:1".to_string()];
    match e.add_trackers(id, urls.clone()) {
        Ok((n, TorrentCommand::AddTrackers(told))) => assert_eq!((n, told), (id, urls)),
        other => panic!("{other:?}"),
    }
    assert!(matches!(e.pause(id + 1), Err(EngineFault::UnknownTorrent)));
    assert!(matches!(e.unpause(id + 1), Err(EngineFault::UnknownTorrent)));
    assert!(matches!(e.add_trackers(id + 1, vec![]), Err(EngineFault::UnknownTorrent)));
    let (opts, step) = e
        .add_torrent_bytes(b"junk".to_vec(), &Object::new())
        .unwrap();
    assert!(opts.initial_peers.is_empty());
    assert!(matches!(step, AddTorrentStep::Invalid(_)));
    assert!(e.shutdown().is_some());
    assert!(matches!(e.pause(id), Err(EngineFault::NotInitialized)));
    assert!(matches!(e.unpause(id), Err(EngineFault::NotInitialized)));
    assert!(matches!(e.add_trackers(id, vec![]), Err(EngineFault::NotInitialized)));
    assert!(e.add_torrent_bytes(b"junk".to_vec(), &Object::new()).is_none());
}
