use risuko_bt::meta::hash::Id20;
use risuko_bt::net::literal::parse_ip;
use risuko_bt::net::SocketAddr;
use risuko_bt::tracker::exchange::{
    Answer, ConnectionCache, ConnectionCacheKey, Next, Request, Turn, UdpExchange,
};
use risuko_bt::tracker::list::expand_trackers;
use risuko_bt::tracker::udp::{
    announce_body, announce_response_buffer_len, build_announce_body, connect_body,
    dedupe_endpoints, direct_bind_addr, goes_through_proxy, judge_announce, judge_connect,
    judge_scrape, parse_announce_response, parse_udp_url, retransmit_timeout, scrape_batches,
    scrape_body, tracker_targets, Verdict, ACTION_ANNOUNCE, ACTION_CONNECT, ACTION_ERROR,
    ACTION_SCRAPE, MAX_SCRAPE_HASHES_PER_REQUEST,
};
use risuko_bt::tracker::{
    tracker_kind, AnnounceEvent, AnnounceRequest, TrackerError, TrackerKind,
};

fn addr(text: &str) -> SocketAddr {
    let (host, port) = text.rsplit_once(':').unwrap();
    let host = host.trim_start_matches('[').trim_end_matches(']');
    SocketAddr::new(parse_ip(host).unwrap(), port.parse().unwrap())
}

#[test]
fn parses_udp_url() {
    assert_eq!(
        parse_udp_url("udp://tracker.example.com:1337/announce").unwrap(),
        ("tracker.example.com".to_string(), 1337)
    );
    assert_eq!(
        parse_udp_url("udp://[::1]:2710").unwrap(),
        ("::1".to_string(), 2710)
    );
}

#[test]
fn dns_endpoints_are_deduplicated_without_reordering() {
    let v4 = addr("192.0.2.10:80");
    let v6 = addr("[2001:db8::10]:80");
    let other = addr("192.0.2.11:80");
    assert_eq!(
        dedupe_endpoints(&vec![v4, v6, v4, other, v6]),
        vec![v4, v6, other]
    );
}

#[test]
fn rejects_wrong_scheme() {
    assert!(parse_udp_url("http://x:1").is_err());
    assert!(parse_udp_url("udp://tracker.example:0").is_err());
}

#[test]
fn urls_without_an_endpoint_are_refused() {
    assert!(matches!(parse_udp_url("udp://tracker"), Err(TrackerError::Url(_))));
    assert!(matches!(parse_udp_url("udp://tracker:65536"), Err(TrackerError::Url(_))));
    assert!(matches!(parse_udp_url("udp://:80"), Err(TrackerError::Url(_))));
}

#[test]
fn rejects_invalid_discovered_endpoints() {
    let valid = addr("192.0.2.1:80");
    let unspecified = addr("0.0.0.0:80");
    let multicast = addr("224.0.0.1:80");
    let zero_port = addr("192.0.2.2:0");
    assert_eq!(
        dedupe_endpoints(&vec![valid, unspecified, multicast, zero_port]),
        vec![valid]
    );
}

fn announce_answer(txn: u32) -> Vec<u8> {
    let mut response = Vec::new();
    response.extend_from_slice(&ACTION_ANNOUNCE.to_be_bytes());
    response.extend_from_slice(&txn.to_be_bytes());
    response.extend_from_slice(&1800u32.to_be_bytes());
    response.extend_from_slice(&3u32.to_be_bytes());
    response.extend_from_slice(&7u32.to_be_bytes());
    response
}

#[test]
fn drops_invalid_compact_peers() {
    let mut response = announce_answer(42);
    response.extend_from_slice(&[0, 0, 0, 0, 0, 0]);
    response.extend_from_slice(&[192, 0, 2, 1, 0, 80]);

    let parsed = parse_announce_response(&response, false);
    assert_eq!(parsed.peers, vec![addr("192.0.2.1:80")]);
    assert_eq!(parsed.interval, 1800);
    assert_eq!(parsed.leechers, Some(3));
    assert_eq!(parsed.seeders, Some(7));
}

#[test]
fn scrape_splits_large_requests_at_the_protocol_batch_limit() {
    let hashes = vec![Id20([7u8; 20]); 149];
    let sizes: Vec<usize> = scrape_batches(&hashes)
        .iter()
        .map(|batch| batch.len())
        .collect();
    assert_eq!(MAX_SCRAPE_HASHES_PER_REQUEST, 74);
    assert_eq!(sizes, vec![74, 74, 1]);
}

#[test]
fn announce_response_buffer_fits_requested_ipv6_peers() {
    assert_eq!(announce_response_buffer_len(false, 200), 2048);
    assert_eq!(announce_response_buffer_len(true, 200), 3620);
}

#[test]
fn parses_proxied_ipv6_compact_peers() {
    let mut response = announce_answer(42);
    let mut localhost = [0u8; 16];
    localhost[15] = 1;
    response.extend_from_slice(&localhost);
    response.extend_from_slice(&6881u16.to_be_bytes());

    let parsed = parse_announce_response(&response, true);
    assert_eq!(parsed.peers, vec![addr("[::1]:6881")]);
}

#[test]
fn direct_bind_uses_matching_source_family() {
    let v4_target = addr("192.0.2.1:6969");
    let v4_source = addr("192.0.2.7:0");
    assert_eq!(
        direct_bind_addr(&v4_target, Some(v4_source)),
        addr("192.0.2.7:0")
    );

    let v6_target = addr("[2001:db8::1]:6969");
    assert_eq!(
        direct_bind_addr(&v6_target, Some(v4_source)),
        addr("[::]:0")
    );
}

#[test]
fn cached_connection_keeps_zero_and_isolates_source_routes() {
    let target = addr("192.0.2.1:6969");
    let first = ConnectionCacheKey {
        target,
        source: addr("192.0.2.7:0"),
    };
    let second = ConnectionCacheKey {
        target,
        source: addr("192.0.2.8:0"),
    };

    let mut cache = ConnectionCache::new();
    cache.cache_connection(first, 0, 1_000);
    assert_eq!(cache.cached_connection(&first, 1_000), Some(0));
    assert_eq!(cache.cached_connection(&second, 1_000), None);
    cache.invalidate_connection(&first);
    assert_eq!(cache.cached_connection(&first, 1_000), None);
}

#[test]
fn cached_connections_grow_old() {
    let key = ConnectionCacheKey {
        target: addr("192.0.2.1:6969"),
        source: addr("0.0.0.0:0"),
    };
    let mut cache = ConnectionCache::new();
    cache.cache_connection(key, 9, 0);
    assert_eq!(cache.cached_connection(&key, 59_999), Some(9));
    assert_eq!(cache.cached_connection(&key, 60_000), None);
}

#[test]
fn bep15_retransmit_timeout_doubles_then_caps() {
    assert_eq!(retransmit_timeout(0), 15);
    assert_eq!(retransmit_timeout(1), 30);
    assert_eq!(retransmit_timeout(2), 60);
    assert_eq!(retransmit_timeout(3), 60);
}

fn request() -> AnnounceRequest {
    AnnounceRequest {
        info_hash: Id20([1u8; 20]),
        peer_id: Id20([2u8; 20]),
        key: 0x01020304,
        port: 6881,
        uploaded: 5,
        downloaded: 6,
        left: 7,
        event: AnnounceEvent::Started,
        num_want: 50,
    }
}

#[test]
fn requests_have_their_exact_bytes() {
    let connect = connect_body(0xaabbccdd);
    assert_eq!(
        connect,
        vec![0, 0, 4, 0x17, 0x27, 0x10, 0x19, 0x80, 0, 0, 0, 0, 0xaa, 0xbb, 0xcc, 0xdd]
    );
    let body = announce_body(0x1122, 0x33, &request());
    assert_eq!(body.len(), 98);
    assert_eq!(&body[0..8], &0x1122u64.to_be_bytes());
    assert_eq!(&body[8..12], &1u32.to_be_bytes());
    assert_eq!(&body[12..16], &0x33u32.to_be_bytes());
    assert_eq!(&body[16..36], &[1u8; 20]);
    assert_eq!(&body[36..56], &[2u8; 20]);
    assert_eq!(&body[56..64], &6u64.to_be_bytes());
    assert_eq!(&body[64..72], &7u64.to_be_bytes());
    assert_eq!(&body[72..80], &5u64.to_be_bytes());
    assert_eq!(&body[80..84], &2u32.to_be_bytes());
    assert_eq!(&body[84..88], &[0, 0, 0, 0]);
    assert_eq!(&body[88..92], &0x01020304u32.to_be_bytes());
    assert_eq!(&body[92..96], &50u32.to_be_bytes());
    assert_eq!(&body[96..98], &6881u16.to_be_bytes());
    let (random, txn) = build_announce_body(0x1122, &request());
    assert_eq!(random, announce_body(0x1122, txn, &request()));
    let scrape = scrape_body(1, 2, &vec![Id20([9u8; 20])]);
    assert_eq!(scrape.len(), 36);
    assert_eq!(&scrape[8..12], &ACTION_SCRAPE.to_be_bytes());
    assert_eq!(&scrape[16..36], &[9u8; 20]);
}

#[test]
fn datagrams_are_judged() {
    let mut ok = Vec::new();
    ok.extend_from_slice(&ACTION_CONNECT.to_be_bytes());
    ok.extend_from_slice(&7u32.to_be_bytes());
    ok.extend_from_slice(&99u64.to_be_bytes());
    assert!(matches!(judge_connect(&ok, 7), Verdict::Answer(99)));
    assert!(matches!(judge_connect(&ok, 8), Verdict::Ignore));
    assert!(matches!(judge_connect(&ok[..12], 7), Verdict::Ignore));
    let mut error = Vec::new();
    error.extend_from_slice(&ACTION_ERROR.to_be_bytes());
    error.extend_from_slice(&7u32.to_be_bytes());
    error.extend_from_slice(b"no \xff");
    match judge_connect(&error, 7) {
        Verdict::Rejected(m) => assert_eq!(m, "no \u{fffd}"),
        other => panic!("{other:?}"),
    }
    assert!(matches!(judge_announce(&announce_answer(7), 7, false), Verdict::Answer(_)));
    assert!(matches!(judge_announce(&announce_answer(7), 6, false), Verdict::Ignore));
    let mut counts = Vec::new();
    counts.extend_from_slice(&ACTION_SCRAPE.to_be_bytes());
    counts.extend_from_slice(&7u32.to_be_bytes());
    for n in [10u32, 20, 30] {
        counts.extend_from_slice(&n.to_be_bytes());
    }
    match judge_scrape(&counts, 7, 1) {
        Verdict::Answer(v) => {
            assert_eq!((v[0].complete, v[0].downloaded, v[0].incomplete), (10, 20, 30));
        }
        other => panic!("{other:?}"),
    }
}

fn bytes_of(turn: &Turn) -> &Vec<u8> {
    match &turn.next {
        Next::Send { bytes, .. } => bytes,
        other => panic!("{other:?}"),
    }
}

#[test]
fn an_exchange_connects_and_announces() {
    let (mut x, first) = UdpExchange::begin(Request::Announce(request()), false, true, None, 11);
    match first {
        Next::Send { bytes, wait } => {
            assert_eq!(bytes, connect_body(11));
            assert_eq!(wait, 15);
        }
        other => panic!("{other:?}"),
    }
    assert_eq!(x.room(), 16);
    let mut connected = Vec::new();
    connected.extend_from_slice(&ACTION_CONNECT.to_be_bytes());
    connected.extend_from_slice(&11u32.to_be_bytes());
    connected.extend_from_slice(&77u64.to_be_bytes());
    let turn = x.on_datagram(&connected, false, 12);
    assert_eq!(x.room(), 2048);
    assert_eq!(turn.connected, Some(77));
    assert_eq!(*bytes_of(&turn), announce_body(77, 12, &request()));
    let mut answer = announce_answer(12);
    answer.extend_from_slice(&[192, 0, 2, 1, 0, 80]);
    let turn = x.on_datagram(&answer, false, 13);
    match turn.next {
        Next::Done(Ok(Answer::Announce(a))) => assert_eq!(a.peers, vec![addr("192.0.2.1:80")]),
        other => panic!("{other:?}"),
    }
}

#[test]
fn an_exchange_reconnects_once_and_ends() {
    let (mut x, _) = UdpExchange::begin(Request::Announce(request()), false, true, Some(5), 1);
    let mut sent = 1;
    let mut forgot = 0;
    loop {
        let turn = x.on_silence(100 + sent);
        if turn.forget {
            forgot += 1;
            assert_eq!(*bytes_of(&turn), connect_body(100 + sent));
        }
        match turn.next {
            Next::Send { .. } => sent += 1,
            Next::Done(result) => {
                assert!(matches!(result, Err(TrackerError::Timeout)));
                break;
            }
        }
    }
    assert_eq!(sent, 8);
    assert_eq!(forgot, 1);
}

#[test]
fn a_rejected_request_without_retry_is_final() {
    let hashes = vec![Id20([3u8; 20])];
    let (mut x, _) = UdpExchange::begin(Request::Scrape(hashes), false, false, Some(5), 1);
    let mut error = Vec::new();
    error.extend_from_slice(&ACTION_ERROR.to_be_bytes());
    error.extend_from_slice(&1u32.to_be_bytes());
    error.extend_from_slice(b"go away");
    let turn = x.on_datagram(&error, false, 2);
    match turn.next {
        Next::Done(Err(TrackerError::Rejected(m))) => assert_eq!(m, "go away"),
        other => panic!("{other:?}"),
    }
    assert!(!turn.forget);
}

#[test]
fn trackers_are_told_apart_by_their_scheme() {
    assert!(matches!(tracker_kind("udp://x:1"), Ok(TrackerKind::Udp)));
    assert!(matches!(tracker_kind("http://x"), Ok(TrackerKind::Http)));
    assert!(matches!(tracker_kind("https://x"), Ok(TrackerKind::Http)));
    assert!(matches!(tracker_kind("wss://x"), Err(TrackerError::UnsupportedScheme(_))));
    assert_eq!(AnnounceEvent::Completed.as_str(), "completed");
}

#[test]
fn targets_follow_the_family_of_the_source() {
    let v4 = addr("192.0.2.1:80");
    let v6 = addr("[2001:db8::1]:80");
    let both = vec![v4, v6];
    assert_eq!(tracker_targets(&both, Some(addr("192.0.2.7:0")), "h").unwrap(), vec![v4]);
    assert_eq!(tracker_targets(&both, None, "h").unwrap(), both);
    assert!(tracker_targets(&vec![], None, "h").is_err());
    assert!(goes_through_proxy(true, None, false));
    assert!(!goes_through_proxy(false, None, false));
}

#[test]
fn typed_trackers_are_listed_once() {
    let typed = vec!["udp://a:1, udp://b:2\n\n".to_string(), "udp://a:1\r\n udp://c:3".to_string()];
    assert_eq!(expand_trackers(&typed), vec!["udp://a:1", "udp://b:2", "udp://c:3"]);
}
