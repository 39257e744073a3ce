use risuko_bt::bencode::{decode_all, encode_to_vec, Value};
use risuko_bt::dht::endpoint::{public_dht_endpoint, valid_dht_endpoint};
use risuko_bt::dht::krpc::{
    build_announce_peer, build_get_peers, build_get_peers_bytes, build_ping_bytes, compact_nodes,
    dht_targets_match, krpc_error, parse_compact_nodes, parse_get_peers_response, parse_want,
    pseudo_id, pseudo_id_target, same_target, DhtTarget, GetPeersResponseBody,
};
use risuko_bt::dht::lookup::{GetPeersReply, Lookup};
use risuko_bt::dht::node::{
    bootstrap_targets, query_addresses, send_attempts, send_packet_host_targets,
    send_packet_route, Dht, SendFault, SendVia, Sockets,
};
use risuko_bt::dht::packet::{receive_proxied, recover_transaction_id, Inbound};
use risuko_bt::dht::pending::{random_id, random_transaction_id, PendingMap};
use risuko_bt::dht::reply::MAX_KRPC_RESPONSE_BYTES;
use risuko_bt::dht::routing::{RoutingLiveness, RoutingTable, K, ROUTING_STALE_MS};
use risuko_bt::dht::server::{
    token_for_secret, InboundDhtState, MAX_STORED_PEERS, PEER_STORE_TTL_MS, TOKEN_ROTATION_MS,
};
use risuko_bt::dht::shared::{Install, Outcome, Replaced, SharedDhtState};
use risuko_bt::dht::state_file::{admit_routes, parse_routing_state, routing_state_text};
use risuko_bt::meta::hash::{sha1, Id20};
use risuko_bt::net::literal::parse_ip;
use risuko_bt::net::SocketAddr;

const FRESH: [u8; 16] = [0x77; 16];

fn addr(text: &str) -> SocketAddr {
    let (host, port) = text.rsplit_once(':').unwrap();
    let host = host.trim_start_matches('[').trim_end_matches(']');
    SocketAddr::new(parse_ip(host).unwrap(), port.parse().unwrap())
}

fn id(n: u8) -> Id20 {
    Id20::from_slice(&[n; 20]).unwrap()
}

fn bytes_of<'a>(v: &'a Value, key: &[u8]) -> Option<&'a [u8]> {
    v.get(key).and_then(|v| v.as_bytes()).map(|b| b.as_slice())
}

fn entry(key: &[u8], value: Value) -> (Vec<u8>, Value) {
    (key.to_vec(), value)
}

fn text(b: &[u8]) -> Value {
    Value::Bytes(b.to_vec())
}

fn question(name: &[u8], tid: &[u8], args: Vec<(Vec<u8>, Value)>) -> Value {
    Value::Dict(vec![
        entry(b"a", Value::Dict(args)),
        entry(b"q", text(name)),
        entry(b"t", text(tid)),
        entry(b"y", text(b"q")),
    ])
}

fn server() -> InboundDhtState {
    InboundDhtState::new(id(9), [1u8; 16], 0)
}

/// The decoded answer to a question.
fn ask(state: &mut InboundDhtState, msg: &Value, from: &SocketAddr, now: u64) -> Value {
    decode_all(&state.answer(msg, from, now, FRESH).unwrap()).unwrap()
}

// ---- bootstrap and endpoints ----

#[test]
fn bootstrap_nodes_remain_host_targets_until_sent() {
    let targets = bootstrap_targets();
    assert_eq!(targets.len(), 5);
    assert!(matches!(
        targets.first(),
        Some(DhtTarget::Host(host, 6881)) if host == "router.bittorrent.com"
    ));
}

#[test]
fn routing_endpoint_validation_rejects_non_routable_addresses() {
    for raw in [
        "0.0.0.0:6881",
        "255.255.255.255:6881",
        "224.0.0.1:6881",
        "127.0.0.1:0",
    ] {
        let addr: SocketAddr = addr(raw);
        assert!(!valid_dht_endpoint(&addr), "accepted {raw}");
    }
    assert!(valid_dht_endpoint(&addr("192.0.2.1:6881")));
}

#[test]
fn public_dht_endpoint_rejects_cgnat_and_special_use_ranges() {
    for ip in [
        "0.0.0.1",
        "100.64.0.1",
        "100.127.255.254",
        "192.0.0.1",
        "192.31.196.1",
        "192.52.193.1",
        "192.88.99.1",
        "192.175.48.1",
        "198.18.0.1",
        "239.255.255.1",
        "240.0.0.1",
    ] {
        assert!(
            !public_dht_endpoint(&SocketAddr::new(parse_ip(ip).unwrap(), 6881)),
            "special-use address {ip}"
        );
    }
    assert!(public_dht_endpoint(&addr("8.8.8.8:6881")));
}

// ---- routing table ----

#[test]
fn routing_table_inserts_dedupes_and_indexes_distance() {
    let me = Id20::from_slice(&[0u8; 20]).unwrap();
    let mut rt = RoutingTable::new(me);
    let n1 = Id20::from_slice(&[1u8; 20]).unwrap();
    let addr: SocketAddr = addr("127.0.0.1:1");
    rt.add(n1, addr, 0);
    rt.add(n1, addr, 0); // dedup → still 1
    assert_eq!(rt.len(), 1);
    let n2 = Id20::from_slice(&[2u8; 20]).unwrap();
    rt.add(n2, addr, 0);
    assert_eq!(rt.len(), 2);
    // Inserting our own id is a no-op
    rt.add(me, addr, 0);
    assert_eq!(rt.len(), 2);
}

#[test]
fn routing_table_caps_bucket_at_k() {
    let me = Id20::from_slice(&[0u8; 20]).unwrap();
    let mut rt = RoutingTable::new(me);
    // All ids share the most-significant bit set (byte[0] = 0x80) so every entry lands in the
    // bucket that does not hold our own id, which must cap at K
    for i in 1..=20u8 {
        let mut id = [0u8; 20];
        id[0] = 0x80;
        id[19] = i;
        rt.add(Id20::from_slice(&id).unwrap(), addr("127.0.0.1:1"), 0);
    }
    assert_eq!(rt.len(), K);
}

#[test]
fn routing_refresh_marks_stale_contacts_before_evicting_them() {
    let me = Id20::from_slice(&[0u8; 20]).unwrap();
    let mut rt = RoutingTable::new(me);
    let mut id = [0u8; 20];
    id[0] = 0x80;
    id[19] = 1;
    rt.add(Id20::from_slice(&id).unwrap(), addr("127.0.0.1:6881"), 0);

    let first = rt.refresh_stale(ROUTING_STALE_MS, 1);
    assert_eq!(first.len(), 1);
    assert_eq!(rt.nodes()[0].liveness, RoutingLiveness::Questionable);
    assert_eq!(rt.snapshot().len(), 1);

    let second = rt.refresh_stale(2 * ROUTING_STALE_MS, 1);
    assert_eq!(second.len(), 1);
    assert_eq!(rt.nodes()[0].liveness, RoutingLiveness::Bad);
    assert!(rt.refresh_stale(2 * ROUTING_STALE_MS, 1).is_empty());
    assert!(rt.snapshot().is_empty());
}

#[test]
fn closest_contacts_come_first() {
    let mut rt = RoutingTable::new(id(0));
    for n in [0x40u8, 0x01, 0x10, 0x04] {
        rt.add(id(n), SocketAddr::v4([10, 0, 0, n], 6881), 0);
    }
    let near: Vec<Id20> = rt.closest_nodes(&id(0x05), 3).iter().map(|n| n.0).collect();
    assert_eq!(near, vec![id(0x04), id(0x01), id(0x10)]);
}

#[test]
fn contacts_that_answer_are_not_displaced() {
    let mut rt = RoutingTable::new(id(0));
    for i in 1..=8u8 {
        let mut far = [0x80u8; 20];
        far[19] = i;
        rt.add(Id20(far), SocketAddr::v4([10, 0, 0, i], 1), 0);
    }
    let before = rt.snapshot();
    let mut late = [0x80u8; 20];
    late[19] = 99;
    rt.add(Id20(late), addr("10.0.0.99:1"), 5);
    assert_eq!(rt.snapshot(), before);
}

// ---- packets ----

#[test]
fn malformed_packet_transaction_recovery_is_bounded() {
    assert_eq!(
        recover_transaction_id(b"d1:t2:ab1:y1:q"),
        Some(b"ab".to_vec())
    );
    assert_eq!(recover_transaction_id(b"d1:t0:1:y1:q"), None);
    assert_eq!(
        recover_transaction_id(b"d1:t33:0123456789012345678901234567890121:y1:q"),
        None
    );
    assert_eq!(recover_transaction_id(b"d1:tnope"), None);
}

#[test]
fn outbound_transaction_ids_are_opaque_eight_byte_values() {
    assert_eq!(random_transaction_id().len(), 8);
    assert_ne!(random_transaction_id(), random_transaction_id());
    assert_ne!(random_id(), random_id());
}

#[test]
fn get_peers_packet_is_bencoded_krpc_query() {
    let our_id = Id20::from_slice(&[0u8; 20]).unwrap();
    let info_hash = Id20::from_slice(&[1u8; 20]).unwrap();
    let packet = build_get_peers(0xBEEF, &our_id, &info_hash);
    let decoded = decode_all(&packet).unwrap();
    assert_eq!(bytes_of(&decoded, b"q"), Some(b"get_peers" as &[u8]));
    assert_eq!(bytes_of(&decoded, b"y"), Some(b"q" as &[u8]));
    assert_eq!(bytes_of(&decoded, b"t"), Some(&[0xBE, 0xEF][..]));
    let a = decoded.get(b"a").unwrap().as_dict().unwrap();
    assert_eq!(a.len(), 3);
}

#[test]
fn announce_peer_packet_is_bencoded_krpc_query() {
    let our_id = Id20::from_slice(&[0u8; 20]).unwrap();
    let info_hash = Id20::from_slice(&[1u8; 20]).unwrap();
    let packet = build_announce_peer(b"opaque-tx", &our_id, &info_hash, 6881, b"tok");
    let decoded = decode_all(&packet).unwrap();
    assert_eq!(bytes_of(&decoded, b"q"), Some(b"announce_peer" as &[u8]));
    assert_eq!(bytes_of(&decoded, b"y"), Some(b"q" as &[u8]));
    assert_eq!(bytes_of(&decoded, b"t"), Some(b"opaque-tx" as &[u8]));
    let a = decoded.get(b"a").unwrap();
    assert_eq!(a.get(b"port").and_then(|v| v.as_int()), Some(6881));
    assert_eq!(bytes_of(a, b"token"), Some(b"tok" as &[u8]));
    assert_eq!(bytes_of(a, b"info_hash"), Some(&[1u8; 20][..]));
}

#[test]
fn get_peers_packet_includes_want_n4_n6() {
    let our_id = Id20::from_slice(&[0u8; 20]).unwrap();
    let info_hash = Id20::from_slice(&[1u8; 20]).unwrap();
    let packet = build_get_peers(0xABCD, &our_id, &info_hash);
    let decoded = decode_all(&packet).unwrap();
    let want = decoded
        .get(b"a")
        .unwrap()
        .get(b"want")
        .unwrap()
        .as_list()
        .unwrap();
    let labels: Vec<&[u8]> = want
        .iter()
        .filter_map(|v| v.as_bytes())
        .map(|b| b.as_slice())
        .collect();
    assert!(labels.contains(&(b"n4" as &[u8])));
    assert!(labels.contains(&(b"n6" as &[u8])));
}

#[test]
fn questions_are_exact() {
    assert_eq!(
        build_ping_bytes(b"aa", &Id20(*b"abcdefghij0123456789")),
        b"d1:ad2:id20:abcdefghij0123456789e1:q4:ping1:t2:aa1:y1:qe".to_vec()
    );
    assert_eq!(
        krpc_error(b"aa", 204, b"Method Unknown".to_vec()),
        b"d1:eli204e14:Method Unknowne1:t2:aa1:y1:ee".to_vec()
    );
    assert_eq!(
        build_get_peers_bytes(&[0xbe, 0xef], &id(0), &id(1)),
        build_get_peers(0xbeef, &id(0), &id(1))
    );
}

#[test]
fn parse_response_extracts_peers_and_nodes() {
    // values: [6-byte peer for 1.2.3.4:5678]; nodes: 26 bytes (id=0x22... ip=9.8.7.6 port=11111)
    let peer_bytes: Vec<u8> = vec![1, 2, 3, 4, (5678u16 >> 8) as u8, (5678u16 & 0xff) as u8];
    let mut node_bytes = vec![0x22u8; 20];
    node_bytes.extend_from_slice(&[9, 8, 7, 6]);
    node_bytes.extend_from_slice(&11111u16.to_be_bytes());

    let r = Value::Dict(vec![
        (b"id".to_vec(), Value::Bytes(vec![0u8; 20])),
        (b"nodes".to_vec(), Value::Bytes(node_bytes)),
        (b"token".to_vec(), Value::Bytes(b"abcd".to_vec())),
        (
            b"values".to_vec(),
            Value::List(vec![Value::Bytes(peer_bytes)]),
        ),
    ]);
    let body = Value::Dict(vec![
        (b"r".to_vec(), r),
        (b"t".to_vec(), Value::Bytes(b"aa".to_vec())),
        (b"y".to_vec(), Value::Bytes(b"r".to_vec())),
    ]);
    let parsed = parse_get_peers_response(&body).unwrap();
    assert_eq!(parsed.token.as_deref(), Some(b"abcd" as &[u8]));
    assert_eq!(parsed.peers.len(), 1);
    assert_eq!(parsed.peers[0], SocketAddr::v4([1, 2, 3, 4], 5678));
    assert_eq!(parsed.nodes.len(), 1);
    assert_eq!(parsed.nodes[0].1, SocketAddr::v4([9, 8, 7, 6], 11111));
    assert_eq!(parsed.responder_id, Some(id(0)));
}

#[test]
fn parse_response_extracts_v6_peers_and_nodes6() {
    let loopback = addr("[::1]:6881");
    let far = addr("[2001:db8::1]:12345");
    // 18-byte compact v6 peer: ip=::1 port=6881
    let mut peer6: Vec<u8> = Vec::with_capacity(18);
    loopback.ip.push_octets(&mut peer6);
    peer6.extend_from_slice(&6881u16.to_be_bytes());
    // 38-byte compact v6 node: id=0x33... ip=2001:db8::1 port=12345
    let mut node6 = vec![0x33u8; 20];
    far.ip.push_octets(&mut node6);
    node6.extend_from_slice(&12345u16.to_be_bytes());

    let r = Value::Dict(vec![
        (b"id".to_vec(), Value::Bytes(vec![0u8; 20])),
        (b"nodes6".to_vec(), Value::Bytes(node6)),
        (b"values".to_vec(), Value::List(vec![Value::Bytes(peer6)])),
    ]);
    let body = Value::Dict(vec![
        (b"r".to_vec(), r),
        (b"t".to_vec(), Value::Bytes(b"bb".to_vec())),
        (b"y".to_vec(), Value::Bytes(b"r".to_vec())),
    ]);
    let parsed = parse_get_peers_response(&body).unwrap();
    assert_eq!(parsed.peers.len(), 1);
    assert_eq!(parsed.peers[0], loopback);
    assert_eq!(parsed.nodes.len(), 1);
    assert_eq!(parsed.nodes[0].1, far);
}

#[test]
fn compact_node_parser_rejects_bad_tail_and_zero_port() {
    let id = [1u8; 20];
    let mut bytes = id.to_vec();
    bytes.extend_from_slice(&[1, 2, 3, 4, 0x1a, 0xe1]);
    bytes.extend_from_slice(&[0xff]);
    assert_eq!(parse_compact_nodes(&bytes, false).len(), 1);
    bytes[24] = 0;
    bytes[25] = 0;
    assert!(parse_compact_nodes(&bytes[..26], false).is_empty());
}

#[test]
fn compact_nodes_come_back() {
    let nodes = vec![
        (id(1), addr("1.2.3.4:6881")),
        (id(2), addr("[2001:db8::9]:6881")),
        (id(3), addr("5.6.7.8:1")),
    ];
    assert_eq!(
        parse_compact_nodes(&compact_nodes(&nodes, false), false),
        vec![nodes[0], nodes[2]]
    );
    assert_eq!(
        parse_compact_nodes(&compact_nodes(&nodes, true), true),
        vec![nodes[1]]
    );
}

#[test]
fn wanted_families_default_to_the_transport() {
    let from4 = addr("1.2.3.4:5");
    let from6 = addr("[::1]:5");
    let silent = Value::Dict(vec![]);
    assert_eq!(parse_want(&silent, &from4), (true, false));
    assert_eq!(parse_want(&silent, &from6), (false, true));
    let both = Value::Dict(vec![entry(
        b"want",
        Value::List(vec![text(b"n4"), text(b"n6")]),
    )]);
    assert_eq!(parse_want(&both, &from4), (true, true));
}

#[test]
fn targets_are_told_apart() {
    let host = DhtTarget::Host("router.example".to_string(), 6881);
    let upper = DhtTarget::Host("ROUTER.example".to_string(), 6881);
    let plain = DhtTarget::Addr(addr("1.2.3.4:6881"));
    assert!(same_target(&host, &host));
    assert!(!same_target(&host, &plain));
    assert!(dht_targets_match(&host, &upper));
    assert!(!dht_targets_match(
        &host,
        &DhtTarget::Host("router.example".to_string(), 1)
    ));
    assert_eq!(
        pseudo_id(&addr("1.2.3.4:6881")),
        sha1(&[1, 2, 3, 4, 0x1a, 0xe1])
    );
    assert_eq!(pseudo_id_target(&plain), pseudo_id(&addr("1.2.3.4:6881")));
}

// ---- pending questions ----

#[test]
fn pending_guard_drop_does_not_remove_reused_transaction() {
    let mut pending = PendingMap::new();
    let txn = 0x1234u16.to_be_bytes().to_vec();
    let target: SocketAddr = addr("127.0.0.1:1");

    let old = pending
        .register(txn.clone(), DhtTarget::Addr(target), None)
        .unwrap();
    assert_eq!(pending.deliver(&txn, &target), Some(old));
    let new = pending
        .register(txn.clone(), DhtTarget::Addr(target), None)
        .unwrap();
    assert_ne!(old, new);

    pending.cancel(&txn, old);

    assert!(pending.contains(&txn));
    pending.cancel(&txn, new);
    assert!(!pending.contains(&txn));
}

#[test]
fn answers_from_elsewhere_leave_the_question_open() {
    let mut pending = PendingMap::new();
    let number = pending
        .register(b"aa".to_vec(), DhtTarget::Addr(addr("1.2.3.4:1")), None)
        .unwrap();
    assert!(pending
        .register(b"aa".to_vec(), DhtTarget::Addr(addr("1.2.3.4:2")), None)
        .is_none());
    assert_eq!(pending.deliver(b"aa", &addr("9.9.9.9:1")), None);
    assert_eq!(pending.deliver(b"bb", &addr("1.2.3.4:1")), None);
    assert_eq!(pending.deliver(b"aa", &addr("1.2.3.4:1")), Some(number));
    assert!(!pending.contains(b"aa"));
}

// ---- answers to others ----

#[test]
fn inbound_ping_and_unknown_query() {
    let mut state = server();
    let remote = Id20::from_slice(&[7u8; 20]).unwrap();
    let args = || vec![entry(b"id", text(remote.as_bytes()))];
    let ping = question(b"ping", b"abc", args());
    let reply = ask(&mut state, &ping, &addr("127.0.0.1:6000"), 0);
    assert_eq!(bytes_of(&reply, b"t"), Some(b"abc" as &[u8]));
    assert_eq!(bytes_of(&reply, b"y"), Some(b"r" as &[u8]));
    assert_eq!(state.table_len(), 1);

    let unknown = question(b"no_such_method", b"abc", args());
    let reply = ask(&mut state, &unknown, &addr("127.0.0.1:6000"), 0);
    assert_eq!(bytes_of(&reply, b"y"), Some(b"e" as &[u8]));
    assert_eq!(
        reply
            .get(b"e")
            .and_then(Value::as_list)
            .and_then(|e| e.first())
            .and_then(Value::as_int),
        Some(204)
    );
}

#[test]
fn inbound_get_peers_token_and_announce() {
    let mut state = server();
    let remote = Id20::from_slice(&[7u8; 20]).unwrap();
    let hash = Id20::from_slice(&[3u8; 20]).unwrap();
    let from: SocketAddr = addr("127.0.0.1:6000");
    let get = question(
        b"get_peers",
        b"g1",
        vec![
            entry(b"id", text(remote.as_bytes())),
            entry(b"info_hash", text(hash.as_bytes())),
        ],
    );
    let body = ask(&mut state, &get, &from, 0);
    let token = body
        .get(b"r")
        .and_then(|r| r.get(b"token"))
        .and_then(Value::as_bytes)
        .unwrap()
        .to_vec();
    let announce = question(
        b"announce_peer",
        b"a1",
        vec![
            entry(b"id", text(remote.as_bytes())),
            entry(b"info_hash", text(hash.as_bytes())),
            entry(b"port", Value::Int(6881)),
            entry(b"token", Value::Bytes(token)),
        ],
    );
    let reply = ask(&mut state, &announce, &from, 0);
    assert_eq!(bytes_of(&reply, b"y"), Some(b"r" as &[u8]));
    assert_eq!(
        state.get_peers(&hash, None, 0),
        vec![addr("127.0.0.1:6881")]
    );
}

#[test]
fn inbound_get_peers_values_follow_transport_not_want() {
    let mut state = server();
    let remote = Id20::from_slice(&[7u8; 20]).unwrap();
    let hash = Id20::from_slice(&[3u8; 20]).unwrap();
    state.add_peer(hash, addr("192.0.2.1:6881"), 0);
    state.add_peer(hash, addr("[2001:db8::1]:6881"), 0);

    // `want` asks for IPv6 routing nodes, but the packet itself was sent over IPv4: 6-byte
    // IPv4 peer values are due.
    let request = question(
        b"get_peers",
        b"g6",
        vec![
            entry(b"id", text(remote.as_bytes())),
            entry(b"info_hash", text(hash.as_bytes())),
            entry(b"want", Value::List(vec![text(b"n6")])),
        ],
    );
    let reply = ask(&mut state, &request, &addr("127.0.0.1:6000"), 0);
    let response = reply.get(b"r").unwrap();
    let values = response.get(b"values").and_then(Value::as_list).unwrap();
    assert_eq!(values.len(), 1);
    assert_eq!(values[0].as_bytes().unwrap().len(), 6);
    assert!(response.get(b"nodes6").is_some());
    assert!(response.get(b"nodes").is_none());
}

#[test]
fn inbound_get_peers_response_stays_within_udp_budget() {
    let mut state = server();
    let remote = Id20::from_slice(&[7u8; 20]).unwrap();
    let hash = Id20::from_slice(&[3u8; 20]).unwrap();
    for port in 1..2000u16 {
        state.add_peer(hash, SocketAddr::v4([192, 0, 2, 1], port), 0);
    }
    let request = question(
        b"get_peers",
        b"aa",
        vec![
            entry(b"id", text(remote.as_bytes())),
            entry(b"info_hash", text(hash.as_bytes())),
            entry(b"want", Value::List(vec![text(b"n4")])),
        ],
    );
    let encoded = state
        .answer(&request, &addr("127.0.0.1:6881"), 0, FRESH)
        .unwrap();
    assert!(encoded.len() <= MAX_KRPC_RESPONSE_BYTES);
    assert!(decode_all(&encoded).unwrap().get(b"r").is_some());
}

#[test]
fn private_hashes_are_not_stored() {
    let mut state = server();
    let hash = Id20::from_slice(&[3u8; 20]).unwrap();
    state.set_private(hash, true);
    state.add_peer(hash, addr("127.0.0.1:6881"), 0);
    assert!(state.get_peers(&hash, None, 0).is_empty());
}

#[test]
fn unknown_get_peers_does_not_create_empty_store_bucket() {
    let mut state = server();
    let hash = Id20::from_slice(&[3u8; 20]).unwrap();

    assert!(state.get_peers(&hash, None, 0).is_empty());
    assert_eq!(state.peer_count(), 0);
}

#[test]
fn private_hashes_follow_normal_dht_response_without_storage() {
    let mut state = server();
    let remote = Id20::from_slice(&[7u8; 20]).unwrap();
    let hash = Id20::from_slice(&[3u8; 20]).unwrap();
    let from: SocketAddr = addr("127.0.0.1:6000");
    state.set_private(hash, true);

    let token = state.token(&from, 0, FRESH);
    for (query, tid) in [
        (b"get_peers".as_slice(), b"g1".as_slice()),
        (b"announce_peer".as_slice(), b"a1".as_slice()),
    ] {
        let request = question(
            query,
            tid,
            vec![
                entry(b"id", text(remote.as_bytes())),
                entry(b"info_hash", text(hash.as_bytes())),
                entry(b"port", Value::Int(6881)),
                entry(b"token", Value::Bytes(token.clone())),
            ],
        );
        let reply = ask(&mut state, &request, &from, 0);
        assert_eq!(bytes_of(&reply, b"y"), Some(b"r" as &[u8]));
        assert!(reply.get(b"e").is_none());
    }
    assert_eq!(state.table_len(), 1);
    assert_eq!(state.peer_count(), 0);
}

#[test]
fn announce_peer_rejects_invalid_implied_port_value() {
    let mut state = server();
    let remote = Id20::from_slice(&[7u8; 20]).unwrap();
    let hash = Id20::from_slice(&[3u8; 20]).unwrap();
    let from: SocketAddr = addr("127.0.0.1:6000");
    let token = state.token(&from, 0, FRESH);
    let request = question(
        b"announce_peer",
        b"bad",
        vec![
            entry(b"id", text(remote.as_bytes())),
            entry(b"implied_port", Value::Int(2)),
            entry(b"info_hash", text(hash.as_bytes())),
            entry(b"port", Value::Int(6881)),
            entry(b"token", Value::Bytes(token)),
        ],
    );
    let reply = ask(&mut state, &request, &from, 0);
    assert_eq!(bytes_of(&reply, b"y"), Some(b"e" as &[u8]));
    assert!(state.get_peers(&hash, None, 0).is_empty());
}

#[test]
fn tokens_outlive_one_change_of_the_secret() {
    let from = addr("192.0.2.4:6000");
    let mut state = server();
    let token = state.token(&from, 0, FRESH);
    assert_eq!(token, token_for_secret(&[1u8; 16], &from));
    assert!(state.valid_token(&from, &token, TOKEN_ROTATION_MS, [2u8; 16]));
    assert!(!state.valid_token(&from, &token, 2 * TOKEN_ROTATION_MS, [3u8; 16]));
    assert!(!server().valid_token(&addr("192.0.2.5:6000"), &token, 0, FRESH));
}

#[test]
fn stored_peers_are_forgotten_in_time_and_bounded() {
    let mut state = server();
    let hash = id(3);
    state.add_peer(hash, addr("192.0.2.1:6881"), 0);
    assert_eq!(state.get_peers(&hash, None, PEER_STORE_TTL_MS).len(), 1);
    assert!(state
        .get_peers(&hash, None, PEER_STORE_TTL_MS + 1)
        .is_empty());
    for n in 0..(MAX_STORED_PEERS as u32 + 5) {
        let at = SocketAddr::v4([10, (n >> 16) as u8, (n >> 8) as u8, n as u8], 1);
        state.add_peer(hash, at, 1);
    }
    assert!(state.peer_count() <= MAX_STORED_PEERS);
}

#[test]
fn packets_are_sorted_out() {
    let mut state = server();
    let from = addr("192.0.2.9:6000");
    let ping = encode_to_vec(&question(
        b"ping",
        b"zz",
        vec![entry(b"id", text(&[4u8; 20]))],
    ));
    match state.receive(&ping, &from, 0) {
        Inbound::Reply(bytes) => {
            let reply = decode_all(&bytes).unwrap();
            assert_eq!(bytes_of(&reply, b"y"), Some(b"r" as &[u8]));
            assert_eq!(bytes_of(&reply, b"t"), Some(b"zz" as &[u8]));
        }
        other => panic!("expected a reply, got {other:?}"),
    }
    match state.receive(b"d1:t2:ab1:y1:q", &from, 0) {
        Inbound::Reply(bytes) => {
            assert_eq!(
                decode_all(&bytes)
                    .unwrap()
                    .get(b"e")
                    .and_then(Value::as_list)
                    .and_then(|e| e.first())
                    .and_then(Value::as_int),
                Some(203)
            );
        }
        other => panic!("expected an error reply, got {other:?}"),
    }
    let answer = b"d1:rd2:id20:abcdefghij0123456789e1:t2:aa1:y1:re";
    assert!(matches!(
        state.receive(answer, &from, 0),
        Inbound::Response(tid, _) if tid == b"aa".to_vec()
    ));
    assert!(matches!(
        receive_proxied(answer),
        Inbound::Response(tid, _) if tid == b"aa".to_vec()
    ));
    assert!(matches!(receive_proxied(&ping), Inbound::Nothing));
    assert!(matches!(state.receive(b"x", &from, 0), Inbound::Nothing));
}

// ---- remembered contacts ----

#[test]
fn routing_state_file_round_trips_and_ignores_invalid_entries() {
    let first = Id20::from_slice(&[1u8; 20]).unwrap();
    let second = Id20::from_slice(&[2u8; 20]).unwrap();
    let contacts = vec![(first, addr("127.0.0.1:6881")), (second, addr("[::1]:6881"))];
    let kept = admit_routes(&contacts);
    assert_eq!(kept.len(), 2);
    let mut file = routing_state_text(&vec![
        (first, "127.0.0.1:6881".to_string()),
        (second, "[::1]:6881".to_string()),
    ]);
    file.push_str("not-a-contact\n0011\t0.0.0.0:1\n");

    let loaded: Vec<(Id20, SocketAddr)> = parse_routing_state(&file)
        .iter()
        .map(|(id, text)| (*id, addr(text)))
        .collect();
    assert_eq!(admit_routes(&loaded), contacts);
}

#[test]
fn contacts_that_cannot_be_reached_are_not_remembered() {
    let routes = vec![
        (id(1), addr("0.0.0.0:1")),
        (id(2), addr("10.0.0.1:0")),
        (id(3), addr("10.0.0.1:7")),
    ];
    assert_eq!(admit_routes(&routes), vec![routes[2]]);
    assert!(parse_routing_state("").is_empty());
}

// ---- the node ----

#[test]
fn datagrams_take_the_socket_of_their_family() {
    let both = Sockets { proxied: false, ipv4: true, ipv6: true };
    let v4 = Sockets { proxied: false, ipv4: true, ipv6: false };
    let v6 = Sockets { proxied: false, ipv4: false, ipv6: true };
    let proxy = Sockets { proxied: true, ipv4: false, ipv6: false };
    let a = addr("8.8.8.8:6881");
    let b = addr("[2606:4700::1]:6881");
    assert_eq!(send_packet_route(&both, false, &a), Ok(SendVia::Ipv4));
    assert_eq!(send_packet_route(&both, false, &b), Ok(SendVia::Ipv6));
    assert_eq!(send_packet_route(&v4, false, &b), Err(SendFault::NoIpv6));
    assert_eq!(send_packet_route(&v6, false, &a), Err(SendFault::NoIpv4));
    assert_eq!(send_packet_route(&proxy, false, &a), Ok(SendVia::Proxy));
    assert_eq!(
        send_packet_route(&both, true, &a),
        Err(SendFault::Reconfigured)
    );
    assert_eq!(send_attempts(&v4, &vec![a, b]), vec![a]);
    assert_eq!(send_attempts(&both, &vec![a, b]), vec![a, b]);
    assert_eq!(
        send_packet_host_targets(&both, false, &vec![addr("10.0.0.1:1")]),
        Err(SendFault::NoPublicAddress)
    );
    assert_eq!(
        send_packet_host_targets(&both, false, &vec![addr("10.0.0.1:1"), a]),
        Ok(vec![a])
    );
    assert!(query_addresses(&both, &vec![]).is_none());
    assert_eq!(query_addresses(&v4, &vec![a, b]).unwrap().0, a);
}

#[test]
fn nodes_keep_what_they_learn() {
    let routes = vec![(id(1), addr("127.0.0.1:6881"))];
    let mut dht = Dht::new(id(0), [5u8; 16], &routes, 0);
    assert_eq!(dht.routing_table_len(), 1);
    dht.add_bootstrap_nodes(&vec![(id(2), addr("[::1]:6881"))], 0);
    let snapshot = dht.routing_snapshot();
    assert!(snapshot.contains(&routes[0]));
    assert!(snapshot.iter().any(|(n, _)| *n == id(2)));
    dht.add_node(addr("9.9.9.9:1"), 0);
    assert_eq!(dht.routing_table_len(), 3);
    assert_eq!(dht.peer_store_len(), 0);

    let (lookup, asked) = dht.begin_lookup(&id(7)).unwrap();
    assert!(lookup.is_waiting());
    assert_eq!(asked.len(), 3 + 5);
    dht.set_private(id(7), true);
    assert!(dht.begin_lookup(&id(7)).is_none());
}

#[test]
fn nodes_learn_from_pongs_and_answers() {
    let mut dht = Dht::new(id(0), [5u8; 16], &vec![], 0);
    let at = addr("9.9.9.9:1");
    let pong = |n: u8| {
        Value::Dict(vec![
            entry(b"r", Value::Dict(vec![entry(b"id", text(&[n; 20]))])),
            entry(b"t", text(b"aa")),
            entry(b"y", text(b"r")),
        ])
    };
    assert!(!dht.on_pong(at, id(4), &pong(5), 0));
    assert_eq!(dht.routing_table_len(), 0);
    assert!(dht.on_pong(at, id(4), &pong(4), 0));
    assert_eq!(dht.routing_snapshot(), vec![(id(4), at)]);

    dht.add_routes(
        &vec![
            (id(6), addr("9.9.9.8:1"), true),
            (id(7), addr("9.9.9.7:1"), false),
        ],
        0,
    );
    assert_eq!(dht.routing_table_len(), 3);
    assert_eq!(dht.refresh_routing(ROUTING_STALE_MS, 2).len(), 2);
    assert_eq!(dht.server.own_id(), id(0));

    dht.add_bootstrap_hosts(&vec![
        (id(1), "a.example".to_string(), 6881),
        (id(2), "a.example".to_string(), 6881),
        (id(3), "b.example".to_string(), 6881),
    ]);
    assert_eq!(dht.bootstrap_hosts.len(), 2);
}

#[test]
fn proxied_answers_are_matched_by_name_or_address() {
    let mut pending = PendingMap::new();
    let host = DhtTarget::Host("router.example".to_string(), 6881);
    let plain = DhtTarget::Addr(addr("1.2.3.4:6881"));
    let first = pending.next_number();
    assert_eq!(
        pending.register(b"aa".to_vec(), DhtTarget::Addr(addr("1.2.3.4:6881")), None),
        Some(first)
    );
    assert!(matches!(
        pending.target_of(b"aa"),
        Some(DhtTarget::Addr(a)) if *a == addr("1.2.3.4:6881")
    ));
    assert!(pending.target_of(b"bb").is_none());
    assert_eq!(pending.deliver_proxied(b"aa", &host, false), None);
    assert_eq!(
        pending.deliver_proxied(b"aa", &DhtTarget::Addr(addr("1.2.3.5:6881")), false),
        None
    );
    assert_eq!(pending.deliver_proxied(b"aa", &plain, false), Some(first));
    let second = pending.register(b"aa".to_vec(), plain, None).unwrap();
    assert_eq!(pending.deliver_proxied(b"aa", &host, true), Some(second));
}

#[test]
fn searches_report_new_peers_and_end() {
    let known = vec![addr("8.8.0.1:1"), addr("8.8.0.2:1")];
    let (mut lookup, asked) = Lookup::begin(id(0), &known, &vec![]);
    assert_eq!(asked.len(), 2);
    let peer = addr("203.0.113.9:6881");
    let step = lookup.on_reply(GetPeersReply {
        from: DhtTarget::Addr(known[0]),
        body: GetPeersResponseBody {
            responder_id: Some(id(1)),
            peers: vec![peer, peer],
            nodes: vec![(id(2), addr("8.8.0.3:1"))],
            token: Some(b"tok".to_vec()),
        },
    });
    assert_eq!(step.peers, vec![peer]);
    assert_eq!(step.queries.len(), 1);
    assert!(same_target(
        &step.queries[0],
        &DhtTarget::Addr(addr("8.8.0.3:1"))
    ));
    assert!(!step.finished);
    assert!(!lookup.on_silence().finished);
    assert!(lookup.on_silence().finished);
    let announce = lookup.announcements();
    assert_eq!(announce.len(), 1);
    assert_eq!(announce[0].1.token, b"tok".to_vec());
    assert!(same_target(
        &announce[0].1.target,
        &DhtTarget::Addr(known[0])
    ));
}

// ---- the shared node ----

#[test]
fn proxied_dht_failure_blocks_implicit_direct_creation() {
    let mut shared = SharedDhtState::new();
    assert!(shared.may_start_directly());
    let nothing = Replaced { dht: None, proxy_requested: None };
    assert_eq!(shared.begin_install(true, true), Install::Spawn(nothing));
    shared.install_failed(nothing, true, "SOCKS5 required".to_string());
    assert_eq!(shared.dht, None);
    assert!(!shared.may_start_directly());
    assert_eq!(shared.begin_install(false, false), Install::Refuse);
}

#[test]
fn dht_route_swap_surfaces_unavailable_http_udp_route() {
    let mut shared = SharedDhtState::new();
    let nothing = Replaced { dht: None, proxy_requested: None };
    assert_eq!(shared.begin_install(false, true), Install::Spawn(nothing));
    assert_eq!(
        shared.installed(nothing, 1, false),
        Outcome { shared: Some(1), stop: None }
    );
    let swap = shared.begin_swap(true);
    shared.swap_failed(&swap, true, "SOCKS5 required".to_string());
    assert_eq!(shared.dht, Some(1));
    assert_eq!(shared.proxy_requested, Some(false));
    assert_eq!(shared.last_error.as_deref(), Some("SOCKS5 required"));
    assert_eq!(shared.begin_install(false, false), Install::Reuse(1));
}

#[test]
fn an_installation_speaks_of_the_node_it_began_with() {
    let mut shared = SharedDhtState::new();
    shared.installed(Replaced { dht: None, proxy_requested: None }, 1, false);
    let began = Replaced { dht: Some(1), proxy_requested: Some(false) };
    assert_eq!(shared.begin_install(true, true), Install::Spawn(began));
    let swap = shared.begin_swap(true);
    let _swap = shared.swap_started(swap, 2);
    let mut failed = SharedDhtState {
        dht: shared.dht,
        proxy_requested: shared.proxy_requested,
        last_error: None,
    };
    assert_eq!(
        shared.installed(began, 3, true),
        Outcome { shared: Some(3), stop: Some(1) }
    );
    failed.install_failed(began, true, "no route".to_string());
    assert_eq!(failed.dht, Some(1));
    assert_eq!(failed.proxy_requested, Some(false));
    assert_eq!(failed.last_error.as_deref(), Some("no route"));
}

#[test]
fn taking_a_change_of_route_back_restores_the_node() {
    let mut shared = SharedDhtState::new();
    shared.installed(Replaced { dht: None, proxy_requested: None }, 1, false);
    let swap = shared.begin_swap(true);
    let swap = shared.swap_started(swap, 2);
    assert_eq!(swap.next(), Some(2));
    assert_eq!(
        swap.commit(&shared),
        Outcome { shared: Some(2), stop: Some(1) }
    );
    assert_eq!(
        swap.rollback(&mut shared),
        Outcome { shared: Some(1), stop: Some(2) }
    );
    assert_eq!(shared.proxy_requested, Some(false));
}
