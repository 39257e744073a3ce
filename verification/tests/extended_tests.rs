use bytes::Bytes;
use risuko_bt::bencode::{encode_to_vec, Value};
use risuko_bt::net::literal::parse_ip;
use risuko_bt::net::{IpAddr, Ipv4Addr, Ipv6Addr, SocketAddr};
use risuko_bt::wire::extended::ext_handshake::ExtHandshake;
use risuko_bt::wire::extended::holepunch::{build_holepunch, parse_holepunch};
use risuko_bt::wire::extended::metadata::{
    parse_ut_metadata, ut_metadata_data, ut_metadata_reject, ut_metadata_request,
};
use risuko_bt::wire::extended::pex::{
    build_ut_pex, parse_ut_pex, parse_ut_pex_full, UtPex, MAX_PEX_PEERS,
};
use risuko_bt::wire::extended::{holepunch_err, holepunch_type, ut_metadata_type};

fn ip(text: &str) -> IpAddr {
    parse_ip(text).unwrap()
}

fn ipv4(text: &str) -> Ipv4Addr {
    match ip(text) {
        IpAddr::V4(a) => a,
        IpAddr::V6(_) => panic!("not an IPv4 address: {text}"),
    }
}

fn ipv6(text: &str) -> Ipv6Addr {
    match ip(text) {
        IpAddr::V6(a) => a,
        IpAddr::V4(_) => panic!("not an IPv6 address: {text}"),
    }
}

fn addr(text: &str) -> SocketAddr {
    let (host, port) = text.rsplit_once(':').unwrap();
    let host = host.trim_start_matches('[').trim_end_matches(']');
    SocketAddr::new(ip(host), port.parse().unwrap())
}

// ---- peer exchange ----

#[test]
fn ut_pex_encode_parse_round_trip() {
    let v4a: SocketAddr = addr("10.1.2.3:6881");
    let v6a: SocketAddr = addr("[2001:db8::7]:51413");
    let gone: SocketAddr = addr("10.9.9.9:1000");
    let payload = build_ut_pex(&[v4a, v6a], &[gone]);
    let (v4, v6) = parse_ut_pex(&payload).unwrap();
    assert_eq!(v4, vec![v4a]);
    assert_eq!(v6, vec![v6a]);
}

#[test]
fn ut_pex_full_retains_flags_and_dropped_contacts() {
    let mut added = vec![1, 2, 3, 4, 0x1a, 0xe1];
    let dropped = vec![5, 6, 7, 8, 0x1a, 0xe2];
    let payload = encode_to_vec(&Value::Dict(vec![
        (b"added".to_vec(), Value::Bytes(std::mem::take(&mut added))),
        (b"added.f".to_vec(), Value::Bytes(vec![0x02])),
        (b"dropped".to_vec(), Value::Bytes(dropped)),
    ]));
    let parsed = parse_ut_pex_full(&payload).unwrap();
    assert_eq!(parsed.added, vec![(addr("1.2.3.4:6881"), 0x02)]);
    assert_eq!(parsed.dropped, vec![addr("5.6.7.8:6882")]);
}

#[test]
fn peer_exchange_bytes_are_exact() {
    let payload = build_ut_pex(&[addr("1.2.3.4:6881")], &[]);
    assert_eq!(
        payload.as_ref(),
        b"d5:added6:\x01\x02\x03\x04\x1a\xe17:added.f1:\x006:added60:8:added6.f0:7:dropped0:8:dropped60:e"
            .as_slice()
    );
    assert!(parse_ut_pex_full(b"not bencoded").is_none());
    assert!(parse_ut_pex(b"i1e").is_none());
}

#[test]
fn peer_exchange_names_at_most_fifty_peers() {
    let many: Vec<SocketAddr> = (0..80u8)
        .map(|n| SocketAddr::v4([10, 0, 0, n], 6881))
        .collect();
    let (v4, v6) = parse_ut_pex(&build_ut_pex(&many, &many)).unwrap();
    assert_eq!(v4, many[..MAX_PEX_PEERS].to_vec());
    assert!(v6.is_empty());
}

// ---- extension handshake ----

#[test]
fn handshake_round_trip() {
    let out = ExtHandshake::new_outgoing(3, 4, Some(1024));
    let bytes = out.encode();
    let parsed = ExtHandshake::decode(&bytes).unwrap();
    assert_eq!(parsed.ut_metadata_id(), Some(3));
    assert_eq!(parsed.ut_pex_id(), Some(4));
    assert_eq!(parsed.metadata_size, Some(1024));
    assert!(parsed.client.is_some());
}

#[test]
fn handshake_parses_reqq() {
    let payload = encode_to_vec(&Value::Dict(vec![
        (
            b"m".to_vec(),
            Value::Dict(vec![(b"ut_metadata".to_vec(), Value::Int(2))]),
        ),
        (b"reqq".to_vec(), Value::Int(250)),
    ]));
    let parsed = ExtHandshake::decode(&payload).unwrap();
    assert_eq!(parsed.reqq, Some(250));
    assert_eq!(parsed.ut_metadata_id(), Some(2));
}

#[test]
fn yourip_ipv4_round_trip() {
    let ip = IpAddr::V4(ipv4("192.168.1.42"));
    let out = ExtHandshake::new_outgoing(3, 4, None).with_yourip(ip);
    let bytes = out.encode();
    let parsed = ExtHandshake::decode(&bytes).unwrap();
    assert_eq!(parsed.yourip, Some(ip));
}

#[test]
fn yourip_ipv6_round_trip() {
    let ip = IpAddr::V6(ipv6("2001:db8::1"));
    let out = ExtHandshake::new_outgoing(3, 4, None).with_yourip(ip);
    let bytes = out.encode();
    let parsed = ExtHandshake::decode(&bytes).unwrap();
    assert_eq!(parsed.yourip, Some(ip));
}

#[test]
fn advertised_addresses_and_port_round_trip() {
    let out = ExtHandshake::new_outgoing(3, 4, None)
        .with_port(51413)
        .with_ipv4(ipv4("198.51.100.7"))
        .with_ipv6(ipv6("2001:db8::7"));
    let parsed = ExtHandshake::decode(&out.encode()).unwrap();
    assert_eq!(parsed.port, Some(51413));
    assert_eq!(parsed.ipv4, Some(ipv4("198.51.100.7")));
    assert_eq!(parsed.ipv6, Some(ipv6("2001:db8::7")));
}

#[test]
fn holepunch_advertised_in_handshake() {
    let out = ExtHandshake::new_outgoing(3, 4, None).with_holepunch(5);
    let bytes = out.encode();
    let parsed = ExtHandshake::decode(&bytes).unwrap();
    assert_eq!(parsed.ut_holepunch_id(), Some(5));
    // Existing extensions remain advertised alongside it
    assert_eq!(parsed.ut_metadata_id(), Some(3));
    assert_eq!(parsed.ut_pex_id(), Some(4));
}

#[test]
fn holepunch_handshake_absent_when_not_advertised() {
    let out = ExtHandshake::new_outgoing(3, 4, None);
    let parsed = ExtHandshake::decode(&out.encode()).unwrap();
    assert_eq!(parsed.ut_holepunch_id(), None);
}

#[test]
fn default_extension_handshake_says_nothing() {
    let out = ExtHandshake::default();
    assert_eq!(out.encode().as_ref(), b"d1:mdee".as_slice());
    assert_eq!(out.ut_metadata_id(), None);
}

#[test]
fn malformed_extension_handshakes_are_refused() {
    assert!(ExtHandshake::decode(b"").is_none());
    assert!(ExtHandshake::decode(b"d1:m").is_none());
}

// ---- hole punching ----

#[test]
fn holepunch_connect_v4_round_trip() {
    let addr: SocketAddr = addr("203.0.113.7:51413");
    let bytes = build_holepunch(holepunch_type::CONNECT, addr, 0);
    assert_eq!(bytes.len(), 12);
    let parsed = parse_holepunch(&bytes).unwrap();
    assert_eq!(parsed.msg_type, holepunch_type::CONNECT);
    assert_eq!(parsed.addr, addr);
    assert_eq!(parsed.err_code, 0);
}

#[test]
fn holepunch_rendezvous_v6_round_trip() {
    let addr: SocketAddr = addr("[2001:db8::dead:beef]:6881");
    let bytes = build_holepunch(holepunch_type::RENDEZVOUS, addr, 0);
    assert_eq!(bytes.len(), 24);
    let parsed = parse_holepunch(&bytes).unwrap();
    assert_eq!(parsed.msg_type, holepunch_type::RENDEZVOUS);
    assert_eq!(parsed.addr, addr);
}

#[test]
fn holepunch_error_carries_code() {
    let addr: SocketAddr = addr("198.51.100.9:1337");
    let bytes = build_holepunch(holepunch_type::ERROR, addr, holepunch_err::NO_SUCH_PEER);
    assert_eq!(bytes.len(), 12); // ...+ err_code(4)
    let parsed = parse_holepunch(&bytes).unwrap();
    assert_eq!(parsed.msg_type, holepunch_type::ERROR);
    assert_eq!(parsed.addr, addr);
    assert_eq!(parsed.err_code, holepunch_err::NO_SUCH_PEER);
}

#[test]
fn holepunch_rejects_truncated_and_unknown_family() {
    assert!(parse_holepunch(&[]).is_none());
    assert!(parse_holepunch(&[holepunch_type::CONNECT]).is_none());
    assert!(parse_holepunch(&[holepunch_type::CONNECT, 0, 1, 2, 3, 4]).is_none());
    // unknown address family
    assert!(parse_holepunch(&[holepunch_type::CONNECT, 9, 1, 2, 3, 4, 0, 0]).is_none());
}

#[test]
fn holepunch_codes_belong_to_errors() {
    let mut bytes = build_holepunch(holepunch_type::CONNECT, addr("1.2.3.4:5"), 0).to_vec();
    bytes[11] = 1;
    assert!(parse_holepunch(&bytes).is_none());
    bytes[0] = holepunch_type::ERROR;
    assert_eq!(parse_holepunch(&bytes).unwrap().err_code, 1);
}

// ---- metadata exchange ----

#[test]
fn ut_metadata_request_parse() {
    let bytes = ut_metadata_request(5);
    let parsed = parse_ut_metadata(bytes).unwrap();
    assert_eq!(parsed.msg_type, ut_metadata_type::REQUEST);
    assert_eq!(parsed.piece, 5);
    assert!(parsed.block.is_empty());
}

#[test]
fn ut_metadata_data_parse() {
    let data = vec![0xaau8; 200];
    let bytes = ut_metadata_data(2, 1_000_000, &data);
    let parsed = parse_ut_metadata(bytes).unwrap();
    assert_eq!(parsed.msg_type, ut_metadata_type::DATA);
    assert_eq!(parsed.piece, 2);
    assert_eq!(parsed.total_size, Some(1_000_000));
    assert_eq!(parsed.block.as_ref(), data.as_slice());
}

#[test]
fn ut_metadata_reject_parse() {
    let bytes = ut_metadata_reject(7);
    let parsed = parse_ut_metadata(bytes).unwrap();
    assert_eq!(parsed.msg_type, ut_metadata_type::REJECT);
    assert_eq!(parsed.piece, 7);
    assert!(parsed.block.is_empty());
}

#[test]
fn metadata_requests_are_exact() {
    assert_eq!(
        ut_metadata_request(5).as_ref(),
        b"d8:msg_typei0e5:piecei5ee".as_slice()
    );
    assert!(parse_ut_metadata(Bytes::from_static(b"d5:piecei5ee")).is_none());
}

#[test]
fn a_handshake_comes_back_up_to_the_number_of_items_that_are_read() {
    let mut full = ExtHandshake::new_outgoing(3, 4, None);
    full.supported = (0..65_534u32)
        .map(|i| (format!("x{i:05}").into_bytes(), 1 + (i % 255) as u8))
        .collect();
    full.client = None;
    let parsed = ExtHandshake::decode(&full.encode()).unwrap();
    assert_eq!(parsed.supported, full.supported);
    assert_eq!(parsed.reqq, None);

    full.supported.push((b"x65534".to_vec(), 1));
    assert!(ExtHandshake::decode(&full.encode()).is_none());
}

#[test]
fn pex_messages_are_compared_by_what_they_say() {
    let empty = UtPex::default();
    assert!(empty.added.is_empty());
    assert!(empty.dropped.is_empty());
    let mut other = empty.clone();
    assert_eq!(other, empty);
    other.dropped.push(addr("10.0.0.1:6881"));
    assert_ne!(other, empty);
}
