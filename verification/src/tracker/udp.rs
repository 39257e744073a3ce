//! The datagrams that are exchanged with a tracker.

use vstd::prelude::*;

use crate::be::{
    be16, be16_round_trip, be32, be32_round_trip, be64, be64_round_trip, of_be16, of_be32, of_be64,
    read_u32, read_u64, write_u16, write_u32, write_u64,
};
use crate::meta::hash::Id20;
use crate::net::peers::{compact_peers, peer_width, read_compact_peers};
use crate::net::{IpAddr, Ipv4Addr, Ipv6Addr, SocketAddr};
use crate::text::{
    begins_with, first_char, find_char, from_chars, join_text, number_in, parse_number, sub_chars,
    text_at, to_chars,
};
use crate::tracker::{
    AnnounceEvent, AnnounceRequest, AnnounceResponse, ScrapeResponse, TrackerError, TrackerFault,
};
use crate::wire::mse::random_u32;

verus! {

/// The number that opens an exchange.
pub const PROTOCOL_ID: u64 = 0x41727101980;

pub const ACTION_CONNECT: u32 = 0;

pub const ACTION_ANNOUNCE: u32 = 1;

pub const ACTION_SCRAPE: u32 = 2;

pub const ACTION_ERROR: u32 = 3;

/// How long the number of a connection is good, in milliseconds.
pub const CONNECTION_TTL_MS: u64 = 60_000;

/// How often a datagram is sent.
pub const RETRANSMIT_ATTEMPTS: u32 = 4;

/// How many torrents one datagram asks for.
pub const MAX_SCRAPE_HASHES_PER_REQUEST: usize = 74;

/// The largest datagram.
pub const MAX_UDP_PAYLOAD: usize = 65_507;

/// How long an answer is waited for, in seconds.
pub open spec fn patience(attempt: u32) -> u64 {
    if attempt == 0 {
        15
    } else if attempt == 1 {
        30
    } else {
        60
    }
}

/// How long an answer is waited for, in seconds: twice as long each time, up to a minute.
pub fn retransmit_timeout(attempt: u32) -> (r: u64)
    ensures
        r == patience(attempt),
{
    if attempt == 0 {
        15
    } else if attempt == 1 {
        30
    } else {
        60
    }
}

/// The number of an event.
pub open spec fn event_number(e: AnnounceEvent) -> u32 {
    match e {
        AnnounceEvent::Regular => 0,
        AnnounceEvent::Completed => 1,
        AnnounceEvent::Started => 2,
        AnnounceEvent::Stopped => 3,
    }
}

fn event_code(e: AnnounceEvent) -> (r: u32)
    ensures
        r == event_number(e),
{
    match e {
        AnnounceEvent::Regular => 0,
        AnnounceEvent::Completed => 1,
        AnnounceEvent::Started => 2,
        AnnounceEvent::Stopped => 3,
    }
}

/// The datagram that opens a connection.
pub open spec fn connect_bytes(txn: u32) -> Seq<u8> {
    be64(PROTOCOL_ID) + be32(ACTION_CONNECT) + be32(txn)
}

pub fn connect_body(txn: u32) -> (r: Vec<u8>)
    ensures
        r@ == connect_bytes(txn),
{
    let mut out: Vec<u8> = Vec::new();
    write_u64(&mut out, PROTOCOL_ID);
    write_u32(&mut out, ACTION_CONNECT);
    write_u32(&mut out, txn);
    assert(out@ =~= connect_bytes(txn));
    out
}

/// The datagram that announces us.
pub open spec fn announce_bytes(conn_id: u64, txn: u32, req: AnnounceRequest) -> Seq<u8> {
    be64(conn_id) + be32(ACTION_ANNOUNCE) + be32(txn) + req.info_hash@ + req.peer_id@ + be64(
        req.downloaded,
    ) + be64(req.left) + be64(req.uploaded) + be32(event_number(req.event)) + be32(0) + be32(
        req.key,
    ) + be32(req.num_want) + be16(req.port)
}

/// The datagram that announces us, under a transaction id.
pub fn announce_body(conn_id: u64, txn: u32, req: &AnnounceRequest) -> (r: Vec<u8>)
    ensures
        r@ == announce_bytes(conn_id, txn, *req),
        r.len() == 98,
{
    let mut out: Vec<u8> = Vec::new();
    write_u64(&mut out, conn_id);
    write_u32(&mut out, ACTION_ANNOUNCE);
    write_u32(&mut out, txn);
    out.extend_from_slice(req.info_hash.0.as_slice());
    out.extend_from_slice(req.peer_id.0.as_slice());
    write_u64(&mut out, req.downloaded);
    write_u64(&mut out, req.left);
    write_u64(&mut out, req.uploaded);
    write_u32(&mut out, event_code(req.event));
    write_u32(&mut out, 0);
    write_u32(&mut out, req.key);
    write_u32(&mut out, req.num_want);
    write_u16(&mut out, req.port);
    assert(out@ =~= announce_bytes(conn_id, txn, *req));
    out
}

/// The datagram that announces us, and its transaction id, which nobody can guess.
pub fn build_announce_body(conn_id: u64, req: &AnnounceRequest) -> (r: (Vec<u8>, u32))
    ensures
        r.0@ == announce_bytes(conn_id, r.1, *req),
{
    let txn: u32 = random_u32();
    (announce_body(conn_id, txn, req), txn)
}

/// The digests of torrents, one behind the other.
pub open spec fn hashes_bytes(hashes: Seq<Id20>) -> Seq<u8>
    decreases hashes.len(),
{
    if hashes.len() == 0 {
        seq![]
    } else {
        hashes_bytes(hashes.drop_last()) + hashes.last()@
    }
}

/// The datagram that asks what a tracker knows of torrents.
pub open spec fn scrape_bytes(conn_id: u64, txn: u32, hashes: Seq<Id20>) -> Seq<u8> {
    be64(conn_id) + be32(ACTION_SCRAPE) + be32(txn) + hashes_bytes(hashes)
}

pub fn scrape_body(conn_id: u64, txn: u32, hashes: &Vec<Id20>) -> (r: Vec<u8>)
    ensures
        r@ == scrape_bytes(conn_id, txn, hashes@),
{
    let mut out: Vec<u8> = Vec::new();
    write_u64(&mut out, conn_id);
    write_u32(&mut out, ACTION_SCRAPE);
    write_u32(&mut out, txn);
    let ghost head = be64(conn_id) + be32(ACTION_SCRAPE) + be32(txn);
    let mut i: usize = 0;
    assert(hashes@.take(0) =~= seq![]);
    assert(out@ =~= head + hashes_bytes(hashes@.take(0)));
    while i < hashes.len()
        invariant
            i <= hashes.len(),
            out@ == head + hashes_bytes(hashes@.take(i as int)),
        decreases hashes.len() - i,
    {
        let ghost before = out@;
        out.extend_from_slice(hashes[i].0.as_slice());
        proof {
            assert(hashes@.take(i + 1).drop_last() =~= hashes@.take(i as int));
            assert(out@ =~= head + hashes_bytes(hashes@.take(i + 1)));
        }
        i += 1;
    }
    assert(hashes@.take(i as int) =~= hashes@);
    out
}

/// How many bytes an answer is given room for.
pub open spec fn answer_room(is_ipv6: bool, num_want: u32) -> int {
    let n = 20 + (if is_ipv6 {
        18int
    } else {
        6int
    }) * num_want;
    if n < 2048 {
        2048
    } else if n > MAX_UDP_PAYLOAD {
        MAX_UDP_PAYLOAD as int
    } else {
        n
    }
}

pub fn announce_response_buffer_len(is_ipv6: bool, num_want: u32) -> (r: usize)
    ensures
        r == answer_room(is_ipv6, num_want),
{
    let stride: u64 = if is_ipv6 {
        18
    } else {
        6
    };
    let n: u64 = 20 + stride * num_want as u64;
    if n < 2048 {
        2048
    } else if n > MAX_UDP_PAYLOAD as u64 {
        MAX_UDP_PAYLOAD
    } else {
        n as usize
    }
}

/// The text of bytes, with a replacement character for what is not UTF-8.
pub uninterp spec fn lossy_text(b: Seq<u8>) -> Seq<char>;

/// `String::from_utf8_lossy`: the text of the bytes, with a replacement character for what is
/// not UTF-8.
#[verifier::external_body]
fn read_lossy(b: &[u8]) -> (r: String)
    ensures
        r@ == lossy_text(b@),
{
    String::from_utf8_lossy(b).into_owned()
}

/// The message of an error answer.
pub fn read_error(tail: &[u8]) -> (r: String)
    ensures
        r@ == lossy_text(tail@),
{
    read_lossy(tail)
}

/// True when `r` is what an answer to an announcement says; an interval of zero counts as one.
pub open spec fn says(r: AnnounceResponse, b: Seq<u8>, v6: bool) -> bool {
    let interval = of_be32(b.skip(8));
    &&& r.interval == (if interval == 0 {
        1
    } else {
        interval as int
    })
    &&& r.leechers == Some(of_be32(b.skip(12)))
    &&& r.seeders == Some(of_be32(b.skip(16)))
    &&& r.peers@ == compact_peers(b.skip(20), v6)
}

pub fn parse_announce_response(buf: &[u8], is_ipv6: bool) -> (r: AnnounceResponse)
    requires
        buf.len() >= 20,
    ensures
        says(r, buf@, is_ipv6),
{
    let interval: u32 = read_u32(buf, 8);
    let leechers: u32 = read_u32(buf, 12);
    let seeders: u32 = read_u32(buf, 16);
    let tail = &buf[20..buf.len()];
    assert(tail@ =~= buf@.skip(20));
    AnnounceResponse {
        interval: if interval == 0 {
            1
        } else {
            interval as u64
        },
        peers: read_compact_peers(tail, is_ipv6),
        seeders: Some(seeders),
        leechers: Some(leechers),
    }
}

/// What a datagram says of a connection that is being opened.
pub enum ConnectVerdict {
    /// Nothing that counts.
    Ignore,
    Rejected(Seq<char>),
    Connected(u64),
}

/// What a datagram says of a connection that is being opened: an error counts whatever it
/// answers.
pub open spec fn connect_verdict(b: Seq<u8>, txn: u32) -> ConnectVerdict {
    if b.len() < 8 {
        ConnectVerdict::Ignore
    } else if of_be32(b) == ACTION_ERROR {
        ConnectVerdict::Rejected(lossy_text(b.skip(8)))
    } else if b.len() != 16 || of_be32(b) != ACTION_CONNECT || of_be32(b.skip(4)) != txn {
        ConnectVerdict::Ignore
    } else {
        ConnectVerdict::Connected(of_be64(b.skip(8)))
    }
}

/// What a datagram says of a request.
#[derive(Debug)]
pub enum Verdict<T> {
    /// Nothing that counts.
    Ignore,
    Rejected(String),
    Answer(T),
}

/// Judge a datagram while a connection is being opened.
pub fn judge_connect(buf: &[u8], txn: u32) -> (r: Verdict<u64>)
    ensures
        match connect_verdict(buf@, txn) {
            ConnectVerdict::Ignore => r is Ignore,
            ConnectVerdict::Rejected(m) => r matches Verdict::Rejected(s) && s@ == m,
            ConnectVerdict::Connected(id) => r == Verdict::Answer(id),
        },
{
    if buf.len() < 8 {
        return Verdict::Ignore;
    }
    assert(buf@.skip(0) =~= buf@);
    let action: u32 = read_u32(buf, 0);
    let rtxn: u32 = read_u32(buf, 4);
    if action == ACTION_ERROR {
        let tail = &buf[8..buf.len()];
        assert(tail@ =~= buf@.skip(8));
        return Verdict::Rejected(read_error(tail));
    }
    if buf.len() != 16 || action != ACTION_CONNECT || rtxn != txn {
        return Verdict::Ignore;
    }
    Verdict::Answer(read_u64(buf, 8))
}

/// True when a datagram is the answer to an announcement: it is complete, and it answers ours.
pub open spec fn answers_announce(b: Seq<u8>, txn: u32, v6: bool) -> bool {
    b.len() >= 20 && (b.len() - 20) % peer_width(v6) == 0 && of_be32(b) == ACTION_ANNOUNCE
        && of_be32(b.skip(4)) == txn
}

/// Judge a datagram while an announcement is waited for: an error counts whatever it answers.
pub fn judge_announce(buf: &[u8], txn: u32, is_ipv6: bool) -> (r: Verdict<AnnounceResponse>)
    ensures
        if buf@.len() < 8 {
            r is Ignore
        } else if of_be32(buf@) == ACTION_ERROR {
            r matches Verdict::Rejected(s) && s@ == lossy_text(buf@.skip(8))
        } else if answers_announce(buf@, txn, is_ipv6) {
            r matches Verdict::Answer(a) && says(a, buf@, is_ipv6)
        } else {
            r is Ignore
        },
{
    if buf.len() < 8 {
        return Verdict::Ignore;
    }
    assert(buf@.skip(0) =~= buf@);
    let action: u32 = read_u32(buf, 0);
    let rtxn: u32 = read_u32(buf, 4);
    if action == ACTION_ERROR {
        let tail = &buf[8..buf.len()];
        assert(tail@ =~= buf@.skip(8));
        return Verdict::Rejected(read_error(tail));
    }
    let stride: usize = if is_ipv6 {
        18
    } else {
        6
    };
    if buf.len() < 20 || (buf.len() - 20) % stride != 0 || action != ACTION_ANNOUNCE || rtxn
        != txn {
        return Verdict::Ignore;
    }
    Verdict::Answer(parse_announce_response(buf, is_ipv6))
}

/// The counts in an answer, twelve bytes for each torrent.
pub open spec fn counts_in(b: Seq<u8>, n: nat) -> Seq<ScrapeResponse> {
    Seq::new(
        n,
        |i: int|
            ScrapeResponse {
                complete: of_be32(b.skip(12 * i)),
                downloaded: of_be32(b.skip(12 * i + 4)),
                incomplete: of_be32(b.skip(12 * i + 8)),
            },
    )
}

/// Judge a datagram while counts are waited for: all of it has to answer ours.
pub fn judge_scrape(buf: &[u8], txn: u32, count: usize) -> (r: Verdict<Vec<ScrapeResponse>>)
    requires
        count <= MAX_SCRAPE_HASHES_PER_REQUEST,
    ensures
        if buf@.len() < 8 || of_be32(buf@.skip(4)) != txn {
            r is Ignore
        } else if of_be32(buf@) == ACTION_ERROR {
            r matches Verdict::Rejected(s) && s@ == lossy_text(buf@.skip(8))
        } else if of_be32(buf@) == ACTION_SCRAPE && buf@.len() == 8 + 12 * count {
            r matches Verdict::Answer(v) && v@ == counts_in(buf@.skip(8), count as nat)
        } else {
            r is Ignore
        },
{
    if buf.len() < 8 {
        return Verdict::Ignore;
    }
    assert(buf@.skip(0) =~= buf@);
    let action: u32 = read_u32(buf, 0);
    let rtxn: u32 = read_u32(buf, 4);
    if rtxn != txn {
        return Verdict::Ignore;
    }
    if action == ACTION_ERROR {
        let tail = &buf[8..buf.len()];
        assert(tail@ =~= buf@.skip(8));
        return Verdict::Rejected(read_error(tail));
    }
    if action != ACTION_SCRAPE || buf.len() != 8 + count * 12 {
        return Verdict::Ignore;
    }
    let ghost all = counts_in(buf@.skip(8), count as nat);
    let mut out: Vec<ScrapeResponse> = Vec::new();
    let mut i: usize = 0;
    assert(out@ =~= all.take(0));
    while i < count
        invariant
            i <= count <= MAX_SCRAPE_HASHES_PER_REQUEST,
            buf@.len() == 8 + 12 * count,
            all == counts_in(buf@.skip(8), count as nat),
            out@ == all.take(i as int),
        decreases count - i,
    {
        let at: usize = 8 + i * 12;
        proof {
            let t = buf@.skip(8);
            assert(t.skip(12 * i) =~= buf@.skip(at as int));
            assert(t.skip(12 * i + 4) =~= buf@.skip(at + 4));
            assert(t.skip(12 * i + 8) =~= buf@.skip(at + 8));
        }
        out.push(
            ScrapeResponse {
                complete: read_u32(buf, at),
                downloaded: read_u32(buf, at + 4),
                incomplete: read_u32(buf, at + 8),
            },
        );
        assert(out@ =~= all.take(i + 1));
        i += 1;
    }
    assert(out@ =~= all);
    Verdict::Answer(out)
}

/// The endpoints that can be reached, each once, in their order.
pub open spec fn distinct_endpoints(s: Seq<SocketAddr>) -> Seq<SocketAddr>
    decreases s.len(),
{
    if s.len() == 0 {
        seq![]
    } else {
        let front = distinct_endpoints(s.drop_last());
        if s.last().spec_valid_endpoint() && !front.contains(s.last()) {
            front.push(s.last())
        } else {
            front
        }
    }
}

fn contains_endpoint(list: &Vec<SocketAddr>, addr: &SocketAddr) -> (r: bool)
    ensures
        r == list@.contains(*addr),
{
    let mut i: usize = 0;
    while i < list.len()
        invariant
            i <= list.len(),
            forall|j: int| 0 <= j < i ==> list@[j] != *addr,
        decreases list.len() - i,
    {
        if list[i] == *addr {
            return true;
        }
        i += 1;
    }
    false
}

pub fn dedupe_endpoints(endpoints: &Vec<SocketAddr>) -> (r: Vec<SocketAddr>)
    ensures
        r@ == distinct_endpoints(endpoints@),
{
    let mut out: Vec<SocketAddr> = Vec::new();
    let mut i: usize = 0;
    assert(endpoints@.take(0) =~= seq![]);
    while i < endpoints.len()
        invariant
            i <= endpoints.len(),
            out@ == distinct_endpoints(endpoints@.take(i as int)),
        decreases endpoints.len() - i,
    {
        assert(endpoints@.take(i + 1).drop_last() =~= endpoints@.take(i as int));
        if endpoints[i].is_valid_endpoint() && !contains_endpoint(&out, &endpoints[i]) {
            out.push(endpoints[i]);
        }
        i += 1;
    }
    assert(endpoints@.take(i as int) =~= endpoints@);
    out
}

/// True when an endpoint can be reached from a source address.
pub open spec fn reachable_from(source: Option<SocketAddr>, target: SocketAddr) -> bool {
    match source {
        None => true,
        Some(s) => s.ip.spec_unspecified() || (s.ip is V4) == (target.ip is V4),
    }
}

/// The endpoints that can be reached from a source address, in their order.
pub open spec fn those_reachable(s: Seq<SocketAddr>, source: Option<SocketAddr>) -> Seq<SocketAddr>
    decreases s.len(),
{
    if s.len() == 0 {
        seq![]
    } else {
        let front = those_reachable(s.drop_last(), source);
        if reachable_from(source, s.last()) {
            front.push(s.last())
        } else {
            front
        }
    }
}

/// The endpoints that a tracker is tried at; an error where there is none.
pub fn tracker_targets(resolved: &Vec<SocketAddr>, source: Option<SocketAddr>, host: &str) -> (r:
    Result<Vec<SocketAddr>, TrackerError>)
    ensures
        ({
            let t = those_reachable(distinct_endpoints(resolved@), source);
            if t.len() == 0 {
                r matches Err(e) && e@ == TrackerFault::Url("no DNS result for "@ + host@)
            } else {
                r matches Ok(v) && v@ == t
            }
        }),
{
    let all = dedupe_endpoints(resolved);
    let mut out: Vec<SocketAddr> = Vec::new();
    let mut i: usize = 0;
    assert(all@.take(0) =~= seq![]);
    while i < all.len()
        invariant
            i <= all.len(),
            out@ == those_reachable(all@.take(i as int), source),
        decreases all.len() - i,
    {
        assert(all@.take(i + 1).drop_last() =~= all@.take(i as int));
        let reached = match source {
            None => true,
            Some(s) => s.ip.is_unspecified() || s.is_ipv4() == all[i].is_ipv4(),
        };
        if reached {
            out.push(all[i]);
        }
        i += 1;
    }
    assert(all@.take(i as int) =~= all@);
    if out.len() == 0 {
        return Err(TrackerError::Url(join_text("no DNS result for ", host)));
    }
    Ok(out)
}

/// True when a tracker is reached through the proxy: there is one, and neither the user nor a
/// source address of our own asks for the direct way.
pub fn goes_through_proxy(has_proxy: bool, source: Option<SocketAddr>, bypasses_proxy: bool) -> (r:
    bool)
    ensures
        r == (has_proxy && !((source matches Some(s) && !s.ip.spec_unspecified())
            && bypasses_proxy)),
{
    let concrete = match source {
        Some(s) => !s.ip.is_unspecified(),
        None => false,
    };
    has_proxy && !(concrete && bypasses_proxy)
}

/// The address that a socket for a target is bound to: the source address where it is of the same
/// family, and any address otherwise.
pub open spec fn bound_to(target: SocketAddr, source: Option<SocketAddr>) -> SocketAddr {
    match source {
        Some(s) => if !s.ip.spec_unspecified() && (s.ip is V4) == (target.ip is V4) {
            SocketAddr { ip: s.ip, port: 0 }
        } else {
            any_address(target.ip is V6)
        },
        None => any_address(target.ip is V6),
    }
}

/// Any address of a family.
pub open spec fn any_address(v6: bool) -> SocketAddr {
    if v6 {
        SocketAddr { ip: IpAddr::V6(Ipv6Addr([0, 0, 0, 0, 0, 0, 0, 0, 0, 0, 0, 0, 0, 0, 0, 0])), port: 0 }
    } else {
        SocketAddr { ip: IpAddr::V4(Ipv4Addr([0, 0, 0, 0])), port: 0 }
    }
}

pub fn direct_bind_addr(target: &SocketAddr, source: Option<SocketAddr>) -> (r: SocketAddr)
    ensures
        r == bound_to(*target, source),
{
    match source {
        Some(s) => {
            if !s.ip.is_unspecified() && s.is_ipv4() == target.is_ipv4() {
                return SocketAddr::new(s.ip, 0);
            }
        },
        None => {},
    }
    if target.is_ipv6() {
        SocketAddr::new(
            IpAddr::V6(Ipv6Addr([0, 0, 0, 0, 0, 0, 0, 0, 0, 0, 0, 0, 0, 0, 0, 0])),
            0,
        )
    } else {
        SocketAddr::new(IpAddr::V4(Ipv4Addr([0, 0, 0, 0])), 0)
    }
}

/// Where `c` last stands in `s`; minus one where it does not.
pub open spec fn last_char(s: Seq<char>, c: char) -> int
    decreases s.len(),
{
    if s.len() == 0 {
        -1
    } else if s.last() == c {
        s.len() - 1
    } else {
        last_char(s.drop_last(), c)
    }
}

/// A text without the given characters at its start.
pub open spec fn without_front(s: Seq<char>, c: char) -> Seq<char>
    decreases s.len(),
{
    if s.len() > 0 && s[0] == c {
        without_front(s.drop_first(), c)
    } else {
        s
    }
}

/// A text without the given characters at its end.
pub open spec fn without_back(s: Seq<char>, c: char) -> Seq<char>
    decreases s.len(),
{
    if s.len() > 0 && s.last() == c {
        without_back(s.drop_last(), c)
    } else {
        s
    }
}

/// The part of a text before the first `c`.
pub open spec fn until(s: Seq<char>, c: char) -> Seq<char> {
    s.take(first_char(s, c))
}

/// The host and port of the address of a tracker; what follows them does not matter. Brackets
/// around the host are dropped.
pub open spec fn udp_endpoint(url: Seq<char>) -> Result<(Seq<char>, u16), TrackerFault> {
    if !text_at(url, 0, "udp://"@) {
        Err(TrackerFault::UnsupportedScheme(url))
    } else {
        let rest = until(until(url.skip(6), '/'), '?');
        let colon = last_char(rest, ':');
        if colon < 0 {
            Err(TrackerFault::Url("missing port in "@ + url))
        } else {
            let host = without_back(without_front(rest.take(colon), '['), ']');
            match number_in(rest.skip(colon + 1), 65535) {
                None => Err(TrackerFault::Url("bad port in "@ + url)),
                Some(port) => if host.len() == 0 || port == 0 {
                    Err(TrackerFault::Url("invalid endpoint in "@ + url))
                } else {
                    Ok((host, port as u16))
                },
            }
        }
    }
}

fn cut_at(s: &Vec<char>, c: char) -> (r: Vec<char>)
    ensures
        r@ == until(s@, c),
{
    let i: usize = find_char(s.as_slice(), c, 0);
    assert(s@.skip(0) =~= s@);
    let r = sub_chars(s.as_slice(), 0, i);
    assert(r@ =~= s@.take(i as int));
    r
}

fn find_last(s: &Vec<char>, c: char) -> (r: Option<usize>)
    ensures
        match r {
            Some(i) => i == last_char(s@, c) && i < s.len(),
            None => last_char(s@, c) < 0,
        },
{
    let mut n: usize = s.len();
    assert(s@.take(n as int) =~= s@);
    while n > 0 && s[n - 1] != c
        invariant
            n <= s.len(),
            last_char(s@, c) == last_char(s@.take(n as int), c),
        decreases n,
    {
        assert(s@.take(n as int).drop_last() =~= s@.take(n - 1));
        n -= 1;
    }
    if n == 0 {
        return None;
    }
    Some(n - 1)
}

fn drop_front(s: &Vec<char>, c: char) -> (r: Vec<char>)
    ensures
        r@ == without_front(s@, c),
{
    let mut i: usize = 0;
    assert(s@.skip(0) =~= s@);
    while i < s.len() && s[i] == c
        invariant
            i <= s.len(),
            without_front(s@, c) == without_front(s@.skip(i as int), c),
        decreases s.len() - i,
    {
        assert(s@.skip(i as int).drop_first() =~= s@.skip(i + 1));
        i += 1;
    }
    let r = sub_chars(s.as_slice(), i, s.len());
    assert(r@ =~= s@.skip(i as int));
    r
}

fn drop_back(s: &Vec<char>, c: char) -> (r: Vec<char>)
    ensures
        r@ == without_back(s@, c),
{
    let mut n: usize = s.len();
    assert(s@.take(n as int) =~= s@);
    while n > 0 && s[n - 1] == c
        invariant
            n <= s.len(),
            without_back(s@, c) == without_back(s@.take(n as int), c),
        decreases n,
    {
        assert(s@.take(n as int).drop_last() =~= s@.take(n - 1));
        n -= 1;
    }
    let r = sub_chars(s.as_slice(), 0, n);
    assert(r@ =~= s@.take(n as int));
    r
}

pub fn parse_udp_url(url: &str) -> (r: Result<(String, u16), TrackerError>)
    ensures
        match udp_endpoint(url@) {
            Ok((h, p)) => r matches Ok(x) && x.0@ == h && x.1 == p,
            Err(fault) => r matches Err(e) && e@ == fault,
        },
{
    if !begins_with(url, "udp://") {
        return Err(TrackerError::UnsupportedScheme(url.to_owned()));
    }
    proof {
        reveal_strlit("udp://");
    }
    let chars = to_chars(url);
    assert("udp://"@.len() == 6);
    let rest = sub_chars(chars.as_slice(), 6, chars.len());
    assert(rest@ =~= url@.skip(6));
    let rest = cut_at(&cut_at(&rest, '/'), '?');
    let colon: usize = match find_last(&rest, ':') {
        Some(i) => i,
        None => {
            return Err(TrackerError::Url(join_text("missing port in ", url)));
        },
    };
    let before = sub_chars(rest.as_slice(), 0, colon);
    let behind = sub_chars(rest.as_slice(), colon + 1, rest.len());
    assert(before@ =~= rest@.take(colon as int));
    assert(behind@ =~= rest@.skip(colon + 1));
    let host = drop_back(&drop_front(&before, '['), ']');
    let port: u64 = match parse_number(behind.as_slice(), 65535) {
        Some(p) => p,
        None => {
            return Err(TrackerError::Url(join_text("bad port in ", url)));
        },
    };
    if host.len() == 0 || port == 0 {
        return Err(TrackerError::Url(join_text("invalid endpoint in ", url)));
    }
    Ok((from_chars(host.as_slice()), port as u16))
}

/// The digests in runs of at most `n`.
pub open spec fn runs_of(s: Seq<Id20>, n: nat) -> Seq<Seq<Id20>>
    decreases s.len(),
{
    if s.len() == 0 || n == 0 {
        seq![]
    } else if s.len() <= n {
        seq![s]
    } else {
        seq![s.take(n as int)] + runs_of(s.skip(n as int), n)
    }
}

/// The mathematical values of runs of digests.
pub open spec fn run_views(v: Seq<Vec<Id20>>) -> Seq<Seq<Id20>> {
    Seq::new(v.len(), |i: int| v[i]@)
}

/// The digests in as many datagrams as they take.
pub fn scrape_batches(hashes: &Vec<Id20>) -> (r: Vec<Vec<Id20>>)
    ensures
        run_views(r@) == runs_of(hashes@, 74),
{
    let mut out: Vec<Vec<Id20>> = Vec::new();
    let mut at: usize = 0;
    proof {
        assert(hashes@.skip(0) =~= hashes@);
        assert(run_views(out@) + runs_of(hashes@, 74) =~= runs_of(hashes@, 74));
    }
    while at < hashes.len()
        invariant
            at <= hashes.len(),
            run_views(out@) + runs_of(hashes@.skip(at as int), 74) == runs_of(hashes@, 74),
        decreases hashes.len() - at,
    {
        let ghost rest = hashes@.skip(at as int);
        let n: usize = if hashes.len() - at < MAX_SCRAPE_HASHES_PER_REQUEST {
            hashes.len() - at
        } else {
            MAX_SCRAPE_HASHES_PER_REQUEST
        };
        let mut run: Vec<Id20> = Vec::new();
        let mut k: usize = 0;
        while k < n
            invariant
                k <= n,
                at + n <= hashes.len(),
                rest == hashes@.skip(at as int),
                run@ == rest.take(k as int),
            decreases n - k,
        {
            run.push(hashes[at + k]);
            assert(run@ =~= rest.take(k + 1));
            k += 1;
        }
        let ghost before = out@;
        out.push(run);
        proof {
            assert(run_views(out@) =~= run_views(before).push(run@));
            assert(rest.skip(n as int) =~= hashes@.skip(at + n));
            if rest.len() <= 74 {
                assert(rest.take(n as int) =~= rest);
                assert(hashes@.skip(at + n) =~= seq![]);
            }
            assert(run_views(out@) + runs_of(hashes@.skip(at + n), 74) =~= run_views(before)
                + runs_of(rest, 74));
        }
        at = at + n;
    }
    assert(hashes@.skip(at as int) =~= seq![]);
    assert(run_views(out@) =~= runs_of(hashes@, 74));
    out
}

proof fn lemma_number_at(b: Seq<u8>, at: int, x: u32)
    requires
        0 <= at,
        at + 4 <= b.len(),
        b.subrange(at, at + 4) == be32(x),
    ensures
        of_be32(b.skip(at)) == x,
{
    let rest = b.skip(at + 4);
    be32_round_trip(x, rest);
    assert(b.skip(at) =~= be32(x) + rest) by {
        assert forall|i: int| 0 <= i < b.len() - at implies b.skip(at)[i] == (be32(x) + rest)[i] by {
            if i < 4 {
                assert(b.subrange(at, at + 4)[i] == b[at + i]);
            }
        }
    }
}

proof fn lemma_long_number_at(b: Seq<u8>, at: int, x: u64)
    requires
        0 <= at,
        at + 8 <= b.len(),
        b.subrange(at, at + 8) == be64(x),
    ensures
        of_be64(b.skip(at)) == x,
{
    let rest = b.skip(at + 8);
    be64_round_trip(x, rest);
    assert(b.skip(at) =~= be64(x) + rest) by {
        assert forall|i: int| 0 <= i < b.len() - at implies b.skip(at)[i] == (be64(x) + rest)[i] by {
            if i < 8 {
                assert(b.subrange(at, at + 8)[i] == b[at + i]);
            }
        }
    }
}

/// A connection is opened with sixteen bytes: the number of the protocol, the action 0, and the
/// transaction.
pub proof fn how_a_connection_is_asked_for(txn: u32)
    ensures
        connect_bytes(txn).len() == 16,
        of_be64(connect_bytes(txn)) == 0x41727101980,
        of_be32(connect_bytes(txn).skip(8)) == 0,
        of_be32(connect_bytes(txn).skip(12)) == txn,
{
    let b = connect_bytes(txn);
    assert(b.subrange(0, 8) =~= be64(0x41727101980));
    assert(b.subrange(8, 12) =~= be32(0));
    assert(b.subrange(12, 16) =~= be32(txn));
    lemma_long_number_at(b, 0, 0x41727101980);
    assert(b.skip(0) =~= b);
    lemma_number_at(b, 8, 0);
    lemma_number_at(b, 12, txn);
}

/// Where everything stands in an announcement: the connection, the action 1, the transaction, the
/// digest of the torrent, our name, what was downloaded, what is left, what was uploaded, the
/// event (0 for none, 1 completed, 2 started, 3 stopped), no address, the key, how many peers are
/// wanted, and the port.
pub proof fn how_an_announcement_is_written(conn_id: u64, txn: u32, req: AnnounceRequest)
    ensures
        ({
            let b = announce_bytes(conn_id, txn, req);
            &&& b.len() == 98
            &&& of_be64(b) == conn_id
            &&& of_be32(b.skip(8)) == 1
            &&& of_be32(b.skip(12)) == txn
            &&& b.subrange(16, 36) == req.info_hash@
            &&& b.subrange(36, 56) == req.peer_id@
            &&& of_be64(b.skip(56)) == req.downloaded
            &&& of_be64(b.skip(64)) == req.left
            &&& of_be64(b.skip(72)) == req.uploaded
            &&& req.event is Regular ==> of_be32(b.skip(80)) == 0
            &&& req.event is Completed ==> of_be32(b.skip(80)) == 1
            &&& req.event is Started ==> of_be32(b.skip(80)) == 2
            &&& req.event is Stopped ==> of_be32(b.skip(80)) == 3
            &&& of_be32(b.skip(84)) == 0
            &&& of_be32(b.skip(88)) == req.key
            &&& of_be32(b.skip(92)) == req.num_want
            &&& of_be16(b.skip(96)) == req.port
        }),
{
    let b = announce_bytes(conn_id, txn, req);
    assert(req.info_hash@.len() == 20 && req.peer_id@.len() == 20);
    assert(b.subrange(0, 8) =~= be64(conn_id));
    assert(b.subrange(8, 12) =~= be32(1));
    assert(b.subrange(12, 16) =~= be32(txn));
    assert(b.subrange(16, 36) =~= req.info_hash@);
    assert(b.subrange(36, 56) =~= req.peer_id@);
    assert(b.subrange(56, 64) =~= be64(req.downloaded));
    assert(b.subrange(64, 72) =~= be64(req.left));
    assert(b.subrange(72, 80) =~= be64(req.uploaded));
    assert(b.subrange(80, 84) =~= be32(event_number(req.event)));
    assert(b.subrange(84, 88) =~= be32(0));
    assert(b.subrange(88, 92) =~= be32(req.key));
    assert(b.subrange(92, 96) =~= be32(req.num_want));
    lemma_long_number_at(b, 0, conn_id);
    assert(b.skip(0) =~= b);
    lemma_number_at(b, 8, 1);
    lemma_number_at(b, 12, txn);
    lemma_long_number_at(b, 56, req.downloaded);
    lemma_long_number_at(b, 64, req.left);
    lemma_long_number_at(b, 72, req.uploaded);
    lemma_number_at(b, 80, event_number(req.event));
    lemma_number_at(b, 84, 0);
    lemma_number_at(b, 88, req.key);
    lemma_number_at(b, 92, req.num_want);
    be16_round_trip(req.port, seq![]);
    assert(b.skip(96) =~= be16(req.port) + seq![]);
}

proof fn lemma_hashes(hashes: Seq<Id20>)
    ensures
        hashes_bytes(hashes).len() == 20 * hashes.len(),
        forall|i: int|
            0 <= i < hashes.len() ==> hashes_bytes(hashes).subrange(20 * i, 20 * i + 20) == (
            #[trigger] hashes[i])@,
    decreases hashes.len(),
{
    if hashes.len() > 0 {
        let front = hashes.drop_last();
        lemma_hashes(front);
        let b = hashes_bytes(hashes);
        assert forall|i: int| 0 <= i < hashes.len() implies b.subrange(20 * i, 20 * i + 20) == (
        #[trigger] hashes[i])@ by {
            if i < front.len() {
                assert(front[i] == hashes[i]);
                assert(b.subrange(20 * i, 20 * i + 20) =~= hashes_bytes(front).subrange(
                    20 * i,
                    20 * i + 20,
                ));
            } else {
                assert(b.subrange(20 * i, 20 * i + 20) =~= hashes.last()@);
            }
        }
    }
}

/// A tracker is asked what it knows of torrents with the connection, the action 2, the transaction
/// and the digest of every torrent, one behind the other.
pub proof fn how_counts_are_asked_for(conn_id: u64, txn: u32, hashes: Seq<Id20>, i: int)
    ensures
        ({
            let b = scrape_bytes(conn_id, txn, hashes);
            &&& b.len() == 16 + 20 * hashes.len()
            &&& of_be64(b) == conn_id
            &&& of_be32(b.skip(8)) == 2
            &&& of_be32(b.skip(12)) == txn
            &&& 0 <= i < hashes.len() ==> b.subrange(16 + 20 * i, 36 + 20 * i) == hashes[i]@
        }),
{
    let b = scrape_bytes(conn_id, txn, hashes);
    lemma_hashes(hashes);
    assert(b.subrange(0, 8) =~= be64(conn_id));
    assert(b.subrange(8, 12) =~= be32(2));
    assert(b.subrange(12, 16) =~= be32(txn));
    lemma_long_number_at(b, 0, conn_id);
    assert(b.skip(0) =~= b);
    lemma_number_at(b, 8, 2);
    lemma_number_at(b, 12, txn);
    if 0 <= i < hashes.len() {
        assert(b.subrange(16 + 20 * i, 36 + 20 * i) =~= hashes_bytes(hashes).subrange(
            20 * i,
            20 * i + 20,
        ));
        assert(hashes_bytes(hashes).subrange(20 * i, 20 * i + 20) == hashes[i]@);
    }
}

/// An answer is waited for 15, then 30, and then 60 seconds at a time.
pub proof fn how_long_an_answer_is_waited_for(attempt: u32)
    ensures
        attempt == 0 ==> patience(attempt) == 15,
        attempt == 1 ==> patience(attempt) == 30,
        attempt >= 2 ==> patience(attempt) == 60,
{
}

/// An answer to an announcement always has room for as many peers as were asked for, within what a
/// datagram can hold.
pub proof fn answers_have_room(is_ipv6: bool, num_want: u32)
    ensures
        2048 <= answer_room(is_ipv6, num_want) <= 65507,
        !is_ipv6 ==> answer_room(is_ipv6, num_want) >= 20 + 6 * num_want || answer_room(
            is_ipv6,
            num_want,
        ) == 65507,
        is_ipv6 ==> answer_room(is_ipv6, num_want) >= 20 + 18 * num_want || answer_room(
            is_ipv6,
            num_want,
        ) == 65507,
{
}

/// A connection is opened exactly by a datagram of sixteen bytes with the action 0 and our
/// transaction, and has the number that follows. An error, with the action 3, counts whatever it
/// answers; anything else is passed over.
pub proof fn when_a_connection_is_open(b: Seq<u8>, txn: u32)
    ensures
        connect_verdict(b, txn) is Connected <==> b.len() == 16 && of_be32(b) == 0 && of_be32(
            b.skip(4),
        ) == txn,
        connect_verdict(b, txn) is Rejected <==> b.len() >= 8 && of_be32(b) == 3,
        connect_verdict(b, txn) matches ConnectVerdict::Connected(id) ==> id == of_be64(b.skip(8)),
        connect_verdict(b, txn) matches ConnectVerdict::Rejected(m) ==> m == lossy_text(b.skip(8)),
{
}

/// An announcement is answered exactly by whole peers behind twenty bytes with the action 1 and our
/// transaction. The answer says after how long to ask again, never at once, how many have less than
/// all and how many have all, and names the peers that can be reached.
pub proof fn what_an_answer_says(r: AnnounceResponse, b: Seq<u8>, txn: u32, v6: bool)
    ensures
        answers_announce(b, txn, v6) <==> b.len() >= 20 && of_be32(b) == 1 && of_be32(b.skip(4))
            == txn && (v6 ==> (b.len() - 20) % 18 == 0) && (!v6 ==> (b.len() - 20) % 6 == 0),
        says(r, b, v6) ==> {
            &&& r.interval >= 1
            &&& of_be32(b.skip(8)) > 0 ==> r.interval == of_be32(b.skip(8))
            &&& of_be32(b.skip(8)) == 0 ==> r.interval == 1
            &&& r.leechers == Some(of_be32(b.skip(12)))
            &&& r.seeders == Some(of_be32(b.skip(16)))
            &&& r.peers@ == compact_peers(b.skip(20), v6)
        },
{
}

/// The counts of a torrent are three numbers: who has all, how often it was downloaded, and who has
/// less than all; each torrent has its own, in the order in which they were asked for.
pub proof fn what_the_counts_say(b: Seq<u8>, n: nat, i: int)
    requires
        0 <= i < n,
    ensures
        counts_in(b, n).len() == n,
        counts_in(b, n)[i].complete == of_be32(b.skip(12 * i)),
        counts_in(b, n)[i].downloaded == of_be32(b.skip(12 * i + 4)),
        counts_in(b, n)[i].incomplete == of_be32(b.skip(12 * i + 8)),
{
}

proof fn lemma_pushed_endpoint(s: Seq<SocketAddr>, last: SocketAddr, a: SocketAddr)
    ensures
        s.push(last).contains(a) <==> s.contains(a) || a == last,
{
    let t = s.push(last);
    assert(t[s.len() as int] == last);
    if s.contains(a) {
        let i = choose|i: int| 0 <= i < s.len() && s[i] == a;
        assert(t[i] == a);
    }
    if t.contains(a) {
        let i = choose|i: int| 0 <= i < t.len() && t[i] == a;
        if i < s.len() {
            assert(s[i] == a);
        }
    }
}

/// A tracker is asked at exactly the addresses that it was found at, that are valid and that can be
/// reached from the source address; at each once.
pub proof fn where_a_tracker_is_asked(resolved: Seq<SocketAddr>, source: Option<SocketAddr>)
    ensures
        ({
            let out = those_reachable(distinct_endpoints(resolved), source);
            &&& forall|a: SocketAddr| #[trigger]
                out.contains(a) <==> resolved.contains(a) && a.spec_valid_endpoint() && (
                source is None || source->0.ip.spec_unspecified() || (source->0.ip is V4) == (
                a.ip is V4))
            &&& out.no_duplicates()
        }),
{
    lemma_distinct(resolved);
    lemma_reachable(distinct_endpoints(resolved), source);
}

proof fn lemma_distinct(s: Seq<SocketAddr>)
    ensures
        distinct_endpoints(s).no_duplicates(),
        forall|a: SocketAddr| #[trigger]
            distinct_endpoints(s).contains(a) <==> s.contains(a) && a.spec_valid_endpoint(),
    decreases s.len(),
{
    if s.len() > 0 {
        let front = s.drop_last();
        lemma_distinct(front);
        assert(s =~= front.push(s.last()));
        let before = distinct_endpoints(front);
        assert forall|a: SocketAddr| #[trigger]
            distinct_endpoints(s).contains(a) <==> s.contains(a) && a.spec_valid_endpoint() by {
            lemma_pushed_endpoint(front, s.last(), a);
            lemma_pushed_endpoint(before, s.last(), a);
            assert(before.contains(a) <==> front.contains(a) && a.spec_valid_endpoint());
        }
    }
}

proof fn lemma_reachable(s: Seq<SocketAddr>, source: Option<SocketAddr>)
    requires
        s.no_duplicates(),
    ensures
        those_reachable(s, source).no_duplicates(),
        forall|a: SocketAddr| #[trigger]
            those_reachable(s, source).contains(a) <==> s.contains(a) && reachable_from(source, a),
    decreases s.len(),
{
    if s.len() > 0 {
        let front = s.drop_last();
        lemma_reachable(front, source);
        assert(s =~= front.push(s.last()));
        let before = those_reachable(front, source);
        assert(!front.contains(s.last())) by {
            if front.contains(s.last()) {
                let i = choose|i: int| 0 <= i < front.len() && front[i] == s.last();
                assert(s[i] == s[s.len() - 1]);
            }
        }
        assert(!before.contains(s.last()));
        assert forall|a: SocketAddr| #[trigger]
            those_reachable(s, source).contains(a) <==> s.contains(a) && reachable_from(
            source,
            a,
        ) by {
            lemma_pushed_endpoint(front, s.last(), a);
            lemma_pushed_endpoint(before, s.last(), a);
            assert(before.contains(a) <==> front.contains(a) && reachable_from(source, a));
        }
    }
}

/// A socket for a tracker is bound to the source address where that is one address of the family
/// of the tracker, and to any address of that family otherwise; its port is free.
pub proof fn where_a_socket_is_bound(target: SocketAddr, source: Option<SocketAddr>)
    ensures
        ({
            let r = bound_to(target, source);
            let fits = source matches Some(a) && !a.ip.spec_unspecified() && (a.ip is V4) == (
            target.ip is V4);
            &&& r.port == 0
            &&& (r.ip is V4) == (target.ip is V4)
            &&& fits ==> r.ip == source->0.ip
            &&& !fits ==> (r.ip matches IpAddr::V4(a) ==> a.0@ == seq![0u8, 0, 0, 0]) && (
            r.ip matches IpAddr::V6(a) ==> forall|i: int| 0 <= i < 16 ==> #[trigger] a.0@[i] == 0)
        }),
{
    let r = any_address(target.ip is V6);
    if let IpAddr::V4(a) = r.ip {
        assert(a.0@ =~= seq![0u8, 0, 0, 0]);
    }
}

/// Digests are asked for in runs of at most 74, which together are all of them in their order.
pub proof fn digests_are_asked_for_in_runs(s: Seq<Id20>, n: nat)
    requires
        n > 0,
    ensures
        runs_of(s, n).flatten() == s,
        forall|i: int|
            0 <= i < runs_of(s, n).len() ==> 0 < (#[trigger] runs_of(s, n)[i]).len() <= n,
        forall|i: int|
            0 <= i < runs_of(s, n).len() - 1 ==> (#[trigger] runs_of(s, n)[i]).len() == n,
    decreases s.len(),
{
    let out = runs_of(s, n);
    if s.len() == 0 {
        assert(out.flatten() =~= s);
    } else if s.len() <= n {
        assert(out.drop_first() =~= seq![]);
        assert(out.drop_first().flatten() =~= seq![]);
        assert(out.flatten() =~= s);
    } else {
        let head = s.take(n as int);
        let rest = s.skip(n as int);
        digests_are_asked_for_in_runs(rest, n);
        assert(out.drop_first() =~= runs_of(rest, n));
        assert(out.first() == head);
        assert(out.flatten() == head + runs_of(rest, n).flatten());
        assert(head + rest =~= s);
        assert forall|i: int| 0 <= i < out.len() implies 0 < (#[trigger] out[i]).len() <= n && (i
            < out.len() - 1 ==> out[i].len() == n) by {
            if i > 0 {
                assert(out[i] == runs_of(rest, n)[i - 1]);
            }
        }
    }
}

} // verus!
