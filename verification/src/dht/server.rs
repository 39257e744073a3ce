//! The answering half of a node: the peers it stores, the tokens it gives out, and the replies.

use vstd::prelude::*;

use crate::bencode::{
    bytes_field, bytes_value, decimal, encode, encode_bytes, encode_list, encoded_length, field,
    first_with_key, int_field, lookup, model_entries, model_list, push_entry, push_item,
    same_bytes, Bencode, Value,
};
use crate::dht::endpoint::{routable, valid_dht_endpoint};
use crate::dht::krpc::{
    compact_forms, compact_nodes, compact_peer, error_reply, id_at, id_field, krpc_error,
    parse_want, wanted,
};
use crate::dht::reply::{
    bounded, bounded_response_bytes, kept, kept_bytes, replies_fit, with_body,
};
use crate::dht::routing::{
    addresses, ages, aged_buckets, at_most, closest, contacts, keyed, live, nearest, order_is_kept, payloads, stale_contacts_are_asked, well_placed, with_node, Bucket,
    RoutingLiveness, RoutingNode, RoutingTable, K,
};
use crate::meta::hash::{sha1, sha1_digest, Id20};
use crate::net::{compact, SocketAddr};
use crate::order::sorted;
use crate::sums::{total, total_of_insert};
use crate::words;
use crate::words::{
    w_a, w_announce_peer, w_e, w_find_node, w_get_peers, w_id, w_implied_port, w_info_hash,
    w_invalid_id, w_invalid_implied_port, w_invalid_info_hash, w_invalid_port, w_invalid_target,
    w_invalid_token, w_method_unknown, w_missing_arguments, w_missing_query, w_missing_token,
    w_nodes, w_nodes6, w_ping, w_port, w_q, w_r, w_t, w_target, w_token, w_values, w_y,
};

pub mod answers;

verus! {

/// How long an announced peer is remembered, in milliseconds.
pub const PEER_STORE_TTL_MS: u64 = 1_800_000;

/// How often the secret behind the tokens changes, in milliseconds.
pub const TOKEN_ROTATION_MS: u64 = 300_000;

/// How many announced peers are remembered.
pub const MAX_STORED_PEERS: usize = 2048;

/// A peer that announced itself for a torrent.
#[derive(Clone, Copy, Debug)]
pub struct StoredPeer {
    pub hash: Id20,
    pub addr: SocketAddr,
    pub seen: u64,
}

/// The token of an address under a secret: the first eight bytes of a digest over both.
pub open spec fn token_of(secret: Seq<u8>, addr: SocketAddr) -> Seq<u8> {
    at_most(sha1_digest(secret + addr.ip.octets_of()), 8)
}

/// The token of an address under a secret.
pub fn token_for_secret(secret: &[u8; 16], addr: &SocketAddr) -> (r: Vec<u8>)
    ensures
        r@ == token_of(secret@, *addr),
{
    let mut data: Vec<u8> = Vec::new();
    data.extend_from_slice(secret.as_slice());
    addr.ip.push_octets(&mut data);
    assert(data@ =~= secret@ + addr.ip.octets_of());
    let digest = sha1(data.as_slice());
    let r = crate::bencode::copy_range(digest.0.as_slice(), 0, 8);
    assert(r@ =~= digest@.take(8));
    r
}

/// The secrets behind the tokens: the one that new tokens come from, and the one before it.
#[derive(Clone, Copy, Debug)]
pub struct TokenState {
    pub current: [u8; 16],
    pub previous: [u8; 16],
    pub rotated: u64,
}

/// The secrets at a time, where `fresh` is the secret that a change would bring.
pub open spec fn rotated(t: TokenState, now: u64, fresh: [u8; 16]) -> TokenState {
    if now - t.rotated < TOKEN_ROTATION_MS {
        t
    } else {
        TokenState { current: fresh, previous: t.current, rotated: now }
    }
}

/// True of the tokens that are still good.
pub open spec fn accepts(t: TokenState, addr: SocketAddr, token: Seq<u8>) -> bool {
    token == token_of(t.current@, addr) || token == token_of(t.previous@, addr)
}

impl TokenState {
    pub fn new(secret: [u8; 16], now: u64) -> (r: Self)
        ensures
            r == (TokenState { current: secret, previous: secret, rotated: now }),
    {
        TokenState { current: secret, previous: secret, rotated: now }
    }

    pub fn rotate_if_needed(&mut self, now: u64, fresh: [u8; 16])
        ensures
            *final(self) == rotated(*old(self), now, fresh),
    {
        if now < self.rotated || now - self.rotated < TOKEN_ROTATION_MS {
            return;
        }
        self.previous = self.current;
        self.current = fresh;
        self.rotated = now;
    }

    pub fn token_for(&mut self, addr: &SocketAddr, now: u64, fresh: [u8; 16]) -> (r: Vec<u8>)
        ensures
            *final(self) == rotated(*old(self), now, fresh),
            r@ == token_of(final(self).current@, *addr),
    {
        self.rotate_if_needed(now, fresh);
        token_for_secret(&self.current, addr)
    }

    pub fn valid(&mut self, addr: &SocketAddr, token: &[u8], now: u64, fresh: [u8; 16]) -> (r: bool)
        ensures
            *final(self) == rotated(*old(self), now, fresh),
            r == accepts(*final(self), *addr, token@),
    {
        self.rotate_if_needed(now, fresh);
        same_bytes(token, token_for_secret(&self.current, addr).as_slice()) || same_bytes(
            token,
            token_for_secret(&self.previous, addr).as_slice(),
        )
    }
}

/// A token is good under every port of its address, and stays good through the next change of
/// the secret.
pub proof fn tokens_outlive_one_rotation(
    t: TokenState,
    addr: SocketAddr,
    port: u16,
    now: u64,
    fresh: [u8; 16],
)
    ensures
        accepts(
            rotated(t, now, fresh),
            SocketAddr { ip: addr.ip, port },
            token_of(t.current@, addr),
        ),
{
}

/// The peers without those of a torrent that have not been heard of for too long.
pub open spec fn without_expired(peers: Seq<StoredPeer>, hash: Id20, now: u64) -> Seq<StoredPeer>
    decreases peers.len(),
{
    if peers.len() == 0 {
        seq![]
    } else {
        let rest = without_expired(peers.drop_last(), hash, now);
        let p = peers.last();
        if p.hash == hash && now - p.seen > PEER_STORE_TTL_MS {
            rest
        } else {
            rest.push(p)
        }
    }
}

/// The peers of a torrent, of one address family or of both, in the order in which they came.
pub open spec fn peers_of(peers: Seq<StoredPeer>, hash: Id20, family: Option<bool>) -> Seq<
    SocketAddr,
>
    decreases peers.len(),
{
    if peers.len() == 0 {
        seq![]
    } else {
        let rest = peers_of(peers.drop_last(), hash, family);
        let p = peers.last();
        if p.hash == hash && (family matches Some(v6) ==> (p.addr.ip is V6) == v6) {
            rest.push(p.addr)
        } else {
            rest
        }
    }
}

/// Where a peer of a torrent is stored; the number of peers where it is not.
pub open spec fn stored_at(peers: Seq<StoredPeer>, hash: Id20, addr: SocketAddr) -> int
    decreases peers.len(),
{
    if peers.len() == 0 {
        0
    } else if peers[0].hash == hash && peers[0].addr == addr {
        0
    } else {
        1 + stored_at(peers.drop_first(), hash, addr)
    }
}

/// The first of the peers that have not been heard of for the longest time.
pub open spec fn oldest(peers: Seq<StoredPeer>) -> int
    decreases peers.len(),
{
    if peers.len() <= 1 {
        0
    } else {
        let before = oldest(peers.drop_last());
        if peers.last().seen < peers[before].seen {
            peers.len() - 1
        } else {
            before
        }
    }
}

/// The peers after one announced itself: a known one is heard of again, and a new one takes the
/// place of the oldest where there is no room.
pub open spec fn announced(peers: Seq<StoredPeer>, hash: Id20, addr: SocketAddr, now: u64) -> Seq<
    StoredPeer,
> {
    let at = stored_at(peers, hash, addr);
    if at < peers.len() {
        peers.update(at, StoredPeer { hash, addr, seen: now })
    } else {
        let all = peers.push(StoredPeer { hash, addr, seen: now });
        if all.len() > MAX_STORED_PEERS {
            all.remove(oldest(all))
        } else {
            all
        }
    }
}

/// The peers of all torrents but one.
pub open spec fn without_hash(peers: Seq<StoredPeer>, hash: Id20) -> Seq<StoredPeer>
    decreases peers.len(),
{
    if peers.len() == 0 {
        seq![]
    } else {
        let rest = without_hash(peers.drop_last(), hash);
        if peers.last().hash == hash {
            rest
        } else {
            rest.push(peers.last())
        }
    }
}

/// What a node knows as a server.
#[verifier::ext_equal]
pub struct ServerModel {
    pub our_id: Id20,
    pub routing: Seq<Bucket>,
    pub routing6: Seq<Bucket>,
    pub peers: Seq<StoredPeer>,
    pub tokens: TokenState,
    pub private_hashes: Set<Id20>,
}

/// True of what every server knows: its tables are in order, no more peers are stored than there
/// is room for, none of them twice, and none of a private torrent.
pub open spec fn sound(s: ServerModel) -> bool {
    &&& well_placed(s.routing, s.our_id)
    &&& well_placed(s.routing6, s.our_id)
    &&& s.peers.len() <= MAX_STORED_PEERS
    &&& forall|i: int, j: int|
        0 <= i < j < s.peers.len() ==> !((#[trigger] s.peers[i]).hash == (
        #[trigger] s.peers[j]).hash && s.peers[i].addr == s.peers[j].addr)
    &&& forall|i: int|
        0 <= i < s.peers.len() ==> !s.private_hashes.contains((#[trigger] s.peers[i]).hash)
}

/// True of a server that knows nothing yet.
pub open spec fn is_fresh(s: ServerModel, our_id: Id20, secret: [u8; 16], now: u64) -> bool {
    s == (ServerModel {
        our_id,
        routing: seq![Bucket { prefix: seq![], nodes: seq![] }],
        routing6: seq![Bucket { prefix: seq![], nodes: seq![] }],
        peers: seq![],
        tokens: TokenState { current: secret, previous: secret, rotated: now },
        private_hashes: Set::empty(),
    })
}

/// The server after it learned of a node.
pub open spec fn learned(
    s: ServerModel,
    id: Id20,
    addr: SocketAddr,
    liveness: RoutingLiveness,
    now: u64,
) -> ServerModel {
    let node = RoutingNode { id, addr, last_seen: now, liveness };
    if !routable(addr) {
        s
    } else if addr.ip is V6 {
        ServerModel { routing6: with_node(s.routing6, s.our_id, node), ..s }
    } else {
        ServerModel { routing: with_node(s.routing, s.our_id, node), ..s }
    }
}

/// The server after it heard of a node.
pub open spec fn heard(s: ServerModel, id: Id20, addr: SocketAddr, now: u64) -> ServerModel {
    learned(s, id, addr, RoutingLiveness::Questionable, now)
}

/// The server after its stale contacts were asked again, and those that are to be asked: first
/// the contacts of the older address family, and the others as far as there is room.
pub open spec fn refreshed(s: ServerModel, now: u64, limit: nat) -> (
    ServerModel,
    Seq<(Id20, SocketAddr)>,
) {
    let (routing, first) = aged_buckets(s.routing, now, limit);
    if first.len() < limit {
        let (routing6, more) = aged_buckets(s.routing6, now, (limit - first.len()) as nat);
        (ServerModel { routing, routing6, ..s }, first + more)
    } else {
        (ServerModel { routing, ..s }, first)
    }
}

/// The contacts of both tables that are closest to the target.
pub open spec fn closest_of(s: ServerModel, target: Id20, n: nat) -> Seq<(Id20, SocketAddr)> {
    let both = closest(live(contacts(s.routing)), target, n) + closest(
        live(contacts(s.routing6)),
        target,
        n,
    );
    at_most(payloads(sorted(keyed(both, target))), n)
}

/// The results that name us, and whatever follows.
pub open spec fn results(s: ServerModel, more: Seq<(Seq<u8>, Bencode)>) -> Seq<
    (Seq<u8>, Bencode),
> {
    seq![(w_id(), Bencode::Bytes(s.our_id@))] + more
}

/// A reply before it is made to fit.
pub open spec fn response(tid: Seq<u8>, body: Seq<(Seq<u8>, Bencode)>) -> Seq<
    (Seq<u8>, Bencode),
> {
    seq![
        (w_r(), Bencode::Dict(body)),
        (w_t(), Bencode::Bytes(tid)),
        (w_y(), Bencode::Bytes(w_r())),
    ]
}

/// The contacts of the wanted address families.
pub open spec fn contact_entries(
    nodes: Seq<(Id20, SocketAddr)>,
    want: (bool, bool),
) -> Seq<(Seq<u8>, Bencode)> {
    (if want.0 {
        seq![(w_nodes(), Bencode::Bytes(compact_forms(nodes, false)))]
    } else {
        seq![]
    }) + (if want.1 {
        seq![(w_nodes6(), Bencode::Bytes(compact_forms(nodes, true)))]
    } else {
        seq![]
    })
}

/// The endpoints as the items of a list.
pub open spec fn peer_items(peers: Seq<SocketAddr>) -> Seq<Bencode> {
    Seq::new(peers.len(), |i: int| Bencode::Bytes(compact(peers[i])))
}

/// The entry for known peers, where there are any.
pub open spec fn peer_entries(peers: Seq<SocketAddr>) -> Seq<(Seq<u8>, Bencode)> {
    if peers.len() == 0 {
        seq![]
    } else {
        seq![(w_values(), Bencode::List(peer_items(peers)))]
    }
}

/// The transaction id of a message, where it can be echoed.
pub open spec fn transaction(msg: Bencode) -> Option<Seq<u8>> {
    match bytes_field(msg, w_t()) {
        Some(tid) => if 1 <= tid.len() <= 32 {
            Some(tid)
        } else {
            None
        },
        None => None,
    }
}

/// The port that an announcement is for: the sender's own where it says so.
pub open spec fn announced_port(args: Bencode, from: SocketAddr, implied: int) -> int {
    if implied == 1 {
        from.port as int
    } else {
        match int_field(args, w_port()) {
            Some(p) => if 0 <= p <= 65535 {
                p
            } else {
                0
            },
            None => 0,
        }
    }
}

/// An error reply of the general kind.
pub open spec fn refused(tid: Seq<u8>, message: Seq<u8>) -> Option<Seq<u8>> {
    Some(encode(error_reply(tid, 203, message)))
}

/// What an announcement does, and the reply to it.
pub open spec fn handle_announce(
    s: ServerModel,
    tid: Seq<u8>,
    args: Bencode,
    from: SocketAddr,
    now: u64,
    fresh: [u8; 16],
) -> (ServerModel, Option<Seq<u8>>) {
    match (id_field(args, w_info_hash()), bytes_field(args, w_token())) {
        (None, _) => (s, refused(tid, w_invalid_info_hash())),
        (Some(_), None) => (s, refused(tid, w_missing_token())),
        (Some(hash), Some(token)) => {
            let s2 = ServerModel { tokens: rotated(s.tokens, now, fresh), ..s };
            let implied = match int_field(args, w_implied_port()) {
                Some(i) => i,
                None => 0,
            };
            let port = announced_port(args, from, implied);
            if !accepts(s2.tokens, from, token) {
                (s2, refused(tid, w_invalid_token()))
            } else if implied != 0 && implied != 1 {
                (s2, refused(tid, w_invalid_implied_port()))
            } else if port == 0 {
                (s2, refused(tid, w_invalid_port()))
            } else {
                (
                    if s2.private_hashes.contains(hash) {
                        s2
                    } else {
                        ServerModel {
                            peers: announced(
                                s2.peers,
                                hash,
                                SocketAddr { ip: from.ip, port: port as u16 },
                                now,
                            ),
                            ..s2
                        }
                    },
                    Some(bounded(response(tid, results(s, seq![])))),
                )
            }
        },
    }
}

/// What a question for peers does, and the reply to it.
pub open spec fn handle_get_peers(
    s: ServerModel,
    tid: Seq<u8>,
    args: Bencode,
    from: SocketAddr,
    now: u64,
    fresh: [u8; 16],
) -> (ServerModel, Option<Seq<u8>>) {
    match id_field(args, w_info_hash()) {
        None => (s, refused(tid, w_invalid_info_hash())),
        Some(hash) => {
            let s2 = ServerModel {
                peers: without_expired(s.peers, hash, now),
                tokens: rotated(s.tokens, now, fresh),
                ..s
            };
            let token = (w_token(), Bencode::Bytes(token_of(s2.tokens.current@, from)));
            let known = peers_of(s2.peers, hash, Some(from.ip is V6));
            let more = seq![token] + peer_entries(known) + contact_entries(
                closest_of(s, hash, 16),
                wanted(args, from),
            );
            (s2, Some(bounded(response(tid, results(s, more)))))
        },
    }
}

/// What a question by a node that has told its name does, and the reply to it.
pub open spec fn handle_query(
    s: ServerModel,
    tid: Seq<u8>,
    name: Seq<u8>,
    args: Bencode,
    from: SocketAddr,
    now: u64,
    fresh: [u8; 16],
) -> (ServerModel, Option<Seq<u8>>) {
    if name == w_ping() {
        (s, Some(bounded(response(tid, results(s, seq![])))))
    } else if name == w_find_node() {
        match id_field(args, w_target()) {
            None => (s, refused(tid, w_invalid_target())),
            Some(target) => (
                s,
                Some(
                    bounded(
                        response(
                            tid,
                            results(
                                s,
                                contact_entries(closest_of(s, target, 16), wanted(args, from)),
                            ),
                        ),
                    ),
                ),
            ),
        }
    } else if name == w_get_peers() {
        handle_get_peers(s, tid, args, from, now, fresh)
    } else if name == w_announce_peer() {
        handle_announce(s, tid, args, from, now, fresh)
    } else {
        (s, Some(encode(error_reply(tid, 204, w_method_unknown()))))
    }
}

/// What a question does, and the reply to it. `fresh` is the secret that a change would bring.
pub open spec fn handle(
    s: ServerModel,
    msg: Bencode,
    from: SocketAddr,
    now: u64,
    fresh: [u8; 16],
) -> (ServerModel, Option<Seq<u8>>) {
    match transaction(msg) {
        None => (s, None),
        Some(tid) => match bytes_field(msg, w_q()) {
            None => (s, refused(tid, w_missing_query())),
            Some(name) => match field(msg, w_a()) {
                Some(Bencode::Dict(d)) => match id_field(Bencode::Dict(d), w_id()) {
                    None => (s, refused(tid, w_invalid_id())),
                    Some(id) => handle_query(
                        heard(s, id, from, now),
                        tid,
                        name,
                        Bencode::Dict(d),
                        from,
                        now,
                        fresh,
                    ),
                },
                _ => (s, refused(tid, w_missing_arguments())),
            },
        },
    }
}

/// What a node knows as a server.
#[derive(Debug)]
pub struct InboundDhtState {
    our_id: Id20,
    routing: RoutingTable,
    routing6: RoutingTable,
    peers: Vec<StoredPeer>,
    tokens: TokenState,
    private_hashes: Vec<Id20>,
}

impl View for InboundDhtState {
    type V = ServerModel;

    closed spec fn view(&self) -> ServerModel {
        ServerModel {
            our_id: self.our_id,
            routing: self.routing.buckets(),
            routing6: self.routing6.buckets(),
            peers: self.peers@,
            tokens: self.tokens,
            private_hashes: self.private_hashes@.to_set(),
        }
    }
}

fn index_of_id(ids: &Vec<Id20>, id: &Id20) -> (r: usize)
    ensures
        r <= ids.len(),
        r < ids.len() ==> ids@[r as int] == *id,
        (r < ids.len()) == ids@.contains(*id),
{
    let mut i: usize = 0;
    while i < ids.len()
        invariant
            i <= ids.len(),
            forall|j: int| 0 <= j < i ==> ids@[j] != *id,
        decreases ids.len() - i,
    {
        if ids[i] == *id {
            return i;
        }
        i += 1;
    }
    i
}

proof fn lemma_stored_at(peers: Seq<StoredPeer>, hash: Id20, addr: SocketAddr, i: int)
    requires
        0 <= i <= peers.len(),
        forall|j: int|
            0 <= j < i ==> !((#[trigger] peers[j]).hash == hash && peers[j].addr == addr),
        i < peers.len() ==> peers[i].hash == hash && peers[i].addr == addr,
    ensures
        stored_at(peers, hash, addr) == i,
    decreases peers.len(),
{
    if peers.len() > 0 && i > 0 {
        let rest = peers.drop_first();
        assert forall|j: int| 0 <= j < i - 1 implies !((#[trigger] rest[j]).hash == hash
            && rest[j].addr == addr) by {
            assert(rest[j] == peers[j + 1]);
        }
        lemma_stored_at(rest, hash, addr, i - 1);
    }
}

/// True when no peer is stored twice.
pub open spec fn distinct(peers: Seq<StoredPeer>) -> bool {
    forall|i: int, j: int|
        0 <= i < j < peers.len() ==> !((#[trigger] peers[i]).hash == (#[trigger] peers[j]).hash
            && peers[i].addr == peers[j].addr)
}

proof fn lemma_without_expired(peers: Seq<StoredPeer>, hash: Id20, now: u64)
    requires
        distinct(peers),
    ensures
        distinct(without_expired(peers, hash, now)),
        without_expired(peers, hash, now).len() <= peers.len(),
        forall|p: StoredPeer|
            #[trigger] without_expired(peers, hash, now).contains(p) ==> peers.contains(p),
    decreases peers.len(),
{
    if peers.len() > 0 {
        let front = peers.drop_last();
        assert forall|i: int, j: int| 0 <= i < j < front.len() implies !((
        #[trigger] front[i]).hash == (#[trigger] front[j]).hash && front[i].addr
            == front[j].addr) by {
            assert(front[i] == peers[i] && front[j] == peers[j]);
        }
        lemma_without_expired(front, hash, now);
        let kept = without_expired(front, hash, now);
        let out = without_expired(peers, hash, now);
        assert forall|p: StoredPeer| #[trigger] out.contains(p) implies peers.contains(p) by {
            let k = choose|k: int| 0 <= k < out.len() && out[k] == p;
            if k < kept.len() {
                assert(kept[k] == p);
                assert(kept.contains(p));
                assert(front.contains(p));
                let m = choose|m: int| 0 <= m < front.len() && front[m] == p;
                assert(peers[m] == p);
            } else {
                assert(peers[peers.len() - 1] == p);
            }
        }
        assert forall|i: int, j: int| 0 <= i < j < out.len() implies !((#[trigger] out[i]).hash
            == (#[trigger] out[j]).hash && out[i].addr == out[j].addr) by {
            assert(kept[i] == out[i]);
            if j < kept.len() {
                assert(kept[j] == out[j]);
            } else {
                assert(kept.contains(out[i]));
                assert(front.contains(out[i]));
                let m = choose|m: int| 0 <= m < front.len() && front[m] == out[i];
                assert(peers[m] == out[i]);
                assert(out[j] == peers[peers.len() - 1]);
            }
        }
    }
}

proof fn lemma_without_hash(peers: Seq<StoredPeer>, hash: Id20)
    requires
        distinct(peers),
    ensures
        distinct(without_hash(peers, hash)),
        without_hash(peers, hash).len() <= peers.len(),
        forall|p: StoredPeer|
            #[trigger] without_hash(peers, hash).contains(p) ==> peers.contains(p) && p.hash
                != hash,
    decreases peers.len(),
{
    if peers.len() > 0 {
        let front = peers.drop_last();
        assert forall|i: int, j: int| 0 <= i < j < front.len() implies !((
        #[trigger] front[i]).hash == (#[trigger] front[j]).hash && front[i].addr
            == front[j].addr) by {
            assert(front[i] == peers[i] && front[j] == peers[j]);
        }
        lemma_without_hash(front, hash);
        let kept = without_hash(front, hash);
        let out = without_hash(peers, hash);
        assert forall|p: StoredPeer| #[trigger] out.contains(p) implies peers.contains(p) && p.hash
            != hash by {
            let k = choose|k: int| 0 <= k < out.len() && out[k] == p;
            if k < kept.len() {
                assert(kept[k] == p);
                assert(kept.contains(p));
                assert(front.contains(p));
                let m = choose|m: int| 0 <= m < front.len() && front[m] == p;
                assert(peers[m] == p);
            } else {
                assert(peers[peers.len() - 1] == p);
            }
        }
        assert forall|i: int, j: int| 0 <= i < j < out.len() implies !((#[trigger] out[i]).hash
            == (#[trigger] out[j]).hash && out[i].addr == out[j].addr) by {
            assert(kept[i] == out[i]);
            if j < kept.len() {
                assert(kept[j] == out[j]);
            } else {
                assert(kept.contains(out[i]));
                assert(front.contains(out[i]));
                let m = choose|m: int| 0 <= m < front.len() && front[m] == out[i];
                assert(peers[m] == out[i]);
                assert(out[j] == peers[peers.len() - 1]);
            }
        }
    }
}

proof fn lemma_oldest(peers: Seq<StoredPeer>)
    requires
        peers.len() > 0,
    ensures
        0 <= oldest(peers) < peers.len(),
    decreases peers.len(),
{
    if peers.len() > 1 {
        lemma_oldest(peers.drop_last());
    }
}

fn oldest_of(peers: &Vec<StoredPeer>) -> (r: usize)
    requires
        peers.len() > 0,
    ensures
        r == oldest(peers@),
        r < peers.len(),
{
    let mut best: usize = 0;
    let mut i: usize = 1;
    while i < peers.len()
        invariant
            1 <= i <= peers.len(),
            best < i,
            best == oldest(peers@.take(i as int)),
        decreases peers.len() - i,
    {
        assert(peers@.take(i + 1).drop_last() =~= peers@.take(i as int));
        if peers[i].seen < peers[best].seen {
            best = i;
        }
        i += 1;
    }
    assert(peers@.take(i as int) =~= peers@);
    best
}

impl InboundDhtState {
    /// True of every server.
    pub closed spec fn wf(self) -> bool {
        &&& sound(self@)
        &&& self.routing.our_id() == self.our_id
        &&& self.routing6.our_id() == self.our_id
    }

    /// What a server knows is sound: its tables are in order, no more peers are stored than there
    /// is room for, none of them twice, and none of a private torrent.
    pub proof fn knowledge_is_sound(self)
        requires
            self.wf(),
        ensures
            sound(self@),
    {
    }

    pub fn new(our_id: Id20, secret: [u8; 16], now: u64) -> (r: Self)
        ensures
            r.wf(),
            is_fresh(r@, our_id, secret, now),
    {
        Self::with_routing6(
            our_id,
            RoutingTable::new(our_id),
            RoutingTable::new(our_id),
            secret,
            now,
        )
    }

    pub fn with_routing6(
        our_id: Id20,
        routing: RoutingTable,
        routing6: RoutingTable,
        secret: [u8; 16],
        now: u64,
    ) -> (r: Self)
        requires
            routing.wf(),
            routing6.wf(),
            routing.our_id() == our_id,
            routing6.our_id() == our_id,
        ensures
            r.wf(),
            r@ == (ServerModel {
                our_id,
                routing: routing.buckets(),
                routing6: routing6.buckets(),
                peers: seq![],
                tokens: TokenState { current: secret, previous: secret, rotated: now },
                private_hashes: Set::empty(),
            }),
    {
        let r = InboundDhtState {
            our_id,
            routing,
            routing6,
            peers: Vec::new(),
            tokens: TokenState::new(secret, now),
            private_hashes: Vec::new(),
        };
        assert(r@.private_hashes =~= Set::empty());
        r
    }

    pub fn token(&mut self, addr: &SocketAddr, now: u64, fresh: [u8; 16]) -> (r: Vec<u8>)
        requires
            old(self).wf(),
        ensures
            final(self).wf(),
            final(self)@ == (ServerModel {
                tokens: rotated(old(self)@.tokens, now, fresh),
                ..old(self)@
            }),
            r@ == token_of(final(self)@.tokens.current@, *addr),
    {
        self.tokens.token_for(addr, now, fresh)
    }

    pub fn valid_token(
        &mut self,
        addr: &SocketAddr,
        token: &[u8],
        now: u64,
        fresh: [u8; 16],
    ) -> (r: bool)
        requires
            old(self).wf(),
        ensures
            final(self).wf(),
            final(self)@ == (ServerModel {
                tokens: rotated(old(self)@.tokens, now, fresh),
                ..old(self)@
            }),
            r == accepts(final(self)@.tokens, *addr, token@),
    {
        self.tokens.valid(addr, token, now, fresh)
    }

    /// The peers of a torrent; those that have not been heard of for too long are forgotten.
    pub fn get_peers(&mut self, hash: &Id20, family: Option<bool>, now: u64) -> (r: Vec<SocketAddr>)
        requires
            old(self).wf(),
        ensures
            final(self).wf(),
            final(self)@ == (ServerModel {
                peers: without_expired(old(self)@.peers, *hash, now),
                ..old(self)@
            }),
            r@ == peers_of(final(self)@.peers, *hash, family),
    {
        let mut kept: Vec<StoredPeer> = Vec::new();
        let mut out: Vec<SocketAddr> = Vec::new();
        let mut i: usize = 0;
        let ghost all = self.peers@;
        assert(all.take(0) =~= seq![]);
        while i < self.peers.len()
            invariant
                i <= self.peers.len(),
                self.peers@ == all,
                kept@ == without_expired(all.take(i as int), *hash, now),
                out@ == peers_of(kept@, *hash, family),
            decreases self.peers.len() - i,
        {
            let p = self.peers[i];
            assert(all.take(i + 1).drop_last() =~= all.take(i as int));
            let late = now >= p.seen && now - p.seen > PEER_STORE_TTL_MS;
            if !(p.hash == *hash && late) {
                let ghost before = kept@;
                kept.push(p);
                assert(kept@.drop_last() =~= before);
                let fits = match family {
                    Some(v6) => p.addr.is_ipv6() == v6,
                    None => true,
                };
                if p.hash == *hash && fits {
                    out.push(p.addr);
                }
            }
            i += 1;
        }
        assert(all.take(i as int) =~= all);
        proof {
            lemma_expired_sound(old(self)@, *hash, now);
        }
        self.peers = kept;
        out
    }

    /// A peer announced itself; peers of private torrents are not stored.
    pub fn add_peer(&mut self, hash: Id20, addr: SocketAddr, now: u64)
        requires
            old(self).wf(),
        ensures
            final(self).wf(),
            final(self)@ == (ServerModel {
                peers: if old(self)@.private_hashes.contains(hash) {
                    old(self)@.peers
                } else {
                    announced(old(self)@.peers, hash, addr, now)
                },
                ..old(self)@
            }),
    {
        if self.is_private(&hash) {
            return;
        }
        let ghost all = self.peers@;
        let mut i: usize = 0;
        while i < self.peers.len()
            invariant
                i <= self.peers.len(),
                *self == *old(self),
                self.peers@ == all,
                self.wf(),
                !self@.private_hashes.contains(hash),
                forall|j: int|
                    0 <= j < i ==> !((#[trigger] all[j]).hash == hash && all[j].addr == addr),
            decreases self.peers.len() - i,
        {
            if self.peers[i].hash == hash && self.peers[i].addr == addr {
                proof {
                    lemma_stored_at(all, hash, addr, i as int);
                }
                self.peers[i] = StoredPeer { hash, addr, seen: now };
                proof {
                    lemma_announced(old(self)@, hash, addr, now);
                }
                assert(self.peers@ =~= announced(all, hash, addr, now));
                return;
            }
            i += 1;
        }
        proof {
            lemma_stored_at(all, hash, addr, i as int);
        }
        self.peers.push(StoredPeer { hash, addr, seen: now });
        if self.peers.len() > MAX_STORED_PEERS {
            let at: usize = oldest_of(&self.peers);
            let _ = self.peers.remove(at);
        }
        proof {
            lemma_announced(old(self)@, hash, addr, now);
        }
        assert(self.peers@ =~= announced(all, hash, addr, now));
    }

    /// Mark a torrent as private, which forgets its peers, or as public again.
    pub fn set_private(&mut self, hash: Id20, private: bool)
        requires
            old(self).wf(),
        ensures
            final(self).wf(),
            final(self)@ == (if private {
                ServerModel {
                    private_hashes: old(self)@.private_hashes.insert(hash),
                    peers: without_hash(old(self)@.peers, hash),
                    ..old(self)@
                }
            } else {
                ServerModel {
                    private_hashes: old(self)@.private_hashes.remove(hash),
                    ..old(self)@
                }
            }),
    {
        let ghost before = self.private_hashes@;
        if private {
            let mut kept: Vec<StoredPeer> = Vec::new();
            let mut i: usize = 0;
            let ghost all = self.peers@;
            assert(all.take(0) =~= seq![]);
            while i < self.peers.len()
                invariant
                    i <= self.peers.len(),
                    self.peers@ == all,
                    kept@ == without_hash(all.take(i as int), hash),
                decreases self.peers.len() - i,
            {
                assert(all.take(i + 1).drop_last() =~= all.take(i as int));
                if !(self.peers[i].hash == hash) {
                    kept.push(self.peers[i]);
                }
                i += 1;
            }
            assert(all.take(i as int) =~= all);
            let known = self.is_private(&hash);
            if !known {
                self.private_hashes.push(hash);
            }
            proof {
                let after = self.private_hashes@;
                assert forall|h: Id20| #[trigger] after.to_set().contains(h)
                    == before.to_set().insert(hash).contains(h) by {
                    if before.contains(h) {
                        let m = choose|m: int| 0 <= m < before.len() && before[m] == h;
                        assert(after[m] == h);
                    }
                    if h == hash && !known {
                        assert(after[before.len() as int] == h);
                    }
                }
                assert(after.to_set() =~= before.to_set().insert(hash));
                lemma_without_hash(all, hash);
                assert forall|k: int| 0 <= k < kept@.len() implies !after.to_set().contains(
                    (#[trigger] kept@[k]).hash,
                ) by {
                    assert(kept@.contains(kept@[k]));
                    let m = choose|m: int| 0 <= m < all.len() && all[m] == kept@[k];
                    assert(!old(self)@.private_hashes.contains(old(self)@.peers[m].hash));
                }
            }
            self.peers = kept;
        } else {
            let mut kept: Vec<Id20> = Vec::new();
            let mut i: usize = 0;
            while i < self.private_hashes.len()
                invariant
                    i <= self.private_hashes.len(),
                    self.private_hashes@ == before,
                    forall|h: Id20| #[trigger]
                        kept@.contains(h) == (h != hash && before.take(i as int).contains(h)),
                decreases self.private_hashes.len() - i,
            {
                let ghost earlier = kept@;
                let ghost part = before.take(i as int);
                let ghost next = before.take(i + 1);
                if !(self.private_hashes[i] == hash) {
                    kept.push(self.private_hashes[i]);
                }
                proof {
                    assert(next =~= part.push(before[i as int]));
                    assert forall|h: Id20| #[trigger] kept@.contains(h) == (h != hash
                        && next.contains(h)) by {
                        lemma_push_contains(part, before[i as int], h);
                        lemma_push_contains(earlier, before[i as int], h);
                        assert(earlier.contains(h) == (h != hash && part.contains(h)));
                    }
                }
                i += 1;
            }
            self.private_hashes = kept;
            proof {
                assert(before.take(i as int) =~= before);
                assert(kept@.to_set() =~= before.to_set().remove(hash));
            }
        }
    }

    pub fn is_private(&self, hash: &Id20) -> (r: bool)
        ensures
            r == self@.private_hashes.contains(*hash),
    {
        index_of_id(&self.private_hashes, hash) < self.private_hashes.len()
    }

    /// A node became known.
    pub fn learn(&mut self, id: Id20, addr: SocketAddr, liveness: RoutingLiveness, now: u64)
        requires
            old(self).wf(),
        ensures
            final(self).wf(),
            final(self)@ == learned(old(self)@, id, addr, liveness, now),
    {
        if !valid_dht_endpoint(&addr) {
            return;
        }
        if addr.is_ipv6() {
            self.routing6.add_with_liveness(id, addr, liveness, now);
        } else {
            self.routing.add_with_liveness(id, addr, liveness, now);
        }
    }

    /// A node asked us something: it may be worth knowing.
    pub fn add_routing(&mut self, id: Id20, addr: SocketAddr, now: u64)
        requires
            old(self).wf(),
        ensures
            final(self).wf(),
            final(self)@ == heard(old(self)@, id, addr, now),
    {
        self.learn(id, addr, RoutingLiveness::Questionable, now);
    }

    /// How many contacts both tables hold.
    pub fn table_len(&self) -> (r: usize)
        requires
            self.wf(),
        ensures
            r == contacts(self@.routing).len() + contacts(self@.routing6).len(),
    {
        self.routing.len() + self.routing6.len()
    }

    /// The contacts of both tables that are worth keeping.
    pub fn snapshot(&self) -> (r: Vec<(Id20, SocketAddr)>)
        ensures
            r@ == addresses(live(contacts(self@.routing))) + addresses(
                live(contacts(self@.routing6)),
            ),
    {
        let mut out = self.routing.snapshot();
        let mut more = self.routing6.snapshot();
        out.append(&mut more);
        out
    }

    /// Ask stale contacts again, at most `limit` at a time.
    pub fn refresh(&mut self, now: u64, limit: usize) -> (r: Vec<(Id20, SocketAddr)>)
        requires
            old(self).wf(),
        ensures
            final(self).wf(),
            (final(self)@, r@) == refreshed(old(self)@, now, limit as nat),
    {
        let mut out = self.routing.refresh_stale(now, limit);
        if out.len() < limit {
            let mut more = self.routing6.refresh_stale(now, limit - out.len());
            out.append(&mut more);
        }
        out
    }

    /// How many announced peers are stored.
    pub fn peer_count(&self) -> (r: usize)
        ensures
            r == self@.peers.len(),
    {
        self.peers.len()
    }

    /// Our own identifier.
    pub fn own_id(&self) -> (r: Id20)
        ensures
            r == self@.our_id,
    {
        self.our_id
    }

    /// The contacts closest to the target, of both address families.
    pub fn closest_nodes(&self, target: &Id20, n: usize) -> (r: Vec<(Id20, SocketAddr)>)
        ensures
            r@ == closest_of(self@, *target, n as nat),
    {
        let mut both = self.routing.closest_nodes(target, n);
        let mut more = self.routing6.closest_nodes(target, n);
        both.append(&mut more);
        nearest(&both, target, n)
    }
}

proof fn lemma_push_contains(s: Seq<Id20>, x: Id20, h: Id20)
    ensures
        s.push(x).contains(h) == (s.contains(h) || h == x),
{
    if s.contains(h) {
        let m = choose|m: int| 0 <= m < s.len() && s[m] == h;
        assert(s.push(x)[m] == h);
    }
    if h == x {
        assert(s.push(x)[s.len() as int] == h);
    }
}

fn refuse(tid: &[u8], message: Vec<u8>) -> (r: Option<Vec<u8>>)
    ensures
        r matches Some(b) && Some(b@) == refused(tid@, message@),
{
    Some(krpc_error(tid, 203, message))
}

fn push_contacts(
    body: &mut Vec<(Vec<u8>, Value)>,
    nodes: &Vec<(Id20, SocketAddr)>,
    want: (bool, bool),
)
    ensures
        model_entries(final(body)@) == model_entries(old(body)@) + contact_entries(nodes@, want),
{
    if want.0 {
        push_entry(body, words::nodes(), Value::Bytes(compact_nodes(nodes, false)));
    }
    if want.1 {
        push_entry(body, words::nodes6(), Value::Bytes(compact_nodes(nodes, true)));
    }
    assert(model_entries(body@) =~= model_entries(old(body)@) + contact_entries(nodes@, want));
}

fn push_peers(body: &mut Vec<(Vec<u8>, Value)>, peers: &Vec<SocketAddr>)
    ensures
        model_entries(final(body)@) == model_entries(old(body)@) + peer_entries(peers@),
{
    if peers.len() == 0 {
        assert(model_entries(body@) =~= model_entries(old(body)@) + peer_entries(peers@));
        return;
    }
    let mut items: Vec<Value> = Vec::new();
    let mut i: usize = 0;
    while i < peers.len()
        invariant
            i <= peers.len(),
            model_list(items@) == peer_items(peers@).take(i as int),
        decreases peers.len() - i,
    {
        push_item(&mut items, Value::Bytes(compact_peer(&peers[i])));
        assert(model_list(items@) =~= peer_items(peers@).take(i + 1));
        i += 1;
    }
    assert(model_list(items@) =~= peer_items(peers@));
    push_entry(body, words::values(), Value::List(items));
    assert(model_entries(body@) =~= model_entries(old(body)@) + peer_entries(peers@));
}

fn reply_with(tid: &[u8], body: Vec<(Vec<u8>, Value)>) -> (r: Option<Vec<u8>>)
    ensures
        r matches Some(b) && b@ == bounded(response(tid@, model_entries(body@))),
{
    let ghost inner = model_entries(body@);
    let mut d: Vec<(Vec<u8>, Value)> = Vec::new();
    push_entry(&mut d, words::r(), Value::Dict(body));
    push_entry(&mut d, words::t(), bytes_value(tid));
    push_entry(&mut d, words::y(), Value::Bytes(words::r()));
    assert(model_entries(d@) =~= response(tid@, inner));
    Some(bounded_response_bytes(d))
}

/// The bytes of a reply that may be absent.
pub open spec fn reply_view(r: Option<Vec<u8>>) -> Option<Seq<u8>> {
    match r {
        Some(b) => Some(b@),
        None => None,
    }
}

impl InboundDhtState {
    fn own_results(&self) -> (r: Vec<(Vec<u8>, Value)>)
        ensures
            model_entries(r@) == results(self@, seq![]),
    {
        let mut body: Vec<(Vec<u8>, Value)> = Vec::new();
        push_entry(&mut body, words::id(), bytes_value(self.our_id.0.as_slice()));
        assert(model_entries(body@) =~= results(self@, seq![]));
        body
    }

    fn answer_get_peers(
        &mut self,
        tid: &[u8],
        args: &Value,
        from: &SocketAddr,
        now: u64,
        fresh: [u8; 16],
    ) -> (r: Option<Vec<u8>>)
        requires
            old(self).wf(),
        ensures
            final(self).wf(),
            (final(self)@, reply_view(r)) == handle_get_peers(
                old(self)@,
                tid@,
                args@,
                *from,
                now,
                fresh,
            ),
    {
        let ghost before = self@;
        let hash = match id_at(args, words::info_hash().as_slice()) {
            Some(hash) => hash,
            None => {
                return refuse(tid, words::invalid_info_hash());
            },
        };
        let want = parse_want(args, from);
        let peers = self.get_peers(&hash, Some(from.is_ipv6()), now);
        let nodes = self.closest_nodes(&hash, K * 2);
        let token = self.token(from, now, fresh);
        let mut body = self.own_results();
        push_entry(&mut body, words::token(), Value::Bytes(token));
        push_peers(&mut body, &peers);
        push_contacts(&mut body, &nodes, want);
        proof {
            let more = seq![(w_token(), Bencode::Bytes(token@))] + peer_entries(peers@)
                + contact_entries(nodes@, want);
            assert(model_entries(body@) =~= results(before, more));
        }
        reply_with(tid, body)
    }

    fn answer_announce(
        &mut self,
        tid: &[u8],
        args: &Value,
        from: &SocketAddr,
        now: u64,
        fresh: [u8; 16],
    ) -> (r: Option<Vec<u8>>)
        requires
            old(self).wf(),
        ensures
            final(self).wf(),
            (final(self)@, reply_view(r)) == handle_announce(
                old(self)@,
                tid@,
                args@,
                *from,
                now,
                fresh,
            ),
    {
        let ghost before = self@;
        let hash = match id_at(args, words::info_hash().as_slice()) {
            Some(hash) => hash,
            None => {
                return refuse(tid, words::invalid_info_hash());
            },
        };
        let token = match args.bytes_at(words::token().as_slice()) {
            Some(token) => token,
            None => {
                return refuse(tid, words::missing_token());
            },
        };
        if !self.valid_token(from, token.as_slice(), now, fresh) {
            return refuse(tid, words::invalid_token());
        }
        let implied: i64 = match args.int_at(words::implied_port().as_slice()) {
            Some(i) => i,
            None => 0,
        };
        if implied != 0 && implied != 1 {
            return refuse(tid, words::invalid_implied_port());
        }
        let port: u16 = if implied == 1 {
            from.port
        } else {
            match args.int_at(words::port().as_slice()) {
                Some(p) => if 0 <= p && p <= 65535 {
                    p as u16
                } else {
                    0
                },
                None => 0,
            }
        };
        if port == 0 {
            return refuse(tid, words::invalid_port());
        }
        self.add_peer(hash, SocketAddr::new(from.ip, port), now);
        let body = self.own_results();
        assert(results(self@, seq![]) =~= results(before, seq![]));
        reply_with(tid, body)
    }

    fn answer_query(
        &mut self,
        tid: &[u8],
        name: &[u8],
        args: &Value,
        from: &SocketAddr,
        now: u64,
        fresh: [u8; 16],
    ) -> (r: Option<Vec<u8>>)
        requires
            old(self).wf(),
        ensures
            final(self).wf(),
            (final(self)@, reply_view(r)) == handle_query(
                old(self)@,
                tid@,
                name@,
                args@,
                *from,
                now,
                fresh,
            ),
    {
        if same_bytes(name, words::ping().as_slice()) {
            reply_with(tid, self.own_results())
        } else if same_bytes(name, words::find_node().as_slice()) {
            let target = match id_at(args, words::target().as_slice()) {
                Some(target) => target,
                None => {
                    return refuse(tid, words::invalid_target());
                },
            };
            let want = parse_want(args, from);
            let nodes = self.closest_nodes(&target, K * 2);
            let mut body = self.own_results();
            push_contacts(&mut body, &nodes, want);
            assert(model_entries(body@) =~= results(self@, contact_entries(nodes@, want)));
            reply_with(tid, body)
        } else if same_bytes(name, words::get_peers().as_slice()) {
            self.answer_get_peers(tid, args, from, now, fresh)
        } else if same_bytes(name, words::announce_peer().as_slice()) {
            self.answer_announce(tid, args, from, now, fresh)
        } else {
            Some(krpc_error(tid, 204, words::method_unknown()))
        }
    }

    /// Answer a question, where `fresh` is the secret that a change of the tokens would bring.
    pub fn answer(&mut self, msg: &Value, from: &SocketAddr, now: u64, fresh: [u8; 16]) -> (r:
        Option<Vec<u8>>)
        requires
            old(self).wf(),
        ensures
            final(self).wf(),
            (final(self)@, reply_view(r)) == handle(old(self)@, msg@, *from, now, fresh),
    {
        let tid = match msg.bytes_at(words::t().as_slice()) {
            Some(tid) => tid,
            None => {
                return None;
            },
        };
        if tid.len() == 0 || tid.len() > 32 {
            return None;
        }
        let name = match msg.bytes_at(words::q().as_slice()) {
            Some(name) => name,
            None => {
                return refuse(tid.as_slice(), words::missing_query());
            },
        };
        let args = match msg.get(words::a().as_slice()) {
            Some(args) => args,
            None => {
                return refuse(tid.as_slice(), words::missing_arguments());
            },
        };
        if args.as_dict().is_none() {
            return refuse(tid.as_slice(), words::missing_arguments());
        }
        let id = match id_at(args, words::id().as_slice()) {
            Some(id) => id,
            None => {
                return refuse(tid.as_slice(), words::invalid_id());
            },
        };
        self.add_routing(id, *from, now);
        self.answer_query(tid.as_slice(), name.as_slice(), args, from, now, fresh)
    }
}

proof fn lemma_short_bytes(b: Seq<u8>)
    requires
        b.len() < 100,
    ensures
        encode_bytes(b).len() <= b.len() + 3,
{
    reveal_with_fuel(decimal, 3);
}

proof fn lemma_refusal_length(tid: Seq<u8>, code: int, message: Seq<u8>)
    requires
        tid.len() <= 32,
        message.len() <= 32,
        200 <= code < 210,
    ensures
        encode(error_reply(tid, code, message)).len() <= 1024,
{
    let f = |e: (Seq<u8>, Bencode)| (encode_bytes(e.0).len() + encode(e.1).len()) as nat;
    let d = error_reply(tid, code, message)->Dict_0;
    encoded_length(d);
    reveal_with_fuel(total, 4);
    reveal_with_fuel(encode_list, 3);
    reveal_with_fuel(encode, 4);
    reveal_with_fuel(decimal, 4);
    lemma_short_bytes(tid);
    lemma_short_bytes(message);
    lemma_short_bytes(w_e());
    lemma_short_bytes(w_t());
    lemma_short_bytes(w_y());
    let l = d[0].1->List_0;
    assert(l.drop_last().drop_last() =~= seq![]);
    assert(l.drop_last().last() == Bencode::Int(code));
    assert(d.drop_last().drop_last().drop_last() =~= seq![]);
    assert(d.drop_last().last() == d[1]);
    assert(d.drop_last().drop_last().last() == d[0]);
}

proof fn lemma_reply_length(tid: Seq<u8>, s: ServerModel, more: Seq<(Seq<u8>, Bencode)>)
    requires
        tid.len() <= 32,
        kept(more) <= 100,
    ensures
        bounded(response(tid, results(s, more))).len() <= 1024,
{
    let f = |e: (Seq<u8>, Bencode)| (encode_bytes(e.0).len() + encode(e.1).len()) as nat;
    let k = |e: (Seq<u8>, Bencode)| kept_bytes(e);
    let body = results(s, more);
    let whole = response(tid, body);
    let bare = with_body(whole, seq![]);
    assert(first_with_key(whole, w_r()) == 0);
    assert(lookup(whole, w_r()) == Some(Bencode::Dict(body)));
    let own = (w_id(), Bencode::Bytes(s.our_id@));
    assert(body =~= more.insert(0, own));
    total_of_insert(more, 0, own, k);
    lemma_short_bytes(w_id());
    lemma_short_bytes(s.our_id@);
    lemma_short_bytes(tid);
    lemma_short_bytes(w_r());
    lemma_short_bytes(w_t());
    lemma_short_bytes(w_y());
    assert(kept(body) <= 130);
    encoded_length(bare);
    encoded_length(seq![]);
    reveal_with_fuel(total, 4);
    assert(bare.drop_last().drop_last().drop_last() =~= seq![]);
    assert(bare.drop_last().last() == bare[1]);
    assert(bare.drop_last().drop_last().last() == bare[0]);
    replies_fit(whole, body);
}

proof fn lemma_nothing_kept(more: Seq<(Seq<u8>, Bencode)>)
    requires
        forall|i: int|
            0 <= i < more.len() ==> ((#[trigger] more[i]).0 == w_values() || more[i].0 == w_nodes()
                || more[i].0 == w_nodes6()),
    ensures
        kept(more) == 0,
    decreases more.len(),
{
    if more.len() > 0 {
        lemma_nothing_kept(more.drop_last());
    }
}

proof fn lemma_get_peers_fits(
    s: ServerModel,
    tid: Seq<u8>,
    args: Bencode,
    from: SocketAddr,
    now: u64,
    fresh: [u8; 16],
)
    requires
        tid.len() <= 32,
    ensures
        handle_get_peers(s, tid, args, from, now, fresh).1 matches Some(reply) && reply.len()
            <= 1024,
{
    match id_field(args, w_info_hash()) {
        None => {
            lemma_refusal_length(tid, 203, w_invalid_info_hash());
        },
        Some(hash) => {
            let s2 = handle_get_peers(s, tid, args, from, now, fresh).0;
            let t = token_of(s2.tokens.current@, from);
            let token = (w_token(), Bencode::Bytes(t));
            let known = peers_of(s2.peers, hash, Some(from.ip is V6));
            let found = contact_entries(closest_of(s, hash, 16), wanted(args, from));
            let rest = peer_entries(known) + found;
            let more = seq![token] + peer_entries(known) + found;
            assert(more =~= rest.insert(0, token));
            total_of_insert(rest, 0, token, |e: (Seq<u8>, Bencode)| kept_bytes(e));
            lemma_nothing_kept(rest);
            lemma_short_bytes(w_token());
            lemma_short_bytes(t);
            lemma_reply_length(tid, s, more);
        },
    }
}

proof fn lemma_announce_fits(
    s: ServerModel,
    tid: Seq<u8>,
    args: Bencode,
    from: SocketAddr,
    now: u64,
    fresh: [u8; 16],
)
    requires
        tid.len() <= 32,
    ensures
        handle_announce(s, tid, args, from, now, fresh).1 matches Some(reply) && reply.len()
            <= 1024,
{
    lemma_refusal_length(tid, 203, w_invalid_info_hash());
    lemma_refusal_length(tid, 203, w_missing_token());
    lemma_refusal_length(tid, 203, w_invalid_token());
    lemma_refusal_length(tid, 203, w_invalid_implied_port());
    lemma_refusal_length(tid, 203, w_invalid_port());
    lemma_nothing_kept(seq![]);
    lemma_reply_length(tid, s, seq![]);
}

proof fn lemma_query_fits(
    s: ServerModel,
    tid: Seq<u8>,
    name: Seq<u8>,
    args: Bencode,
    from: SocketAddr,
    now: u64,
    fresh: [u8; 16],
)
    requires
        tid.len() <= 32,
    ensures
        handle_query(s, tid, name, args, from, now, fresh).1 matches Some(reply) && reply.len()
            <= 1024,
{
    lemma_refusal_length(tid, 204, w_method_unknown());
    lemma_refusal_length(tid, 203, w_invalid_target());
    lemma_get_peers_fits(s, tid, args, from, now, fresh);
    lemma_announce_fits(s, tid, args, from, now, fresh);
    lemma_nothing_kept(seq![]);
    lemma_reply_length(tid, s, seq![]);
    match id_field(args, w_target()) {
        Some(target) => {
            let more = contact_entries(closest_of(s, target, 16), wanted(args, from));
            lemma_nothing_kept(more);
            lemma_reply_length(tid, s, more);
        },
        None => {},
    }
}

/// Whatever is asked, the reply fits into the limit of a datagram.
pub proof fn answers_fit(s: ServerModel, msg: Bencode, from: SocketAddr, now: u64, fresh: [u8; 16])
    ensures
        handle(s, msg, from, now, fresh).1 matches Some(reply) ==> reply.len() <= 1024,
{
    match transaction(msg) {
        None => {},
        Some(tid) => {
            lemma_refusal_length(tid, 203, w_missing_query());
            lemma_refusal_length(tid, 203, w_missing_arguments());
            lemma_refusal_length(tid, 203, w_invalid_id());
            match (bytes_field(msg, w_q()), field(msg, w_a())) {
                (Some(name), Some(Bencode::Dict(d))) => {
                    let args = Bencode::Dict(d);
                    match id_field(args, w_id()) {
                        Some(id) => {
                            lemma_query_fits(
                                heard(s, id, from, now),
                                tid,
                                name,
                                args,
                                from,
                                now,
                                fresh,
                            );
                        },
                        None => {},
                    }
                },
                _ => {},
            }
        },
    }
}

proof fn lemma_announced(s: ServerModel, hash: Id20, addr: SocketAddr, now: u64)
    requires
        sound(s),
        !s.private_hashes.contains(hash),
    ensures
        sound(ServerModel { peers: announced(s.peers, hash, addr, now), ..s }),
{
    let at = stored_at(s.peers, hash, addr);
    lemma_stored_in_range(s.peers, hash, addr);
    let out = announced(s.peers, hash, addr, now);
    let grown = s.peers.push(StoredPeer { hash, addr, seen: now });
    if at == s.peers.len() {
        if grown.len() > MAX_STORED_PEERS {
            lemma_oldest(grown);
            let gone = oldest(grown);
            assert forall|a: int| 0 <= a < out.len() implies out[a] == grown[if a < gone {
                a
            } else {
                a + 1
            }] by {}
        }
    }
}

proof fn lemma_stored_in_range(peers: Seq<StoredPeer>, hash: Id20, addr: SocketAddr)
    ensures
        0 <= stored_at(peers, hash, addr) <= peers.len(),
        forall|j: int|
            0 <= j < stored_at(peers, hash, addr) ==> !((#[trigger] peers[j]).hash == hash
                && peers[j].addr == addr),
        stored_at(peers, hash, addr) < peers.len() ==> peers[stored_at(peers, hash, addr)].hash
            == hash && peers[stored_at(peers, hash, addr)].addr == addr,
    decreases peers.len(),
{
    if peers.len() > 0 && !(peers[0].hash == hash && peers[0].addr == addr) {
        let rest = peers.drop_first();
        lemma_stored_in_range(rest, hash, addr);
        assert forall|j: int| 0 <= j < stored_at(peers, hash, addr) implies !((
        #[trigger] peers[j]).hash == hash && peers[j].addr == addr) by {
            if j > 0 {
                assert(rest[j - 1] == peers[j]);
            }
        }
    }
}

proof fn lemma_expired_sound(s: ServerModel, hash: Id20, now: u64)
    requires
        sound(s),
    ensures
        sound(ServerModel { peers: without_expired(s.peers, hash, now), ..s }),
{
    let kept = without_expired(s.peers, hash, now);
    lemma_without_expired(s.peers, hash, now);
    assert forall|k: int| 0 <= k < kept.len() implies !s.private_hashes.contains(
        (#[trigger] kept[k]).hash,
    ) by {
        assert(kept.contains(kept[k]));
        let m = choose|m: int| 0 <= m < s.peers.len() && s.peers[m] == kept[k];
        assert(!s.private_hashes.contains(s.peers[m].hash));
    }
}

proof fn lemma_heard_sound(s: ServerModel, id: Id20, from: SocketAddr, now: u64)
    requires
        sound(s),
    ensures
        sound(heard(s, id, from, now)),
        heard(s, id, from, now).private_hashes == s.private_hashes,
{
    let node = RoutingNode {
        id,
        addr: from,
        last_seen: now,
        liveness: RoutingLiveness::Questionable,
    };
    order_is_kept(s.routing, s.our_id, node);
    order_is_kept(s.routing6, s.our_id, node);
}

proof fn lemma_get_peers_sound(
    s: ServerModel,
    tid: Seq<u8>,
    args: Bencode,
    from: SocketAddr,
    now: u64,
    fresh: [u8; 16],
)
    requires
        sound(s),
    ensures
        sound(handle_get_peers(s, tid, args, from, now, fresh).0),
        handle_get_peers(s, tid, args, from, now, fresh).0.private_hashes == s.private_hashes,
{
    if let Some(hash) = id_field(args, w_info_hash()) {
        let turned = ServerModel { tokens: rotated(s.tokens, now, fresh), ..s };
        assert(sound(turned));
        lemma_expired_sound(turned, hash, now);
    }
}

proof fn lemma_announce_sound(
    s: ServerModel,
    tid: Seq<u8>,
    args: Bencode,
    from: SocketAddr,
    now: u64,
    fresh: [u8; 16],
)
    requires
        sound(s),
    ensures
        sound(handle_announce(s, tid, args, from, now, fresh).0),
        handle_announce(s, tid, args, from, now, fresh).0.private_hashes == s.private_hashes,
{
    if let Some(hash) = id_field(args, w_info_hash()) {
        let turned = ServerModel { tokens: rotated(s.tokens, now, fresh), ..s };
        assert(sound(turned));
        let implied = match int_field(args, w_implied_port()) {
            Some(i) => i,
            None => 0,
        };
        let port = announced_port(args, from, implied);
        if !turned.private_hashes.contains(hash) {
            lemma_announced(turned, hash, SocketAddr { ip: from.ip, port: port as u16 }, now);
        }
    }
}

proof fn lemma_query_sound(
    s: ServerModel,
    tid: Seq<u8>,
    name: Seq<u8>,
    args: Bencode,
    from: SocketAddr,
    now: u64,
    fresh: [u8; 16],
)
    requires
        sound(s),
    ensures
        sound(handle_query(s, tid, name, args, from, now, fresh).0),
        handle_query(s, tid, name, args, from, now, fresh).0.private_hashes == s.private_hashes,
{
    lemma_get_peers_sound(s, tid, args, from, now, fresh);
    lemma_announce_sound(s, tid, args, from, now, fresh);
}

/// No question breaks what holds of a server: in particular, none makes it store a peer of a
/// private torrent, or more peers than it has room for.
#[verifier::spinoff_prover]
pub proof fn questions_keep_a_server_sound(
    s: ServerModel,
    msg: Bencode,
    from: SocketAddr,
    now: u64,
    fresh: [u8; 16],
)
    requires
        sound(s),
    ensures
        sound(handle(s, msg, from, now, fresh).0),
        handle(s, msg, from, now, fresh).0.private_hashes == s.private_hashes,
{
    match (transaction(msg), bytes_field(msg, w_q()), field(msg, w_a())) {
        (Some(tid), Some(name), Some(Bencode::Dict(d))) => {
            let args = Bencode::Dict(d);
            if let Some(id) = id_field(args, w_id()) {
                lemma_heard_sound(s, id, from, now);
                lemma_query_sound(heard(s, id, from, now), tid, name, args, from, now, fresh);
            }
        },
        _ => {},
    }
}

proof fn lemma_survives(peers: Seq<StoredPeer>, hash: Id20, now: u64, i: int)
    requires
        0 <= i < peers.len(),
        now - peers[i].seen <= PEER_STORE_TTL_MS,
    ensures
        without_expired(peers, hash, now).contains(peers[i]),
    decreases peers.len(),
{
    let out = without_expired(peers, hash, now);
    let front = without_expired(peers.drop_last(), hash, now);
    if i == peers.len() - 1 {
        assert(out[front.len() as int] == peers[i]);
    } else {
        lemma_survives(peers.drop_last(), hash, now, i);
        let k = choose|k: int| 0 <= k < front.len() && front[k] == peers[i];
        assert(out[k] == peers[i]);
    }
}

proof fn lemma_listed(peers: Seq<StoredPeer>, i: int)
    requires
        0 <= i < peers.len(),
    ensures
        peers_of(peers, peers[i].hash, Some(peers[i].addr.ip is V6)).contains(peers[i].addr),
    decreases peers.len(),
{
    let p = peers[i];
    let out = peers_of(peers, p.hash, Some(p.addr.ip is V6));
    let front = peers_of(peers.drop_last(), p.hash, Some(p.addr.ip is V6));
    if i == peers.len() - 1 {
        assert(out[front.len() as int] == p.addr);
    } else {
        lemma_listed(peers.drop_last(), i);
        let k = choose|k: int| 0 <= k < front.len() && front[k] == p.addr;
        assert(out[k] == p.addr);
    }
}

/// A peer that announced itself is named to those who ask for its torrent over its own address
/// family, for as long as announcements are remembered.
pub proof fn announced_peers_are_found(
    peers: Seq<StoredPeer>,
    hash: Id20,
    addr: SocketAddr,
    now: u64,
    later: u64,
)
    requires
        peers.len() <= MAX_STORED_PEERS,
        forall|i: int| 0 <= i < peers.len() ==> (#[trigger] peers[i]).seen <= now,
        later - now <= PEER_STORE_TTL_MS,
    ensures
        peers_of(
            without_expired(announced(peers, hash, addr, now), hash, later),
            hash,
            Some(addr.ip is V6),
        ).contains(addr),
{
    let p = StoredPeer { hash, addr, seen: now };
    let out = announced(peers, hash, addr, now);
    lemma_stored_in_range(peers, hash, addr);
    let at = stored_at(peers, hash, addr);
    let grown = peers.push(p);
    let i = if at < peers.len() {
        at
    } else if grown.len() > MAX_STORED_PEERS {
        lemma_oldest(grown);
        lemma_oldest(peers);
        assert(grown.drop_last() =~= peers);
        assert(oldest(grown) == oldest(peers));
        out.len() - 1
    } else {
        peers.len() as int
    };
    assert(out[i] == p);
    lemma_survives(out, hash, later, i);
    let kept = without_expired(out, hash, later);
    let k = choose|k: int| 0 <= k < kept.len() && kept[k] == p;
    lemma_listed(kept, k);
}

/// Of a torrent that becomes private every peer is forgotten, and of no other torrent.
pub proof fn private_torrents_are_forgotten(peers: Seq<StoredPeer>, hash: Id20)
    ensures
        forall|p: StoredPeer| #[trigger]
            without_hash(peers, hash).contains(p) <==> peers.contains(p) && p.hash != hash,
    decreases peers.len(),
{
    if peers.len() > 0 {
        let front = peers.drop_last();
        private_torrents_are_forgotten(front, hash);
        let before = without_hash(front, hash);
        let out = without_hash(peers, hash);
        let last = peers.last();
        assert forall|p: StoredPeer| #[trigger] out.contains(p) <==> peers.contains(p) && p.hash
            != hash by {
            assert(before.contains(p) <==> front.contains(p) && p.hash != hash);
            if front.contains(p) {
                let i = choose|i: int| 0 <= i < front.len() && front[i] == p;
                assert(peers[i] == p);
            }
            assert(peers[peers.len() - 1] == last);
            if peers.contains(p) && p != last {
                let i = choose|i: int| 0 <= i < peers.len() && peers[i] == p;
                assert(front[i] == p);
            }
            if before.contains(p) {
                let i = choose|i: int| 0 <= i < before.len() && before[i] == p;
                assert(out[i] == p);
            }
            if last.hash != hash {
                assert(out[before.len() as int] == last);
            }
            if out.contains(p) && p != last {
                let i = choose|i: int| 0 <= i < out.len() && out[i] == p;
                assert(before[i] == p);
            }
        }
    }
}

/// True when the stale contacts of a table were asked again as far as there was room: nobody else
/// was, and each falls by one step of trust.
pub open spec fn stale_ones_asked(
    before: Seq<Bucket>,
    after: Seq<Bucket>,
    asked: Seq<(Id20, SocketAddr)>,
    now: u64,
    limit: nat,
) -> bool {
    &&& after.len() == before.len()
    &&& forall|i: int, j: int|
        #![trigger after[i].nodes[j]]
        0 <= i < before.len() && 0 <= j < before[i].nodes.len() ==> {
            let (a, b) = (before[i].nodes[j], after[i].nodes[j]);
            &&& b == a || (ages(a, b, now, true) && asked.contains((a.id, a.addr)))
            &&& asked.len() < limit && !(a.liveness is Bad) && now - a.last_seen >= 900_000 ==> ages(
                a,
                b,
                now,
                true,
            )
        }
}

/// In both tables the contacts that are stale are asked again, no more than the limit in all, and
/// nothing else of the server changes.
pub proof fn both_tables_are_refreshed(s: ServerModel, now: u64, limit: nat)
    ensures
        ({
            let (after, asked) = refreshed(s, now, limit);
            &&& asked.len() <= limit
            &&& after == (ServerModel { routing: after.routing, routing6: after.routing6, ..s })
            &&& stale_ones_asked(s.routing, after.routing, asked, now, limit)
            &&& stale_ones_asked(s.routing6, after.routing6, asked, now, limit)
        }),
{
    let (after, asked) = refreshed(s, now, limit);
    stale_contacts_are_asked(s.routing, now, limit);
    let (routing, first) = aged_buckets(s.routing, now, limit);
    let room = (limit - first.len()) as nat;
    stale_contacts_are_asked(s.routing6, now, room);
    let (routing6, more) = aged_buckets(s.routing6, now, room);
    assert forall|x: (Id20, SocketAddr)| #[trigger] first.contains(x) implies asked.contains(x) by {
        let k = choose|k: int| 0 <= k < first.len() && first[k] == x;
        assert(asked[k] == x);
    }
    if first.len() < limit {
        assert forall|x: (Id20, SocketAddr)| #[trigger] more.contains(x) implies asked.contains(
            x,
        ) by {
            let k = choose|k: int| 0 <= k < more.len() && more[k] == x;
            assert(asked[first.len() + k] == x);
        }
    }
}

/// A node that is learned of is put into the table of its own address family with the trust that it
/// is given, where it can be reached; nothing else of the server changes.
pub proof fn what_is_learned_of_a_node(
    s: ServerModel,
    id: Id20,
    addr: SocketAddr,
    liveness: RoutingLiveness,
    now: u64,
)
    ensures
        ({
            let after = learned(s, id, addr, liveness, now);
            let node = RoutingNode { id, addr, last_seen: now, liveness };
            &&& after == (ServerModel { routing: after.routing, routing6: after.routing6, ..s })
            &&& !routable(addr) ==> after == s
            &&& addr.ip is V4 ==> after.routing6 == s.routing6
            &&& addr.ip is V6 ==> after.routing == s.routing
            &&& routable(addr) && addr.ip is V4 ==> after.routing == with_node(
                s.routing,
                s.our_id,
                node,
            )
            &&& routable(addr) && addr.ip is V6 ==> after.routing6 == with_node(
                s.routing6,
                s.our_id,
                node,
            )
        }),
{
}

} // verus!
