//! The datagrams of the table: questions, answers and errors.

use vstd::prelude::*;

use crate::bencode::{
    bytes_field, bytes_value, copy_range, encode, encode_to_vec, field, int_field,
    lemma_first_with_key, lemma_model_list, list_field, lookup, model, model_entries, model_list,
    push_entry, push_item, same_bytes, Bencode, DecodeLimits, Value,
};
use crate::dht::endpoint::{routable, valid_dht_endpoint};
use crate::meta::hash::{array_from, id20_is_its_bytes, id20_of, sha1, sha1_digest, Id20};
use crate::net::{
    address_of, compact, compact_round_trip, lemma_readable, push_compact, read_compact,
    reading_is_unique, reads_as, SocketAddr,
};
use crate::text::{equal_ignoring_case, same_ignoring_case, same_text};
use crate::words;
use crate::words::{
    w_a, w_announce_peer, w_e, w_get_peers, w_id, w_implied_port, w_info_hash, w_n4, w_n6, w_nodes,
    w_nodes6, w_ping, w_port, w_q, w_r, w_t, w_token, w_values, w_want, w_y,
};

verus! {

/// How large a datagram may be, and what it may hold.
pub fn krpc_limits() -> (r: DecodeLimits)
    ensures
        r == (DecodeLimits { max_bytes: 2048, max_depth: 16, max_items: 1024 }),
{
    DecodeLimits::new(2048, 16, 1024)
}

/// Where a question goes.
#[derive(Debug)]
pub enum DhtTarget {
    Addr(SocketAddr),
    Host(String, u16),
}

/// The mathematical value of a target.
pub enum TargetModel {
    Addr(SocketAddr),
    Host(Seq<char>, u16),
}

impl View for DhtTarget {
    type V = TargetModel;

    open spec fn view(&self) -> TargetModel {
        match *self {
            DhtTarget::Addr(a) => TargetModel::Addr(a),
            DhtTarget::Host(h, p) => TargetModel::Host(h@, p),
        }
    }
}

impl Clone for DhtTarget {
    fn clone(&self) -> (r: Self)
        ensures
            r@ == self@,
    {
        match self {
            DhtTarget::Addr(a) => DhtTarget::Addr(*a),
            DhtTarget::Host(h, p) => DhtTarget::Host(h.clone(), *p),
        }
    }
}

/// True when the two targets are the same.
pub fn same_target(a: &DhtTarget, b: &DhtTarget) -> (r: bool)
    ensures
        r == (a@ == b@),
{
    match (a, b) {
        (DhtTarget::Addr(x), DhtTarget::Addr(y)) => *x == *y,
        (DhtTarget::Host(h, p), DhtTarget::Host(k, q)) => same_text(h.as_str(), k.as_str()) && *p
            == *q,
        _ => false,
    }
}

/// True when a reply from `actual` may answer a question to `expected`: a name may answer under
/// any address, since a proxy resolves it.
pub open spec fn may_answer(expected: TargetModel, actual: TargetModel) -> bool {
    match (expected, actual) {
        (TargetModel::Addr(a), TargetModel::Addr(b)) => a == b,
        (TargetModel::Host(h, p), TargetModel::Host(k, q)) => p == q && same_ignoring_case(h, k),
        (TargetModel::Host(_, _), TargetModel::Addr(_)) => true,
        (TargetModel::Addr(_), TargetModel::Host(_, _)) => false,
    }
}

pub fn dht_targets_match(expected: &DhtTarget, actual: &DhtTarget) -> (r: bool)
    ensures
        r == may_answer(expected@, actual@),
{
    match (expected, actual) {
        (DhtTarget::Addr(a), DhtTarget::Addr(b)) => *a == *b,
        (DhtTarget::Host(h, p), DhtTarget::Host(k, q)) => *p == *q && equal_ignoring_case(
            h.as_str(),
            k.as_str(),
        ),
        (DhtTarget::Host(_, _), DhtTarget::Addr(_)) => true,
        (DhtTarget::Addr(_), DhtTarget::Host(_, _)) => false,
    }
}

/// The bytes by which a target without an identifier is ordered.
pub open spec fn target_bytes(t: TargetModel) -> Seq<u8> {
    match t {
        TargetModel::Addr(a) => compact(a),
        TargetModel::Host(h, p) => vstd::utf8::encode_utf8(h) + crate::be::be16(p),
    }
}

/// A stable identifier for an endpoint that has not told its own.
pub fn pseudo_id(addr: &SocketAddr) -> (r: Id20)
    ensures
        r@ == sha1_digest(compact(*addr)),
{
    let mut data: Vec<u8> = Vec::new();
    push_compact(addr, &mut data);
    assert(data@ =~= compact(*addr));
    sha1(data.as_slice())
}

/// A stable identifier for a target that has not told its own.
pub fn pseudo_id_target(target: &DhtTarget) -> (r: Id20)
    ensures
        r@ == sha1_digest(target_bytes(target@)),
{
    match target {
        DhtTarget::Addr(addr) => pseudo_id(addr),
        DhtTarget::Host(host, port) => {
            let mut data: Vec<u8> = Vec::new();
            data.extend_from_slice(host.as_str().as_bytes());
            crate::be::write_u16(&mut data, *port);
            assert(data@ =~= target_bytes(target@));
            sha1(data.as_slice())
        },
    }
}

/// A question with its arguments.
pub open spec fn query(name: Seq<u8>, args: Bencode, txn: Seq<u8>) -> Bencode {
    Bencode::Dict(
        seq![
            (w_a(), args),
            (w_q(), Bencode::Bytes(name)),
            (w_t(), Bencode::Bytes(txn)),
            (w_y(), Bencode::Bytes(w_q())),
        ],
    )
}

fn build_query(name: Vec<u8>, args: Value, txn: &[u8]) -> (r: Vec<u8>)
    ensures
        r@ == encode(query(name@, args@, txn@)),
{
    let mut d: Vec<(Vec<u8>, Value)> = Vec::new();
    push_entry(&mut d, words::a(), args);
    push_entry(&mut d, words::q(), Value::Bytes(name));
    push_entry(&mut d, words::t(), bytes_value(txn));
    push_entry(&mut d, words::y(), Value::Bytes(words::q()));
    assert(model_entries(d@) =~= query(name@, args@, txn@)->Dict_0);
    encode_to_vec(&Value::Dict(d))
}

/// The arguments of an announcement.
pub open spec fn announce_args(ours: Id20, hash: Id20, port: u16, token: Seq<u8>) -> Bencode {
    Bencode::Dict(
        seq![
            (w_id(), Bencode::Bytes(ours@)),
            (w_implied_port(), Bencode::Int(0)),
            (w_info_hash(), Bencode::Bytes(hash@)),
            (w_port(), Bencode::Int(port as int)),
            (w_token(), Bencode::Bytes(token)),
        ],
    )
}

/// Announce that we serve a torrent at a port; the token is the one that the node gave us.
pub fn build_announce_peer(
    txn: &[u8],
    our_id: &Id20,
    info_hash: &Id20,
    port: u16,
    token: &[u8],
) -> (r: Vec<u8>)
    ensures
        r@ == encode(
            query(w_announce_peer(), announce_args(*our_id, *info_hash, port, token@), txn@),
        ),
{
    let mut d: Vec<(Vec<u8>, Value)> = Vec::new();
    push_entry(&mut d, words::id(), bytes_value(our_id.0.as_slice()));
    push_entry(&mut d, words::implied_port(), Value::Int(0));
    push_entry(&mut d, words::info_hash(), bytes_value(info_hash.0.as_slice()));
    push_entry(&mut d, words::port(), Value::Int(port as i64));
    push_entry(&mut d, words::token(), bytes_value(token));
    assert(model_entries(d@) =~= announce_args(*our_id, *info_hash, port, token@)->Dict_0);
    build_query(words::announce_peer(), Value::Dict(d), txn)
}

/// Ask whether a node is there.
pub fn build_ping_bytes(txn: &[u8], our_id: &Id20) -> (r: Vec<u8>)
    ensures
        r@ == encode(
            query(w_ping(), Bencode::Dict(seq![(w_id(), Bencode::Bytes(our_id@))]), txn@),
        ),
{
    let mut d: Vec<(Vec<u8>, Value)> = Vec::new();
    push_entry(&mut d, words::id(), bytes_value(our_id.0.as_slice()));
    build_query(words::ping(), Value::Dict(d), txn)
}

/// The arguments of a question for peers: contacts of both address families are wanted.
pub open spec fn get_peers_args(ours: Id20, hash: Id20) -> Bencode {
    Bencode::Dict(
        seq![
            (w_id(), Bencode::Bytes(ours@)),
            (w_info_hash(), Bencode::Bytes(hash@)),
            (w_want(), Bencode::List(seq![Bencode::Bytes(w_n4()), Bencode::Bytes(w_n6())])),
        ],
    )
}

/// Ask who serves a torrent.
pub fn build_get_peers_bytes(txn: &[u8], our_id: &Id20, info_hash: &Id20) -> (r: Vec<u8>)
    ensures
        r@ == encode(query(w_get_peers(), get_peers_args(*our_id, *info_hash), txn@)),
{
    let mut want: Vec<Value> = Vec::new();
    push_item(&mut want, Value::Bytes(words::n4()));
    push_item(&mut want, Value::Bytes(words::n6()));
    let mut d: Vec<(Vec<u8>, Value)> = Vec::new();
    push_entry(&mut d, words::id(), bytes_value(our_id.0.as_slice()));
    push_entry(&mut d, words::info_hash(), bytes_value(info_hash.0.as_slice()));
    assert(model_list(want@) =~= seq![Bencode::Bytes(w_n4()), Bencode::Bytes(w_n6())]);
    push_entry(&mut d, words::want(), Value::List(want));
    assert(model_entries(d@) =~= get_peers_args(*our_id, *info_hash)->Dict_0);
    build_query(words::get_peers(), Value::Dict(d), txn)
}

/// Ask who serves a torrent, under a two byte transaction id.
pub fn build_get_peers(txn: u16, our_id: &Id20, info_hash: &Id20) -> (r: Vec<u8>)
    ensures
        r@ == encode(
            query(w_get_peers(), get_peers_args(*our_id, *info_hash), crate::be::be16(txn)),
        ),
{
    let mut t: Vec<u8> = Vec::new();
    crate::be::write_u16(&mut t, txn);
    assert(t@ =~= crate::be::be16(txn));
    build_get_peers_bytes(t.as_slice(), our_id, info_hash)
}

/// An error reply.
pub open spec fn error_reply(tid: Seq<u8>, code: int, message: Seq<u8>) -> Bencode {
    Bencode::Dict(
        seq![
            (w_e(), Bencode::List(seq![Bencode::Int(code), Bencode::Bytes(message)])),
            (w_t(), Bencode::Bytes(tid)),
            (w_y(), Bencode::Bytes(w_e())),
        ],
    )
}

pub fn krpc_error(tid: &[u8], code: i64, message: Vec<u8>) -> (r: Vec<u8>)
    ensures
        r@ == encode(error_reply(tid@, code as int, message@)),
{
    let mut l: Vec<Value> = Vec::new();
    push_item(&mut l, Value::Int(code));
    push_item(&mut l, Value::Bytes(message));
    let mut d: Vec<(Vec<u8>, Value)> = Vec::new();
    assert(model_list(l@) =~= seq![Bencode::Int(code as int), Bencode::Bytes(message@)]);
    push_entry(&mut d, words::e(), Value::List(l));
    push_entry(&mut d, words::t(), bytes_value(tid));
    push_entry(&mut d, words::y(), Value::Bytes(words::e()));
    assert(model_entries(d@) =~= error_reply(tid@, code as int, message@)->Dict_0);
    encode_to_vec(&Value::Dict(d))
}

/// The width of a contact in its compact form: identifier, address and port.
pub open spec fn node_width(v6: bool) -> int {
    if v6 {
        38
    } else {
        26
    }
}

/// The contacts among the first `k` compact forms in `s` that can be reached.
pub open spec fn first_nodes(s: Seq<u8>, v6: bool, k: nat) -> Seq<(Id20, SocketAddr)>
    decreases k,
{
    if k == 0 {
        seq![]
    } else {
        let before = first_nodes(s, v6, (k - 1) as nat);
        let at = (k - 1) * node_width(v6);
        let id = id20_of(s.subrange(at, at + 20));
        let addr = address_of(s.skip(at + 20), v6);
        if routable(addr) {
            before.push((id, addr))
        } else {
            before
        }
    }
}

/// The contacts of the whole compact forms in `s` that can be reached; an incomplete form at the
/// end is passed over.
pub open spec fn nodes_in(s: Seq<u8>, v6: bool) -> Seq<(Id20, SocketAddr)> {
    first_nodes(s, v6, (s.len() as int / node_width(v6)) as nat)
}

pub fn parse_compact_nodes(bytes: &[u8], v6: bool) -> (r: Vec<(Id20, SocketAddr)>)
    ensures
        r@ == nodes_in(bytes@, v6),
{
    let width: usize = if v6 {
        38
    } else {
        26
    };
    let mut out: Vec<(Id20, SocketAddr)> = Vec::new();
    let mut at: usize = 0;
    let ghost mut k: nat = 0;
    while bytes.len() - at >= width
        invariant
            width == node_width(v6),
            at <= bytes.len(),
            at == k * node_width(v6),
            out@ == first_nodes(bytes@, v6, k),
        decreases bytes.len() - at,
    {
        let id = Id20(array_from::<20>(&bytes[at..at + 20]));
        let addr = read_compact(bytes, at + 20, v6);
        proof {
            assert(bytes@.subrange(at as int, at + 20).take(20) =~= bytes@.subrange(
                at as int,
                at + 20,
            ));
            id20_is_its_bytes(id);
            k = k + 1;
            assert((k - 1) * node_width(v6) == at);
            assert(k * node_width(v6) == at + width) by (nonlinear_arith)
                requires
                    (k - 1) * node_width(v6) == at,
                    node_width(v6) == width,
            ;
        }
        if valid_dht_endpoint(&addr) {
            out.push((id, addr));
        }
        at += width;
    }
    proof {
        assert(bytes.len() as int / node_width(v6) == k) by (nonlinear_arith)
            requires
                k * node_width(v6) <= bytes.len() < k * node_width(v6) + node_width(v6),
                node_width(v6) > 0,
        ;
    }
    out
}

/// The compact forms of the contacts of one address family, one behind the other.
pub open spec fn compact_forms(nodes: Seq<(Id20, SocketAddr)>, v6: bool) -> Seq<u8>
    decreases nodes.len(),
{
    if nodes.len() == 0 {
        seq![]
    } else {
        let before = compact_forms(nodes.drop_last(), v6);
        let last = nodes.last();
        if (last.1.ip is V6) == v6 {
            before + last.0@ + compact(last.1)
        } else {
            before
        }
    }
}

pub fn compact_nodes(nodes: &Vec<(Id20, SocketAddr)>, v6: bool) -> (r: Vec<u8>)
    ensures
        r@ == compact_forms(nodes@, v6),
{
    let mut out: Vec<u8> = Vec::new();
    let mut i: usize = 0;
    assert(nodes@.take(0) =~= seq![]);
    while i < nodes.len()
        invariant
            i <= nodes.len(),
            out@ == compact_forms(nodes@.take(i as int), v6),
        decreases nodes.len() - i,
    {
        assert(nodes@.take(i + 1).drop_last() =~= nodes@.take(i as int));
        if nodes[i].1.is_ipv6() == v6 {
            out.extend_from_slice(nodes[i].0.0.as_slice());
            push_compact(&nodes[i].1, &mut out);
        }
        i += 1;
    }
    assert(nodes@.take(i as int) =~= nodes@);
    out
}

pub fn compact_peer(addr: &SocketAddr) -> (r: Vec<u8>)
    ensures
        r@ == compact(*addr),
{
    let mut out: Vec<u8> = Vec::new();
    push_compact(addr, &mut out);
    assert(out@ =~= compact(*addr));
    out
}

/// The endpoint in one item of a list of peers.
pub open spec fn peer_in(item: Bencode) -> Option<SocketAddr> {
    match item {
        Bencode::Bytes(b) => if (b.len() == 6 || b.len() == 18) && routable(
            address_of(b, b.len() == 18),
        ) {
            Some(address_of(b, b.len() == 18))
        } else {
            None
        },
        _ => None,
    }
}

/// The endpoints of a list of peers that can be reached, in its order.
pub open spec fn peers_in(items: Seq<Bencode>) -> Seq<SocketAddr>
    decreases items.len(),
{
    if items.len() == 0 {
        seq![]
    } else {
        match peer_in(items.last()) {
            Some(addr) => peers_in(items.drop_last()).push(addr),
            None => peers_in(items.drop_last()),
        }
    }
}

fn read_peer(item: &Value) -> (r: Option<SocketAddr>)
    ensures
        r == peer_in(item@),
{
    match item.as_bytes() {
        Some(b) => {
            if b.len() != 6 && b.len() != 18 {
                return None;
            }
            let addr = read_compact(b.as_slice(), 0, b.len() == 18);
            assert(b@.skip(0) =~= b@);
            if valid_dht_endpoint(&addr) {
                Some(addr)
            } else {
                None
            }
        },
        None => None,
    }
}

fn read_peers(items: &Vec<Value>) -> (r: Vec<SocketAddr>)
    ensures
        r@ == peers_in(model_list(items@)),
{
    let mut out: Vec<SocketAddr> = Vec::new();
    let mut i: usize = 0;
    let ghost all = model_list(items@);
    proof {
        lemma_model_list(items@);
    }
    assert(all.take(0) =~= seq![]);
    while i < items.len()
        invariant
            i <= items.len(),
            all == model_list(items@),
            all.len() == items.len(),
            forall|j: int| 0 <= j < items.len() ==> #[trigger] all[j] == model(items@[j]),
            out@ == peers_in(all.take(i as int)),
        decreases items.len() - i,
    {
        assert(all.take(i + 1).drop_last() =~= all.take(i as int));
        assert(all.take(i + 1).last() == all[i as int]);
        match read_peer(&items[i]) {
            Some(addr) => {
                out.push(addr);
            },
            None => {},
        }
        i += 1;
    }
    assert(all.take(i as int) =~= all);
    out
}

/// The identifier under `key`, where twenty bytes stand there.
pub open spec fn id_field(v: Bencode, key: Seq<u8>) -> Option<Id20> {
    match bytes_field(v, key) {
        Some(b) => if b.len() == 20 {
            Some(id20_of(b))
        } else {
            None
        },
        None => None,
    }
}

/// The identifier under `key`, where twenty bytes stand there.
pub fn id_at(v: &Value, key: &[u8]) -> (r: Option<Id20>)
    ensures
        r == id_field(v@, key@),
{
    match v.bytes_at(key) {
        Some(b) => Id20::from_slice(b.as_slice()),
        None => None,
    }
}

/// What a node answers to a question for peers.
#[derive(Debug)]
pub struct GetPeersResponseBody {
    pub responder_id: Option<Id20>,
    pub peers: Vec<SocketAddr>,
    pub nodes: Vec<(Id20, SocketAddr)>,
    pub token: Option<Vec<u8>>,
}

/// The contacts under `key`; none where no byte string stands there.
pub open spec fn nodes_field(r: Bencode, key: Seq<u8>, v6: bool) -> Seq<(Id20, SocketAddr)> {
    match bytes_field(r, key) {
        Some(b) => nodes_in(b, v6),
        None => seq![],
    }
}

/// True when `out` is what the answer `r` says.
pub open spec fn answers_with(r: Bencode, out: GetPeersResponseBody) -> bool {
    &&& out.responder_id == id_field(r, w_id())
    &&& out.peers@ == (match list_field(r, w_values()) {
        Some(l) => peers_in(l),
        None => seq![],
    })
    &&& out.nodes@ == nodes_field(r, w_nodes(), false) + nodes_field(r, w_nodes6(), true)
    &&& match bytes_field(r, w_token()) {
        Some(b) => out.token matches Some(t) && t@ == b,
        None => out.token is None,
    }
}

fn read_nodes(v: &Value, key: &[u8], v6: bool) -> (r: Vec<(Id20, SocketAddr)>)
    ensures
        r@ == nodes_field(v@, key@, v6),
{
    match v.bytes_at(key) {
        Some(b) => parse_compact_nodes(b.as_slice(), v6),
        None => Vec::new(),
    }
}

/// Read the answer to a question for peers; nothing where there is no dictionary of results.
pub fn parse_get_peers_response(body: &Value) -> (r: Option<GetPeersResponseBody>)
    ensures
        match field(body@, w_r()) {
            Some(Bencode::Dict(d)) => r matches Some(out) && answers_with(Bencode::Dict(d), out),
            _ => r is None,
        },
{
    let results = match body.get(words::r().as_slice()) {
        Some(v) => v,
        None => {
            return None;
        },
    };
    if results.as_dict().is_none() {
        return None;
    }
    let responder_id = id_at(results, words::id().as_slice());
    let peers = match results.list_at(words::values().as_slice()) {
        Some(l) => read_peers(l),
        None => Vec::new(),
    };
    let mut nodes = read_nodes(results, words::nodes().as_slice(), false);
    let mut more = read_nodes(results, words::nodes6().as_slice(), true);
    nodes.append(&mut more);
    let token = match results.bytes_at(words::token().as_slice()) {
        Some(b) => {
            let copy = copy_range(b.as_slice(), 0, b.len());
            assert(copy@ =~= b@);
            Some(copy)
        },
        None => None,
    };
    Some(GetPeersResponseBody { responder_id, peers, nodes, token })
}

/// True when the word stands in the list.
pub open spec fn names(items: Seq<Bencode>, word: Seq<u8>) -> bool {
    exists|i: int| 0 <= i < items.len() && #[trigger] items[i] == Bencode::Bytes(word)
}

/// Which address families the asker wants contacts of: those it names, or its own.
pub open spec fn wanted(args: Bencode, from: SocketAddr) -> (bool, bool) {
    match list_field(args, w_want()) {
        None => (from.ip is V4, from.ip is V6),
        Some(l) => (names(l, w_n4()), names(l, w_n6())),
    }
}

fn contains_word(items: &Vec<Value>, word: &[u8]) -> (r: bool)
    ensures
        r == names(model_list(items@), word@),
{
    let mut i: usize = 0;
    let ghost all = model_list(items@);
    proof {
        lemma_model_list(items@);
    }
    while i < items.len()
        invariant
            i <= items.len(),
            all == model_list(items@),
            all.len() == items.len(),
            forall|j: int| 0 <= j < items.len() ==> #[trigger] all[j] == model(items@[j]),
            forall|j: int| 0 <= j < i ==> #[trigger] all[j] != Bencode::Bytes(word@),
        decreases items.len() - i,
    {
        assert(all[i as int] == items@[i as int]@);
        match items[i].as_bytes() {
            Some(b) => {
                if same_bytes(b.as_slice(), word) {
                    return true;
                }
            },
            None => {},
        }
        i += 1;
    }
    false
}

pub fn parse_want(args: &Value, from: &SocketAddr) -> (r: (bool, bool))
    ensures
        r == wanted(args@, *from),
{
    match args.list_at(words::want().as_slice()) {
        None => (from.is_ipv4(), from.is_ipv6()),
        Some(l) => (
            contains_word(l, words::n4().as_slice()),
            contains_word(l, words::n6().as_slice()),
        ),
    }
}

proof fn lemma_first_nodes_prefix(s: Seq<u8>, rest: Seq<u8>, v6: bool, k: nat)
    requires
        k * node_width(v6) <= s.len(),
    ensures
        first_nodes(s + rest, v6, k) == first_nodes(s, v6, k),
    decreases k,
{
    if k > 0 {
        let w = node_width(v6);
        let at = (k - 1) * w;
        assert(at + w == k * w && at >= 0) by (nonlinear_arith)
            requires
                at == (k - 1) * w,
                k > 0,
                w > 0,
        ;
        lemma_first_nodes_prefix(s, rest, v6, (k - 1) as nat);
        assert((s + rest).subrange(at, at + 20) =~= s.subrange(at, at + 20));
        let a = s.skip(at + 20);
        let b = (s + rest).skip(at + 20);
        let n = if v6 {
            16int
        } else {
            4int
        };
        assert(a.take(n) =~= b.take(n));
        assert(a.skip(n)[0] == b.skip(n)[0] && a.skip(n)[1] == b.skip(n)[1]);
        assert forall|addr: SocketAddr| reads_as(addr, a, v6) == #[trigger] reads_as(
            addr,
            b,
            v6,
        ) by {}
        assert forall|addr: SocketAddr| #[trigger] reads_as(addr, a, v6) == reads_as(
            addr,
            b,
            v6,
        ) by {}
        let p = address_of(a, v6);
        let q = address_of(b, v6);
        lemma_readable(a, v6);
        assert(reads_as(p, a, v6));
        assert(reads_as(q, b, v6));
        reading_is_unique(p, q, a, v6);
    }
}

/// The contacts of one address family that can be reached are read back from their compact forms.
pub proof fn compact_nodes_round_trip(nodes: Seq<(Id20, SocketAddr)>, v6: bool)
    requires
        forall|i: int|
            0 <= i < nodes.len() ==> routable((#[trigger] nodes[i]).1) && (nodes[i].1.ip is V6)
                == v6,
    ensures
        nodes_in(compact_forms(nodes, v6), v6) == nodes,
{
    lemma_compact_nodes(nodes, v6);
    let w = node_width(v6);
    let n = nodes.len() as int;
    assert(n * w / w == n) by (nonlinear_arith)
        requires
            w > 0,
    ;
}

proof fn lemma_compact_nodes(nodes: Seq<(Id20, SocketAddr)>, v6: bool)
    requires
        forall|i: int|
            0 <= i < nodes.len() ==> routable((#[trigger] nodes[i]).1) && (nodes[i].1.ip is V6)
                == v6,
    ensures
        compact_forms(nodes, v6).len() == nodes.len() * node_width(v6),
        first_nodes(compact_forms(nodes, v6), v6, nodes.len()) == nodes,
    decreases nodes.len(),
{
    if nodes.len() > 0 {
        let front = nodes.drop_last();
        let last = nodes.last();
        lemma_compact_nodes(front, v6);
        let s = compact_forms(front, v6);
        let all = compact_forms(nodes, v6);
        let w = node_width(v6);
        let at = front.len() * w;
        assert(at + w == nodes.len() * w) by (nonlinear_arith)
            requires
                at == front.len() * w,
                front.len() == nodes.len() - 1,
        ;
        compact_round_trip(last.1, seq![]);
        assert(compact(last.1) + seq![] =~= compact(last.1));
        assert(all =~= s + (last.0@ + compact(last.1)));
        lemma_first_nodes_prefix(s, last.0@ + compact(last.1), v6, front.len());
        assert(all.subrange(at, at + 20) =~= last.0@);
        assert(all.skip(at + 20) =~= compact(last.1));
        id20_is_its_bytes(last.0);
        assert(front.push(last) =~= nodes);
    }
}

/// The contacts of one address family, in their order.
spec fn of_family(nodes: Seq<(Id20, SocketAddr)>, v6: bool) -> Seq<(Id20, SocketAddr)>
    decreases nodes.len(),
{
    if nodes.len() == 0 {
        seq![]
    } else if (nodes.last().1.ip is V6) == v6 {
        of_family(nodes.drop_last(), v6).push(nodes.last())
    } else {
        of_family(nodes.drop_last(), v6)
    }
}

/// The contacts that can be reached, in their order.
spec fn reachable(nodes: Seq<(Id20, SocketAddr)>) -> Seq<(Id20, SocketAddr)>
    decreases nodes.len(),
{
    if nodes.len() == 0 {
        seq![]
    } else if routable(nodes.last().1) {
        reachable(nodes.drop_last()).push(nodes.last())
    } else {
        reachable(nodes.drop_last())
    }
}

proof fn lemma_pushed_member<T>(s: Seq<T>, last: T, x: T)
    ensures
        s.push(last).contains(x) <==> s.contains(x) || x == last,
{
    let t = s.push(last);
    assert(t[s.len() as int] == last);
    if s.contains(x) {
        let i = choose|i: int| 0 <= i < s.len() && s[i] == x;
        assert(t[i] == x);
    }
    if t.contains(x) {
        let i = choose|i: int| 0 <= i < t.len() && t[i] == x;
        if i < s.len() {
            assert(s[i] == x);
        }
    }
}

proof fn lemma_mixed_forms(nodes: Seq<(Id20, SocketAddr)>, v6: bool)
    ensures
        compact_forms(nodes, v6).len() == of_family(nodes, v6).len() * node_width(v6),
        of_family(nodes, v6).len() <= nodes.len(),
        first_nodes(compact_forms(nodes, v6), v6, of_family(nodes, v6).len()) == reachable(
            of_family(nodes, v6),
        ),
        forall|x: (Id20, SocketAddr)| #[trigger]
            reachable(of_family(nodes, v6)).contains(x) <==> nodes.contains(x) && (x.1.ip is V6)
                == v6 && routable(x.1),
    decreases nodes.len(),
{
    if nodes.len() > 0 {
        let front = nodes.drop_last();
        let last = nodes.last();
        lemma_mixed_forms(front, v6);
        assert(nodes =~= front.push(last));
        let before = of_family(front, v6);
        if (last.1.ip is V6) == v6 {
            let s = compact_forms(front, v6);
            let all = compact_forms(nodes, v6);
            let w = node_width(v6);
            let at = before.len() * w;
            assert(at + w == (before.len() + 1) * w) by (nonlinear_arith)
                requires
                    at == before.len() * w,
            ;
            compact_round_trip(last.1, seq![]);
            assert(compact(last.1) + seq![] =~= compact(last.1));
            assert(all =~= s + (last.0@ + compact(last.1)));
            lemma_first_nodes_prefix(s, last.0@ + compact(last.1), v6, before.len());
            assert(all.subrange(at, at + 20) =~= last.0@);
            assert(all.skip(at + 20) =~= compact(last.1));
            id20_is_its_bytes(last.0);
            assert(before.push(last).drop_last() =~= before);
        }
        assert forall|x: (Id20, SocketAddr)| #[trigger]
            reachable(of_family(nodes, v6)).contains(x) <==> nodes.contains(x) && (x.1.ip is V6)
                == v6 && routable(x.1) by {
            lemma_pushed_member(front, last, x);
            lemma_pushed_member(reachable(before), last, x);
            assert(before.push(last).drop_last() =~= before);
            assert(reachable(before).contains(x) <==> front.contains(x) && (x.1.ip is V6) == v6
                && routable(x.1));
        }
    }
}

/// The compact forms of contacts of both address families are as long as those of one family, and
/// are read as exactly the contacts of that family that can be reached.
pub proof fn compact_forms_are_read(nodes: Seq<(Id20, SocketAddr)>, v6: bool)
    ensures
        compact_forms(nodes, v6).len() <= nodes.len() * node_width(v6),
        compact_forms(nodes, v6).len() % (node_width(v6) as nat) == 0,
        forall|id: Id20, addr: SocketAddr| #[trigger]
            nodes_in(compact_forms(nodes, v6), v6).contains((id, addr)) <==> nodes.contains(
                (id, addr),
            ) && (addr.ip is V6) == v6 && routable(addr),
{
    lemma_mixed_forms(nodes, v6);
    let w = node_width(v6);
    let n = of_family(nodes, v6).len() as int;
    assert(n * w / w == n && n * w % w == 0 && n * w <= nodes.len() * w) by (nonlinear_arith)
        requires
            w > 0,
            n <= nodes.len(),
    ;
}

/// A contact has a compact form in one of the two address families only.
pub proof fn each_contact_has_one_form(nodes: Seq<(Id20, SocketAddr)>)
    ensures
        compact_forms(nodes, false).len() + compact_forms(nodes, true).len() <= nodes.len() * 38,
    decreases nodes.len(),
{
    if nodes.len() > 0 {
        let last = nodes.last();
        each_contact_has_one_form(nodes.drop_last());
        compact_round_trip(last.1, seq![]);
        assert(compact(last.1) + seq![] =~= compact(last.1));
    }
}

proof fn lemma_first_nodes_grow(s: Seq<u8>, v6: bool, j: nat, k: nat)
    requires
        j <= k,
    ensures
        forall|x: (Id20, SocketAddr)| #[trigger]
            first_nodes(s, v6, j).contains(x) ==> first_nodes(s, v6, k).contains(x),
    decreases k,
{
    if j < k {
        lemma_first_nodes_grow(s, v6, j, (k - 1) as nat);
        let before = first_nodes(s, v6, (k - 1) as nat);
        let out = first_nodes(s, v6, k);
        assert forall|x: (Id20, SocketAddr)| #[trigger] before.contains(x) implies out.contains(
            x,
        ) by {
            let i = choose|i: int| 0 <= i < before.len() && before[i] == x;
            assert(out[i] == x);
        }
    }
}

/// Whoever is told of by some compact forms is told of by these and more.
pub proof fn more_forms_tell_of_more(s: Seq<u8>, v6: bool, n: int)
    requires
        0 <= n,
        n * node_width(v6) <= s.len(),
    ensures
        forall|x: (Id20, SocketAddr)| #[trigger]
            nodes_in(s.take(n * node_width(v6)), v6).contains(x) ==> nodes_in(s, v6).contains(x),
{
    let w = node_width(v6);
    let head = s.take(n * w);
    assert(n * w / w == n && n <= s.len() as int / w && n * w >= 0) by (nonlinear_arith)
        requires
            w > 0,
            n >= 0,
            n * w <= s.len(),
    ;
    assert(head + s.skip(n * w) =~= s);
    lemma_first_nodes_prefix(head, s.skip(n * w), v6, n as nat);
    lemma_first_nodes_grow(s, v6, n as nat, (s.len() as int / w) as nat);
}

proof fn lemma_pushed_item<T>(s: Seq<T>, last: T, x: T)
    ensures
        s.push(last).contains(x) <==> s.contains(x) || x == last,
{
    let t = s.push(last);
    assert(t[s.len() as int] == last);
    if s.contains(x) {
        let i = choose|i: int| 0 <= i < s.len() && s[i] == x;
        assert(t[i] == x);
    }
    if t.contains(x) {
        let i = choose|i: int| 0 <= i < t.len() && t[i] == x;
        if i < s.len() {
            assert(s[i] == x);
        }
    }
}

/// True when an item is the compact form of an endpoint that can be reached.
pub open spec fn item_is(item: Bencode, addr: SocketAddr) -> bool {
    item matches Bencode::Bytes(b) && routable(addr) && ((b.len() == 6 && address_of(b, false)
        == addr) || (b.len() == 18 && address_of(b, true) == addr))
}

proof fn lemma_peers_in(items: Seq<Bencode>)
    ensures
        forall|a: SocketAddr| #[trigger]
            peers_in(items).contains(a) <==> exists|i: int|
                0 <= i < items.len() && item_is(#[trigger] items[i], a),
    decreases items.len(),
{
    if items.len() > 0 {
        let front = items.drop_last();
        lemma_peers_in(front);
        let before = peers_in(front);
        let last = items.len() - 1;
        assert(items[last] == items.last());
        assert forall|a: SocketAddr| #[trigger] peers_in(items).contains(a) <==> exists|i: int|
            0 <= i < items.len() && item_is(#[trigger] items[i], a) by {
            if let Some(addr) = peer_in(items.last()) {
                lemma_pushed_item(before, addr, a);
                assert(item_is(items[last], addr));
            }
            if before.contains(a) {
                let i = choose|i: int| 0 <= i < front.len() && item_is(#[trigger] front[i], a);
                assert(items[i] == front[i]);
            }
            if exists|i: int| 0 <= i < items.len() && item_is(#[trigger] items[i], a) {
                let i = choose|i: int| 0 <= i < items.len() && item_is(#[trigger] items[i], a);
                if i < last {
                    assert(items[i] == front[i]);
                    assert(before.contains(a));
                }
            }
        }
    }
}

/// What an answer to a question for peers says is read from the keys that name it: who answers,
/// every peer that can be reached, the contacts of both address families, and the token.
pub proof fn what_an_answer_tells(r: Bencode, out: GetPeersResponseBody)
    requires
        answers_with(r, out),
    ensures
        out.responder_id is Some <==> (bytes_field(r, seq![105u8, 100]) matches Some(b) && b.len() == 20),
        out.responder_id matches Some(id) ==> id@ == bytes_field(r, seq![105u8, 100])->0,
        list_field(r, seq![118u8, 97, 108, 117, 101, 115]) is None ==> out.peers@.len() == 0,
        list_field(r, seq![118u8, 97, 108, 117, 101, 115]) matches Some(l) ==> forall|a: SocketAddr| #[trigger]
            out.peers@.contains(a) <==> exists|i: int|
                0 <= i < l.len() && item_is(#[trigger] l[i], a),
        forall|x: (Id20, SocketAddr)| #[trigger]
            out.nodes@.contains(x) <==> (bytes_field(r, seq![110u8, 111, 100, 101, 115]) matches Some(b) && nodes_in(
                b,
                false,
            ).contains(x)) || (bytes_field(r, seq![110u8, 111, 100, 101, 115, 54]) matches Some(b) && nodes_in(
                b,
                true,
            ).contains(x)),
        out.token is Some <==> bytes_field(r, seq![116u8, 111, 107, 101, 110]) is Some,
        out.token matches Some(t) ==> t@ == bytes_field(r, seq![116u8, 111, 107, 101, 110])->0,
{
    if let Some(b) = bytes_field(r, seq![105u8, 100]) {
        if b.len() == 20 {
            crate::meta::hash::id20_has_its_bytes(b);
        }
    }
    if let Some(l) = list_field(r, seq![118u8, 97, 108, 117, 101, 115]) {
        lemma_peers_in(l);
    }
    let a = nodes_field(r, seq![110u8, 111, 100, 101, 115], false);
    let b = nodes_field(r, seq![110u8, 111, 100, 101, 115, 54], true);
    assert forall|x: (Id20, SocketAddr)| #[trigger] out.nodes@.contains(x) <==> a.contains(x)
        || b.contains(x) by {
        let all = a + b;
        if a.contains(x) {
            let i = choose|i: int| 0 <= i < a.len() && a[i] == x;
            assert(all[i] == x);
        }
        if b.contains(x) {
            let i = choose|i: int| 0 <= i < b.len() && b[i] == x;
            assert(all[a.len() + i] == x);
        }
        if all.contains(x) {
            let i = choose|i: int| 0 <= i < all.len() && all[i] == x;
            if i < a.len() {
                assert(a[i] == x);
            } else {
                assert(b[i - a.len()] == x);
            }
        }
    }
}

proof fn lemma_four_keys(d: Seq<(Seq<u8>, Bencode)>)
    requires
        d.len() == 4,
        d[0].0 == seq![97u8],
        d[1].0 == seq![113u8],
        d[2].0 == seq![116u8],
        d[3].0 == seq![121u8],
    ensures
        lookup(d, seq![97u8]) == Some(d[0].1),
        lookup(d, seq![113u8]) == Some(d[1].1),
        lookup(d, seq![116u8]) == Some(d[2].1),
        lookup(d, seq![121u8]) == Some(d[3].1),
{
    assert(seq![97u8][0] == 97u8 && seq![113u8][0] == 113u8 && seq![116u8][0] == 116u8 && seq![121u8][0] == 121u8);
    lemma_first_with_key(d, seq![97u8], 0);
    lemma_first_with_key(d, seq![113u8], 1);
    lemma_first_with_key(d, seq![116u8], 2);
    lemma_first_with_key(d, seq![121u8], 3);
}

/// A question has its name, its transaction, the mark of a question and its arguments under the
/// keys for them.
pub proof fn how_a_question_is_written(name: Seq<u8>, args: Bencode, txn: Seq<u8>)
    ensures
        bytes_field(query(name, args, txn), seq![113u8]) == Some(name),
        bytes_field(query(name, args, txn), seq![116u8]) == Some(txn),
        bytes_field(query(name, args, txn), seq![121u8]) == Some(seq![113u8]),
        field(query(name, args, txn), seq![97u8]) == Some(args),
{
    lemma_four_keys(query(name, args, txn)->Dict_0);
}

/// The arguments of a question for peers name us and the torrent, and ask for contacts of both
/// address families.
pub proof fn what_a_question_for_peers_names(ours: Id20, hash: Id20)
    ensures
        bytes_field(get_peers_args(ours, hash), seq![105u8, 100]) == Some(ours@),
        bytes_field(get_peers_args(ours, hash), seq![105u8, 110, 102, 111, 95, 104, 97, 115, 104]) == Some(hash@),
        list_field(get_peers_args(ours, hash), seq![119u8, 97, 110, 116]) matches Some(l) && l.contains(
            Bencode::Bytes(seq![110u8, 52]),
        ) && l.contains(Bencode::Bytes(seq![110u8, 54])),
{
    let d = get_peers_args(ours, hash)->Dict_0;
    assert(seq![105u8, 100].len() == 2 && seq![105u8, 110, 102, 111, 95, 104, 97, 115, 104].len() == 9 && seq![119u8, 97, 110, 116].len() == 4);
    assert(d[0].0 == seq![105u8, 100] && d[1].0 == seq![105u8, 110, 102, 111, 95, 104, 97, 115, 104] && d[2].0 == seq![119u8, 97, 110, 116]);
    lemma_first_with_key(d, seq![105u8, 100], 0);
    lemma_first_with_key(d, seq![105u8, 110, 102, 111, 95, 104, 97, 115, 104], 1);
    lemma_first_with_key(d, seq![119u8, 97, 110, 116], 2);
    let l = d[2].1->List_0;
    assert(l[0] == Bencode::Bytes(seq![110u8, 52]) && l[1] == Bencode::Bytes(seq![110u8, 54]));
}

/// The arguments of an announcement name us and the torrent, give our port and not the sender's
/// own, and hand the token back.
pub proof fn what_an_announcement_names(ours: Id20, hash: Id20, port: u16, token: Seq<u8>)
    ensures
        bytes_field(announce_args(ours, hash, port, token), seq![105u8, 100]) == Some(ours@),
        bytes_field(announce_args(ours, hash, port, token), seq![105u8, 110, 102, 111, 95, 104, 97, 115, 104]) == Some(hash@),
        int_field(announce_args(ours, hash, port, token), seq![112u8, 111, 114, 116]) == Some(port as int),
        int_field(announce_args(ours, hash, port, token), seq![105u8, 109, 112, 108, 105, 101, 100, 95, 112, 111, 114, 116]) == Some(0int),
        bytes_field(announce_args(ours, hash, port, token), seq![116u8, 111, 107, 101, 110]) == Some(token),
{
    let d = announce_args(ours, hash, port, token)->Dict_0;
    assert(seq![105u8, 100].len() == 2 && seq![105u8, 109, 112, 108, 105, 101, 100, 95, 112, 111, 114, 116].len() == 12 && seq![105u8, 110, 102, 111, 95, 104, 97, 115, 104].len() == 9 && seq![112u8, 111, 114, 116].len()
        == 4 && seq![116u8, 111, 107, 101, 110].len() == 5);
    assert(d[0].0 == seq![105u8, 100] && d[1].0 == seq![105u8, 109, 112, 108, 105, 101, 100, 95, 112, 111, 114, 116] && d[2].0 == seq![105u8, 110, 102, 111, 95, 104, 97, 115, 104] && d[3].0 == seq![112u8, 111, 114, 116]
        && d[4].0 == seq![116u8, 111, 107, 101, 110]);
    lemma_first_with_key(d, seq![105u8, 100], 0);
    lemma_first_with_key(d, seq![105u8, 109, 112, 108, 105, 101, 100, 95, 112, 111, 114, 116], 1);
    lemma_first_with_key(d, seq![105u8, 110, 102, 111, 95, 104, 97, 115, 104], 2);
    lemma_first_with_key(d, seq![112u8, 111, 114, 116], 3);
    lemma_first_with_key(d, seq![116u8, 111, 107, 101, 110], 4);
}

/// An address answers for itself only, a name for the same name and port, however it is spelled,
/// and any address for a name.
pub proof fn who_may_answer(a: SocketAddr, b: SocketAddr, h: Seq<char>, k: Seq<char>, p: u16, q: u16)
    ensures
        may_answer(TargetModel::Addr(a), TargetModel::Addr(b)) <==> a == b,
        may_answer(TargetModel::Host(h, p), TargetModel::Host(k, q)) <==> p == q
            && same_ignoring_case(h, k),
        may_answer(TargetModel::Host(h, p), TargetModel::Addr(b)),
        !may_answer(TargetModel::Addr(a), TargetModel::Host(k, q)),
{
}

} // verus!
