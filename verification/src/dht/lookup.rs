//! The search for the peers of a torrent, from node to closer node.

use vstd::prelude::*;

use crate::dht::endpoint::{public_dht_endpoint, public_endpoint};
use crate::dht::krpc::{
    pseudo_id_target, same_target, target_bytes, DhtTarget, GetPeersResponseBody, TargetModel,
};
use crate::ranked::{
    put, put_new, ranked, ranked_has, ranked_put, ranked_put_keeps_order, ranking,
};
use crate::dht::routing::{at_most, K};
use crate::meta::hash::{id20_is_its_bytes, id20_of, sha1_digest, xor_bytes, Id20};
use crate::net::SocketAddr;
use crate::order::lex_less;

verus! {

/// How many nodes are asked after each answer.
pub const ALPHA: usize = 3;

/// How many nodes are asked at the start.
pub const MAX_ROUND_QUERIES: usize = 50;

/// The state of a search.
#[verifier::ext_equal]
pub struct LookupModel {
    pub info_hash: Id20,
    pub shortlist: Seq<(Seq<u8>, TargetModel)>,
    pub queried: Seq<TargetModel>,
    pub peers_seen: Seq<SocketAddr>,
    pub announce: Seq<(Seq<u8>, (TargetModel, Seq<u8>))>,
    pub idle: nat,
    pub outstanding: nat,
}

/// An answer to one of the questions.
#[verifier::ext_equal]
pub struct ReplyModel {
    pub from: TargetModel,
    pub responder_id: Option<Id20>,
    pub peers: Seq<SocketAddr>,
    pub nodes: Seq<(Id20, SocketAddr)>,
    pub token: Option<Seq<u8>>,
}

/// What an answer leads to: new peers, nodes for the table (with whether they have answered),
/// further questions, and whether the search is over.
#[verifier::ext_equal]
pub struct StepModel {
    pub peers: Seq<SocketAddr>,
    pub routes: Seq<(Id20, SocketAddr, bool)>,
    pub queries: Seq<TargetModel>,
    pub finished: bool,
}

/// The items without those that occurred before.
pub open spec fn first_of_each<T>(s: Seq<T>) -> Seq<T>
    decreases s.len(),
{
    if s.len() == 0 {
        seq![]
    } else {
        let front = first_of_each(s.drop_last());
        if front.contains(s.last()) {
            front
        } else {
            front.push(s.last())
        }
    }
}

/// The items that are not among `seen`, each once.
pub open spec fn unseen<T>(seen: Seq<T>, items: Seq<T>) -> Seq<T>
    decreases items.len(),
{
    if items.len() == 0 {
        seq![]
    } else {
        let front = unseen(seen, items.drop_last());
        if seen.contains(items.last()) || front.contains(items.last()) {
            front
        } else {
            front.push(items.last())
        }
    }
}

/// The identifier by which an answer is ranked.
pub open spec fn answering_id(r: ReplyModel) -> Id20 {
    match r.responder_id {
        Some(id) => id,
        None => id20_of(sha1_digest(target_bytes(r.from))),
    }
}

/// True when an answer may be followed up: names count, addresses only where they are public.
pub open spec fn answer_is_public(r: ReplyModel) -> bool {
    match r.from {
        TargetModel::Addr(addr) => public_endpoint(addr),
        TargetModel::Host(_, _) => true,
    }
}

/// The shortlist with the public nodes that an answer told of, and whether one of them was new.
pub open spec fn merged(
    shortlist: Seq<(Seq<u8>, TargetModel)>,
    nodes: Seq<(Id20, SocketAddr)>,
    hash: Id20,
) -> (Seq<(Seq<u8>, TargetModel)>, bool)
    decreases nodes.len(),
{
    if nodes.len() == 0 {
        (shortlist, false)
    } else {
        let (front, progressed) = merged(shortlist, nodes.drop_last(), hash);
        let (id, addr) = nodes.last();
        let key = xor_bytes(id@, hash@);
        if !public_endpoint(addr) || ranked_has(front, key) {
            (front, progressed)
        } else {
            (ranked_put(front, key, TargetModel::Addr(addr)), true)
        }
    }
}

/// The public nodes that an answer told of.
pub open spec fn told_of(nodes: Seq<(Id20, SocketAddr)>) -> Seq<(Id20, SocketAddr, bool)>
    decreases nodes.len(),
{
    if nodes.len() == 0 {
        seq![]
    } else {
        let front = told_of(nodes.drop_last());
        let (id, addr) = nodes.last();
        if public_endpoint(addr) {
            front.push((id, addr, false))
        } else {
            front
        }
    }
}

/// The first targets that have not been asked yet, at most `room`.
pub open spec fn next_queries(
    list: Seq<(Seq<u8>, TargetModel)>,
    queried: Seq<TargetModel>,
    room: nat,
) -> Seq<TargetModel>
    decreases list.len(),
{
    if list.len() == 0 || room == 0 {
        seq![]
    } else if queried.contains(list[0].1) {
        next_queries(list.drop_first(), queried, room)
    } else {
        seq![list[0].1] + next_queries(
            list.drop_first(),
            queried.push(list[0].1),
            (room - 1) as nat,
        )
    }
}

/// The answering node for the table, where it has told its name and its address is public.
pub open spec fn answering_route(r: ReplyModel) -> Seq<(Id20, SocketAddr, bool)> {
    match (r.responder_id, r.from) {
        (Some(id), TargetModel::Addr(addr)) => if public_endpoint(addr) {
            seq![(id, addr, true)]
        } else {
            seq![]
        },
        _ => seq![],
    }
}

/// What an answer does to a search, and what it leads to.
pub open spec fn advanced(m: LookupModel, r: ReplyModel) -> (LookupModel, StepModel) {
    let fresh = unseen(m.peers_seen, r.peers);
    let key = xor_bytes(answering_id(r)@, m.info_hash@);
    let public = answer_is_public(r);
    let started = if public {
        ranked_put(m.shortlist, key, r.from)
    } else {
        m.shortlist
    };
    let announce = match r.token {
        Some(token) => if public {
            at_most(ranked_put(m.announce, key, (r.from, token)), 16)
        } else {
            m.announce
        },
        None => m.announce,
    };
    let (list, progressed) = merged(started, r.nodes, m.info_hash);
    let shortlist = at_most(list, 32);
    let idle = if progressed || fresh.len() > 0 {
        0
    } else if m.idle <= 20 {
        m.idle + 1
    } else {
        m.idle
    };
    let queries = next_queries(at_most(shortlist, 16), m.queried, 3);
    let seen = m.peers_seen + fresh;
    let outstanding = (m.outstanding - 1 + queries.len()) as nat;
    (
        LookupModel {
            info_hash: m.info_hash,
            shortlist,
            queried: m.queried + queries,
            peers_seen: seen,
            announce,
            idle,
            outstanding,
        },
        StepModel {
            peers: fresh,
            routes: answering_route(r) + told_of(r.nodes),
            queries,
            finished: outstanding == 0 || (idle > 20 && seen.len() >= 40),
        },
    )
}

/// What a question without an answer does to a search.
pub open spec fn unanswered(m: LookupModel) -> (LookupModel, StepModel) {
    let outstanding = (m.outstanding - 1) as nat;
    (
        LookupModel { outstanding, ..m },
        StepModel { peers: seq![], routes: seq![], queries: seq![], finished: outstanding == 0 },
    )
}

/// The nodes that a search starts with.
pub open spec fn seeds(
    known: Seq<SocketAddr>,
    hosts: Seq<TargetModel>,
) -> Seq<TargetModel> {
    at_most(
        first_of_each(
            Seq::new(known.len(), |i: int| TargetModel::Addr(known[i])) + hosts,
        ),
        50,
    )
}

/// True when nothing stands there twice.
pub open spec fn each_once<T>(s: Seq<T>) -> bool {
    forall|i: int, j: int| 0 <= i < j < s.len() ==> #[trigger] s[i] != #[trigger] s[j]
}

/// True of every search: the lists are in order of distance and short, nobody has been asked
/// twice, no peer was told twice, and only questions that were asked are outstanding.
pub open spec fn orderly(m: LookupModel) -> bool {
    &&& ranked(m.shortlist)
    &&& m.shortlist.len() <= 32
    &&& ranked(m.announce)
    &&& m.announce.len() <= 16
    &&& each_once(m.queried)
    &&& each_once(m.peers_seen)
    &&& m.idle <= 21
    &&& m.outstanding <= m.queried.len()
}

proof fn lemma_first_of_each<T>(s: Seq<T>)
    ensures
        each_once(first_of_each(s)),
        first_of_each(s).len() <= s.len(),
    decreases s.len(),
{
    if s.len() > 0 {
        lemma_first_of_each(s.drop_last());
        let front = first_of_each(s.drop_last());
        let out = first_of_each(s);
        if !front.contains(s.last()) {
            assert forall|i: int, j: int| 0 <= i < j < out.len() implies #[trigger] out[i]
                != #[trigger] out[j] by {
                assert(out[i] == front[i]);
                if j < front.len() {
                    assert(out[j] == front[j]);
                } else {
                    assert(front.contains(front[i]));
                }
            }
        }
    }
}

proof fn lemma_unseen<T>(seen: Seq<T>, items: Seq<T>)
    requires
        each_once(seen),
    ensures
        each_once(seen + unseen(seen, items)),
        unseen(seen, items).len() <= items.len(),
        forall|i: int|
            0 <= i < unseen(seen, items).len() ==> !seen.contains(
                #[trigger] unseen(seen, items)[i],
            ),
    decreases items.len(),
{
    if items.len() > 0 {
        lemma_unseen(seen, items.drop_last());
        let front = unseen(seen, items.drop_last());
        let x = items.last();
        if !seen.contains(x) && !front.contains(x) {
            let before = seen + front;
            let out = seen + unseen(seen, items);
            assert forall|i: int, j: int| 0 <= i < j < out.len() implies #[trigger] out[i]
                != #[trigger] out[j] by {
                assert(out[i] == before[i]);
                if j < before.len() {
                    assert(out[j] == before[j]);
                } else {
                    assert(out[j] == x);
                    if i < seen.len() {
                        assert(seen[i] == out[i]);
                    } else {
                        assert(front[i - seen.len()] == out[i]);
                    }
                }
            }
            assert forall|i: int| 0 <= i < unseen(seen, items).len() implies !seen.contains(
                #[trigger] unseen(seen, items)[i],
            ) by {
                if i < front.len() {
                    assert(unseen(seen, items)[i] == front[i]);
                }
            }
        }
    } else {
        assert(seen + unseen(seen, items) =~= seen);
    }
}

proof fn lemma_next_queries(
    list: Seq<(Seq<u8>, TargetModel)>,
    queried: Seq<TargetModel>,
    room: nat,
)
    requires
        each_once(queried),
    ensures
        each_once(queried + next_queries(list, queried, room)),
        next_queries(list, queried, room).len() <= room,
    decreases list.len(),
{
    if list.len() == 0 || room == 0 {
        assert(queried + next_queries(list, queried, room) =~= queried);
    } else if queried.contains(list[0].1) {
        lemma_next_queries(list.drop_first(), queried, room);
    } else {
        let more = queried.push(list[0].1);
        assert(each_once(more)) by {
            assert forall|i: int, j: int| 0 <= i < j < more.len() implies #[trigger] more[i]
                != #[trigger] more[j] by {
                assert(more[i] == queried[i]);
                assert(queried.contains(queried[i]));
            }
        }
        lemma_next_queries(list.drop_first(), more, (room - 1) as nat);
        assert(queried + next_queries(list, queried, room) =~= more + next_queries(
            list.drop_first(),
            more,
            (room - 1) as nat,
        ));
    }
}

proof fn lemma_merged(
    shortlist: Seq<(Seq<u8>, TargetModel)>,
    nodes: Seq<(Id20, SocketAddr)>,
    hash: Id20,
)
    requires
        ranked(shortlist),
    ensures
        ranked(merged(shortlist, nodes, hash).0),
    decreases nodes.len(),
{
    if nodes.len() > 0 {
        lemma_merged(shortlist, nodes.drop_last(), hash);
        let front = merged(shortlist, nodes.drop_last(), hash).0;
        let (id, addr) = nodes.last();
        ranked_put_keeps_order(front, xor_bytes(id@, hash@), TargetModel::Addr(addr));
    }
}

proof fn lemma_at_most_ranked<V>(m: Seq<(Seq<u8>, V)>, n: nat)
    requires
        ranked(m),
    ensures
        ranked(at_most(m, n)),
        at_most(m, n).len() <= n,
{
}

/// Every answer keeps the search orderly: nobody is asked twice, at most three more nodes are
/// asked at a time, no peer is told twice, and the lists stay sorted and short.
pub proof fn searches_stay_orderly(m: LookupModel, r: ReplyModel)
    requires
        orderly(m),
        m.outstanding > 0,
    ensures
        orderly(advanced(m, r).0),
        advanced(m, r).0.queried == m.queried + advanced(m, r).1.queries,
        advanced(m, r).1.queries.len() <= 3,
        advanced(m, r).0.peers_seen == m.peers_seen + advanced(m, r).1.peers,
{
    let key = xor_bytes(answering_id(r)@, m.info_hash@);
    let started = if answer_is_public(r) {
        ranked_put(m.shortlist, key, r.from)
    } else {
        m.shortlist
    };
    ranked_put_keeps_order(m.shortlist, key, r.from);
    match r.token {
        Some(token) => {
            ranked_put_keeps_order(m.announce, key, (r.from, token));
            lemma_at_most_ranked(ranked_put(m.announce, key, (r.from, token)), 16);
        },
        None => {},
    }
    lemma_merged(started, r.nodes, m.info_hash);
    let list = merged(started, r.nodes, m.info_hash).0;
    lemma_at_most_ranked(list, 32);
    lemma_unseen(m.peers_seen, r.peers);
    lemma_next_queries(at_most(at_most(list, 32), 16), m.queried, 3);
}

proof fn lemma_unseen_members<T>(seen: Seq<T>, items: Seq<T>)
    ensures
        forall|x: T| #[trigger]
            unseen(seen, items).contains(x) <==> items.contains(x) && !seen.contains(x),
    decreases items.len(),
{
    if items.len() > 0 {
        let front = unseen(seen, items.drop_last());
        lemma_unseen_members(seen, items.drop_last());
        let out = unseen(seen, items);
        let whole = items.drop_last().push(items.last());
        assert(whole =~= items);
        assert forall|x: T| #[trigger] out.contains(x) <==> items.contains(x) && !seen.contains(
            x,
        ) by {
            lemma_contains_push(items.drop_last(), items.last(), x);
            lemma_contains_push(front, items.last(), x);
            assert(front.contains(x) <==> items.drop_last().contains(x) && !seen.contains(x));
        }
    }
}

proof fn lemma_contains_push<T>(s: Seq<T>, last: T, x: T)
    ensures
        s.push(last).contains(x) <==> (s.contains(x) || x == last),
{
    let t = s.push(last);
    if s.contains(x) {
        let i = choose|i: int| 0 <= i < s.len() && s[i] == x;
        assert(t[i] == x);
    }
    if x == last {
        assert(t[s.len() as int] == x);
    }
    if t.contains(x) {
        let i = choose|i: int| 0 <= i < t.len() && t[i] == x;
        if i < s.len() {
            assert(s[i] == x);
        }
    }
}

proof fn lemma_unseen_in_order<T>(seen: Seq<T>, items: Seq<T>, i: int)
    requires
        0 <= i < items.len(),
        !seen.contains(items[i]),
        forall|j: int| 0 <= j < i ==> items[j] != items[i],
    ensures
        unseen(seen, items).len() > unseen(seen, items.take(i)).len(),
        unseen(seen, items)[unseen(seen, items.take(i)).len() as int] == items[i],
    decreases items.len(),
{
    let before = unseen(seen, items.take(i));
    if i == items.len() - 1 {
        assert(items.drop_last() =~= items.take(i));
        lemma_unseen_members(seen, items.take(i));
        if before.contains(items[i]) {
            let k = choose|k: int| 0 <= k < items.take(i).len() && items.take(i)[k] == items[i];
            assert(items[k] == items[i]);
        }
    } else {
        assert(items.drop_last().take(i) =~= items.take(i));
        lemma_unseen_in_order(seen, items.drop_last(), i);
    }
}

/// No peer is lost, invented or told twice: what an answer emits is exactly the peers of the
/// answer that were not seen before, in the order in which the answer names them, and all peers
/// of the answer have been seen from then on.
pub proof fn every_new_peer_is_told_once(m: LookupModel, r: ReplyModel)
    requires
        each_once(m.peers_seen),
    ensures
        ({
            let (after, step) = advanced(m, r);
            &&& forall|p: SocketAddr| #[trigger]
                step.peers.contains(p) <==> r.peers.contains(p) && !m.peers_seen.contains(p)
            &&& forall|p: SocketAddr| #[trigger]
                after.peers_seen.contains(p) <==> m.peers_seen.contains(p) || r.peers.contains(p)
            &&& each_once(step.peers)
            &&& forall|i: int, j: int|
                0 <= i < j < r.peers.len() && !m.peers_seen.contains(#[trigger] r.peers[i])
                    && !m.peers_seen.contains(#[trigger] r.peers[j]) && (forall|k: int|
                    0 <= k < i ==> r.peers[k] != r.peers[i]) && (forall|k: int|
                    0 <= k < j ==> r.peers[k] != r.peers[j]) ==> exists|a: int, b: int|
                    0 <= a < b < step.peers.len() && #[trigger] step.peers[a] == r.peers[i]
                        && #[trigger] step.peers[b] == r.peers[j]
        }),
{
    let (after, step) = advanced(m, r);
    lemma_unseen_members(m.peers_seen, r.peers);
    lemma_unseen(m.peers_seen, r.peers);
    let both = m.peers_seen + step.peers;
    assert forall|p: SocketAddr| #[trigger] after.peers_seen.contains(p) <==> m.peers_seen.contains(
        p,
    ) || r.peers.contains(p) by {
        lemma_contains_sum(m.peers_seen, step.peers, p);
    }
    assert forall|i: int, j: int| 0 <= i < j < step.peers.len() implies #[trigger] step.peers[i]
        != #[trigger] step.peers[j] by {
        assert(both[m.peers_seen.len() + i] != both[m.peers_seen.len() + j]);
    }
    assert forall|i: int, j: int|
        0 <= i < j < r.peers.len() && !m.peers_seen.contains(#[trigger] r.peers[i])
            && !m.peers_seen.contains(#[trigger] r.peers[j]) && (forall|k: int|
            0 <= k < i ==> r.peers[k] != r.peers[i]) && (forall|k: int|
            0 <= k < j ==> r.peers[k] != r.peers[j]) implies exists|a: int, b: int|
        0 <= a < b < step.peers.len() && #[trigger] step.peers[a] == r.peers[i]
            && #[trigger] step.peers[b] == r.peers[j] by {
        lemma_unseen_in_order(m.peers_seen, r.peers, i);
        lemma_unseen_in_order(m.peers_seen, r.peers, j);
        let a = unseen(m.peers_seen, r.peers.take(i)).len() as int;
        let b = unseen(m.peers_seen, r.peers.take(j)).len() as int;
        lemma_unseen_grows(m.peers_seen, r.peers, i, j);
        if a == b {
            assert(r.peers[i] == r.peers[j]);
        }
        assert(step.peers[a] == r.peers[i] && step.peers[b] == r.peers[j]);
    }
}

proof fn lemma_unseen_grows<T>(seen: Seq<T>, items: Seq<T>, i: int, j: int)
    requires
        0 <= i <= j <= items.len(),
    ensures
        unseen(seen, items.take(i)).len() <= unseen(seen, items.take(j)).len(),
    decreases j - i,
{
    if i < j {
        assert(items.take(j).drop_last() =~= items.take(j - 1));
        lemma_unseen_grows(seen, items, i, j - 1);
    }
}

proof fn lemma_told_of(nodes: Seq<(Id20, SocketAddr)>, x: (Id20, SocketAddr, bool))
    ensures
        told_of(nodes).contains(x) <==> !x.2 && nodes.contains((x.0, x.1)) && public_endpoint(x.1),
    decreases nodes.len(),
{
    if nodes.len() > 0 {
        lemma_told_of(nodes.drop_last(), x);
        let (id, addr) = nodes.last();
        assert(nodes.drop_last().push(nodes.last()) =~= nodes);
        lemma_contains_push(nodes.drop_last(), nodes.last(), (x.0, x.1));
        lemma_contains_push(told_of(nodes.drop_last()), (id, addr, false), x);
    }
}

/// Every public node that an answer tells of goes to the table, as one that has not answered; the
/// answering node goes there as one that has, where it told its name from a public address.
/// Nothing else does.
pub proof fn told_nodes_reach_the_table(m: LookupModel, r: ReplyModel)
    ensures
        forall|id: Id20, addr: SocketAddr| #[trigger]
            advanced(m, r).1.routes.contains((id, addr, false)) <==> r.nodes.contains((id, addr))
                && public_endpoint(addr),
        forall|id: Id20, addr: SocketAddr| #[trigger]
            advanced(m, r).1.routes.contains((id, addr, true)) <==> r.responder_id == Some(id)
                && r.from == TargetModel::Addr(addr) && public_endpoint(addr),
{
    let all = advanced(m, r).1.routes;
    let own = answering_route(r);
    assert forall|x: (Id20, SocketAddr, bool)| #[trigger]
        all.contains(x) <==> (x.2 && r.responder_id == Some(x.0) && r.from == TargetModel::Addr(x.1)
            && public_endpoint(x.1)) || (!x.2 && r.nodes.contains((x.0, x.1)) && public_endpoint(
            x.1,
        )) by {
        lemma_told_of(r.nodes, x);
        lemma_contains_sum(own, told_of(r.nodes), x);
        if own.len() == 1 {
            assert(own.contains(x) <==> own[0] == x) by {
                if own[0] == x {
                    assert(own.contains(own[0]));
                }
            }
        }
    }
}

/// True when a key and a target come from what an answer says of the nodes around it.
pub open spec fn names_node(
    r: ReplyModel,
    hash: Id20,
    key: Seq<u8>,
    target: TargetModel,
) -> bool {
    exists|i: int|
        0 <= i < r.nodes.len() && public_endpoint((#[trigger] r.nodes[i]).1) && key == xor_bytes(
            r.nodes[i].0@,
            hash@,
        ) && target == TargetModel::Addr(r.nodes[i].1)
}

/// True when some item stands under the key.
pub open spec fn holds_key<V>(list: Seq<(Seq<u8>, V)>, key: Seq<u8>) -> bool {
    exists|i: int| 0 <= i < list.len() && (#[trigger] list[i]).0 == key
}

proof fn lemma_merged_members(
    shortlist: Seq<(Seq<u8>, TargetModel)>,
    nodes: Seq<(Id20, SocketAddr)>,
    hash: Id20,
)
    requires
        ranked(shortlist),
    ensures
        forall|e: (Seq<u8>, TargetModel)| #[trigger]
            shortlist.contains(e) ==> merged(shortlist, nodes, hash).0.contains(e),
        forall|i: int|
            0 <= i < nodes.len() && public_endpoint((#[trigger] nodes[i]).1) ==> holds_key(
                merged(shortlist, nodes, hash).0,
                xor_bytes(nodes[i].0@, hash@),
            ),
        forall|e: (Seq<u8>, TargetModel)| #[trigger]
            merged(shortlist, nodes, hash).0.contains(e) && !shortlist.contains(e) ==> exists|i: int|
                0 <= i < nodes.len() && public_endpoint((#[trigger] nodes[i]).1) && e.0
                    == xor_bytes(nodes[i].0@, hash@) && e.1 == TargetModel::Addr(nodes[i].1),
        merged(shortlist, nodes, hash).1 <==> merged(shortlist, nodes, hash).0 != shortlist,
        merged(shortlist, nodes, hash).0.len() >= shortlist.len(),
    decreases nodes.len(),
{
    if nodes.len() > 0 {
        let rest = nodes.drop_last();
        lemma_merged_members(shortlist, rest, hash);
        lemma_merged(shortlist, rest, hash);
        let front = merged(shortlist, rest, hash).0;
        let out = merged(shortlist, nodes, hash).0;
        let (id, addr) = nodes.last();
        let key = xor_bytes(id@, hash@);
        let value = TargetModel::Addr(addr);
        let added = public_endpoint(addr) && !ranked_has(front, key);
        crate::ranked::ranked_has_its_keys(front, key);
        crate::ranked::ranked_put_members(front, key, value);
        crate::ranked::lemma_rank(front, key);
        assert forall|e: (Seq<u8>, TargetModel)| #[trigger] shortlist.contains(e) implies out.contains(
            e,
        ) by {
            assert(front.contains(e));
            let k = choose|k: int| 0 <= k < front.len() && front[k] == e;
            assert(front[k].0 == e.0);
            if added {
                assert(e.0 != key);
                assert(out.contains((e.0, e.1)));
            }
        }
        assert forall|i: int| 0 <= i < nodes.len() && public_endpoint(
            (#[trigger] nodes[i]).1,
        ) implies holds_key(out, xor_bytes(nodes[i].0@, hash@)) by {
            let k = xor_bytes(nodes[i].0@, hash@);
            if i < rest.len() {
                assert(rest[i] == nodes[i]);
                assert(holds_key(front, k));
                let a = choose|a: int| 0 <= a < front.len() && (#[trigger] front[a]).0 == k;
                assert(front.contains(front[a]));
                if added {
                    assert(k != key);
                    assert(out.contains((front[a].0, front[a].1)));
                    let b = choose|b: int| 0 <= b < out.len() && out[b] == front[a];
                    assert(out[b].0 == k);
                }
            } else if added {
                assert(out.contains((key, value)));
                let b = choose|b: int| 0 <= b < out.len() && out[b] == (key, value);
                assert(out[b].0 == k);
            }
        }
        assert forall|e: (Seq<u8>, TargetModel)| #[trigger] out.contains(e)
            && !shortlist.contains(e) implies exists|i: int|
            0 <= i < nodes.len() && public_endpoint((#[trigger] nodes[i]).1) && e.0 == xor_bytes(
                nodes[i].0@,
                hash@,
            ) && e.1 == TargetModel::Addr(nodes[i].1) by {
            if added && e.0 == key {
                assert(out.contains((e.0, e.1)));
                assert(nodes[nodes.len() - 1] == nodes.last());
            } else {
                if added {
                    assert(out.contains((e.0, e.1)));
                }
                assert(front.contains(e));
                let i = choose|i: int|
                    0 <= i < rest.len() && public_endpoint((#[trigger] rest[i]).1) && e.0
                        == xor_bytes(rest[i].0@, hash@) && e.1 == TargetModel::Addr(rest[i].1);
                assert(nodes[i] == rest[i]);
            }
        }
        if added {
            assert(out.len() == front.len() + 1);
        }
    }
}

proof fn lemma_nearest_stay<V>(list: Seq<(Seq<u8>, V)>, n: nat, key: Seq<u8>)
    requires
        ranked(list),
        holds_key(list, key),
    ensures
        holds_key(at_most(list, n), key) || (at_most(list, n).len() == n && forall|i: int|
            0 <= i < at_most(list, n).len() ==> lex_less((#[trigger] at_most(list, n)[i]).0, key)),
{
    let k = choose|k: int| 0 <= k < list.len() && (#[trigger] list[k]).0 == key;
    let short = at_most(list, n);
    if k < short.len() {
        assert(short[k].0 == key);
    } else {
        assert forall|i: int| 0 <= i < short.len() implies lex_less((#[trigger] short[i]).0, key) by {
            assert(short[i] == list[i]);
            assert(lex_less(list[i].0, list[k].0));
        }
    }
}

/// The shortlist holds the nearest nodes that a search has heard of, by their distance from what
/// is searched for: of those that were on it, the answering node and the public nodes that the
/// answer tells of, one is missing only where 32 nearer ones stand there, and nobody else is on
/// it.
pub proof fn the_nearest_are_listed(m: LookupModel, r: ReplyModel)
    requires
        orderly(m),
    ensures
        ({
            let list = advanced(m, r).0.shortlist;
            let own = xor_bytes(answering_id(r)@, m.info_hash@);
            &&& ranked(list) && list.len() <= 32
            &&& forall|key: Seq<u8>|
                (holds_key(m.shortlist, key) || (answer_is_public(r) && key == own) || (exists|
                    i: int,
                |
                    0 <= i < r.nodes.len() && public_endpoint((#[trigger] r.nodes[i]).1) && key
                        == xor_bytes(r.nodes[i].0@, m.info_hash@))) ==> #[trigger] holds_key(
                    list,
                    key,
                ) || (list.len() == 32 && forall|i: int|
                    0 <= i < list.len() ==> lex_less((#[trigger] list[i]).0, key))
            &&& forall|key: Seq<u8>, target: TargetModel| #[trigger]
                list.contains((key, target)) ==> m.shortlist.contains((key, target)) || (
                answer_is_public(r) && key == own && target == r.from) || names_node(
                    r,
                    m.info_hash,
                    key,
                    target,
                )
        }),
{
    let own = xor_bytes(answering_id(r)@, m.info_hash@);
    let started = if answer_is_public(r) {
        ranked_put(m.shortlist, own, r.from)
    } else {
        m.shortlist
    };
    ranked_put_keeps_order(m.shortlist, own, r.from);
    crate::ranked::ranked_put_members(m.shortlist, own, r.from);
    lemma_merged(started, r.nodes, m.info_hash);
    lemma_merged_members(started, r.nodes, m.info_hash);
    let whole = merged(started, r.nodes, m.info_hash).0;
    let list = advanced(m, r).0.shortlist;
    lemma_at_most_ranked(whole, 32);
    assert forall|key: Seq<u8>|
        (holds_key(m.shortlist, key) || (answer_is_public(r) && key == own) || (exists|i: int|
            0 <= i < r.nodes.len() && public_endpoint((#[trigger] r.nodes[i]).1) && key
                == xor_bytes(r.nodes[i].0@, m.info_hash@))) implies #[trigger] holds_key(list, key)
        || (list.len() == 32 && forall|i: int|
        0 <= i < list.len() ==> lex_less((#[trigger] list[i]).0, key)) by {
        if answer_is_public(r) && key == own {
            assert(started.contains((key, r.from)));
            assert(whole.contains((key, r.from)));
            let k = choose|k: int| 0 <= k < whole.len() && whole[k] == (key, r.from);
            assert(whole[k].0 == key);
        } else if holds_key(m.shortlist, key) {
            let k = choose|k: int| 0 <= k < m.shortlist.len() && (#[trigger] m.shortlist[k]).0
                == key;
            let e = m.shortlist[k];
            assert(m.shortlist.contains((e.0, e.1)));
            assert(started.contains((e.0, e.1)));
            assert(whole.contains(e));
            let j = choose|j: int| 0 <= j < whole.len() && whole[j] == e;
            assert(whole[j].0 == key);
        } else {
            let i = choose|i: int|
                0 <= i < r.nodes.len() && public_endpoint((#[trigger] r.nodes[i]).1) && key
                    == xor_bytes(r.nodes[i].0@, m.info_hash@);
            assert(public_endpoint(r.nodes[i].1));
        }
        lemma_nearest_stay(whole, 32, key);
    }
    assert forall|key: Seq<u8>, target: TargetModel| #[trigger]
        list.contains((key, target)) implies m.shortlist.contains((key, target)) || (
    answer_is_public(r) && key == own && target == r.from) || names_node(
        r,
        m.info_hash,
        key,
        target,
    ) by {
        let e = (key, target);
        let k = choose|k: int| 0 <= k < list.len() && list[k] == e;
        assert(whole[k] == e);
        assert(whole.contains(e));
        if started.contains(e) {
        } else {
            let i = choose|i: int|
                0 <= i < r.nodes.len() && public_endpoint((#[trigger] r.nodes[i]).1) && e.0
                    == xor_bytes(r.nodes[i].0@, m.info_hash@) && e.1 == TargetModel::Addr(
                    r.nodes[i].1,
                );
            assert(public_endpoint(r.nodes[i].1));
        }
    }
}

proof fn lemma_queries_are_next(
    list: Seq<(Seq<u8>, TargetModel)>,
    queried: Seq<TargetModel>,
    room: nat,
    i: int,
)
    requires
        0 <= i < list.len(),
        !queried.contains(list[i].1),
    ensures
        ({
            let out = next_queries(list, queried, room);
            out.contains(list[i].1) || (out.len() == room && forall|q: TargetModel| #[trigger]
                out.contains(q) ==> exists|j: int| 0 <= j < i && (#[trigger] list[j]).1 == q)
        }),
    decreases list.len(),
{
    let out = next_queries(list, queried, room);
    if room > 0 {
        let rest = list.drop_first();
        let first = list[0].1;
        if queried.contains(first) {
            assert(rest[i - 1] == list[i]);
            lemma_queries_are_next(rest, queried, room, i - 1);
            if !out.contains(list[i].1) {
                assert forall|q: TargetModel| #[trigger] out.contains(q) implies exists|j: int|
                    0 <= j < i && (#[trigger] list[j]).1 == q by {
                    let j = choose|j: int| 0 <= j < i - 1 && (#[trigger] rest[j]).1 == q;
                    assert(list[j + 1].1 == q);
                }
            }
        } else {
            let more = next_queries(rest, queried.push(first), (room - 1) as nat);
            assert(out == seq![first] + more);
            assert(out[0] == first);
            if list[i].1 == first {
                assert(out.contains(first));
            } else {
                assert(rest[i - 1] == list[i]);
                lemma_contains_push(queried, first, list[i].1);
                lemma_queries_are_next(rest, queried.push(first), (room - 1) as nat, i - 1);
                lemma_contains_sum(seq![first], more, list[i].1);
                if !out.contains(list[i].1) {
                    assert forall|q: TargetModel| #[trigger] out.contains(q) implies exists|j: int|
                        0 <= j < i && (#[trigger] list[j]).1 == q by {
                        lemma_contains_sum(seq![first], more, q);
                        if more.contains(q) {
                            let j = choose|j: int| 0 <= j < i - 1 && (#[trigger] rest[j]).1 == q;
                            assert(list[j + 1].1 == q);
                        } else {
                            assert(seq![first].contains(q));
                            assert(list[0].1 == q);
                        }
                    }
                }
            }
        }
    }
}

proof fn lemma_queries_are_listed(
    list: Seq<(Seq<u8>, TargetModel)>,
    queried: Seq<TargetModel>,
    room: nat,
    q: TargetModel,
)
    requires
        next_queries(list, queried, room).contains(q),
    ensures
        !queried.contains(q),
        exists|j: int| 0 <= j < list.len() && (#[trigger] list[j]).1 == q,
    decreases list.len(),
{
    let out = next_queries(list, queried, room);
    if list.len() > 0 && room > 0 {
        let rest = list.drop_first();
        let first = list[0].1;
        if queried.contains(first) {
            lemma_queries_are_listed(rest, queried, room, q);
            let j = choose|j: int| 0 <= j < rest.len() && (#[trigger] rest[j]).1 == q;
            assert(list[j + 1].1 == q);
        } else {
            let more = next_queries(rest, queried.push(first), (room - 1) as nat);
            lemma_contains_sum(seq![first], more, q);
            if more.contains(q) {
                lemma_queries_are_listed(rest, queried.push(first), (room - 1) as nat, q);
                lemma_contains_push(queried, first, q);
                let j = choose|j: int| 0 <= j < rest.len() && (#[trigger] rest[j]).1 == q;
                assert(list[j + 1].1 == q);
            } else {
                assert(seq![first].contains(q));
                assert(list[0].1 == q);
            }
        }
    }
}

proof fn lemma_nothing_new(
    shortlist: Seq<(Seq<u8>, TargetModel)>,
    nodes: Seq<(Id20, SocketAddr)>,
    hash: Id20,
)
    requires
        ranked(shortlist),
        forall|i: int|
            0 <= i < nodes.len() && public_endpoint((#[trigger] nodes[i]).1) ==> holds_key(
                shortlist,
                xor_bytes(nodes[i].0@, hash@),
            ),
    ensures
        merged(shortlist, nodes, hash) == (shortlist, false),
    decreases nodes.len(),
{
    if nodes.len() > 0 {
        let rest = nodes.drop_last();
        assert forall|i: int| 0 <= i < rest.len() && public_endpoint(
            (#[trigger] rest[i]).1,
        ) implies holds_key(shortlist, xor_bytes(rest[i].0@, hash@)) by {
            assert(rest[i] == nodes[i]);
        }
        lemma_nothing_new(shortlist, rest, hash);
        let last = nodes[nodes.len() - 1];
        crate::ranked::ranked_has_its_keys(shortlist, xor_bytes(last.0@, hash@));
        if public_endpoint(last.1) {
            assert(holds_key(shortlist, xor_bytes(last.0@, hash@)));
        }
    }
}

/// True when an answer tells of a public node that is neither on a list nor the answering node.
pub open spec fn tells_of_another(m: LookupModel, r: ReplyModel) -> bool {
    exists|i: int|
        0 <= i < r.nodes.len() && public_endpoint((#[trigger] r.nodes[i]).1) && !holds_key(
            m.shortlist,
            xor_bytes(r.nodes[i].0@, m.info_hash@),
        ) && !(answer_is_public(r) && xor_bytes(r.nodes[i].0@, m.info_hash@) == xor_bytes(
            answering_id(r)@,
            m.info_hash@,
        ))
}

/// An answer counts as fruitless exactly where it brings neither a new peer nor a node that the
/// search had not heard of; any other starts the count anew.
pub proof fn fruitless_answers_are_counted(m: LookupModel, r: ReplyModel)
    requires
        orderly(m),
    ensures
        advanced(m, r).1.peers.len() > 0 || tells_of_another(m, r) ==> advanced(m, r).0.idle == 0,
        advanced(m, r).1.peers.len() == 0 && !tells_of_another(m, r) ==> advanced(m, r).0.idle == (
        if m.idle > 20 {
            m.idle
        } else {
            m.idle + 1
        }),
{
    let own = xor_bytes(answering_id(r)@, m.info_hash@);
    let started = if answer_is_public(r) {
        ranked_put(m.shortlist, own, r.from)
    } else {
        m.shortlist
    };
    ranked_put_keeps_order(m.shortlist, own, r.from);
    crate::ranked::ranked_put_members(m.shortlist, own, r.from);
    lemma_merged_members(started, r.nodes, m.info_hash);
    assert forall|key: Seq<u8>| #[trigger]
        holds_key(started, key) <==> holds_key(m.shortlist, key) || (answer_is_public(r) && key
            == own) by {
        if holds_key(m.shortlist, key) {
            let k = choose|k: int| 0 <= k < m.shortlist.len() && (#[trigger] m.shortlist[k]).0
                == key;
            let e = m.shortlist[k];
            assert(m.shortlist.contains((e.0, e.1)));
            if !(answer_is_public(r) && key == own) {
                assert(started.contains((e.0, e.1)));
                let j = choose|j: int| 0 <= j < started.len() && started[j] == e;
                assert(started[j].0 == key);
            }
        }
        if answer_is_public(r) && key == own {
            assert(started.contains((own, r.from)));
            let j = choose|j: int| 0 <= j < started.len() && started[j] == (own, r.from);
            assert(started[j].0 == key);
        }
        if holds_key(started, key) {
            let j = choose|j: int| 0 <= j < started.len() && (#[trigger] started[j]).0 == key;
            let e = started[j];
            assert(started.contains((e.0, e.1)));
            if !(answer_is_public(r) && key == own) {
                assert(m.shortlist.contains((e.0, e.1)));
                let k = choose|k: int| 0 <= k < m.shortlist.len() && m.shortlist[k] == e;
                assert(m.shortlist[k].0 == key);
            }
        }
    }
    if tells_of_another(m, r) {
        let i = choose|i: int|
            0 <= i < r.nodes.len() && public_endpoint((#[trigger] r.nodes[i]).1) && !holds_key(
                m.shortlist,
                xor_bytes(r.nodes[i].0@, m.info_hash@),
            ) && !(answer_is_public(r) && xor_bytes(r.nodes[i].0@, m.info_hash@) == own);
        let key = xor_bytes(r.nodes[i].0@, m.info_hash@);
        assert(!holds_key(started, key));
        assert(holds_key(merged(started, r.nodes, m.info_hash).0, key));
    } else {
        assert forall|i: int| 0 <= i < r.nodes.len() && public_endpoint(
            (#[trigger] r.nodes[i]).1,
        ) implies holds_key(started, xor_bytes(r.nodes[i].0@, m.info_hash@)) by {}
        lemma_nothing_new(started, r.nodes, m.info_hash);
    }
}

/// After each answer the nearest nodes that have not been asked are asked: up to three of the
/// sixteen nearest, none of them for the second time, and one of the sixteen stays unasked only
/// where three nearer ones are asked instead. A search ends when nothing is outstanding, or when
/// more than twenty answers in a row brought nothing new and at least forty peers are known.
pub proof fn the_nearest_are_asked(m: LookupModel, r: ReplyModel)
    requires
        orderly(m),
        m.outstanding > 0,
    ensures
        ({
            let (after, step) = advanced(m, r);
            let list = after.shortlist;
            &&& step.queries.len() <= 3
            &&& forall|q: TargetModel| #[trigger]
                step.queries.contains(q) ==> !m.queried.contains(q) && exists|j: int|
                    0 <= j < list.len() && j < 16 && (#[trigger] list[j]).1 == q
            &&& forall|i: int|
                0 <= i < list.len() && i < 16 && !m.queried.contains((#[trigger] list[i]).1)
                    ==> step.queries.contains(list[i].1) || (step.queries.len() == 3 && forall|
                    q: TargetModel,
                | #[trigger]
                    step.queries.contains(q) ==> exists|j: int|
                        0 <= j < i && (#[trigger] list[j]).1 == q)
            &&& after.queried == m.queried + step.queries
            &&& after.outstanding == m.outstanding - 1 + step.queries.len()
            &&& step.peers.len() > 0 ==> after.idle == 0
            &&& after.idle > m.idle ==> after.idle == m.idle + 1 && step.peers.len() == 0
            &&& step.finished <==> after.outstanding == 0 || (after.idle > 20
                && after.peers_seen.len() >= 40)
        }),
{
    let (after, step) = advanced(m, r);
    let list = after.shortlist;
    let near = at_most(list, 16);
    searches_stay_orderly(m, r);
    assert forall|q: TargetModel| #[trigger] step.queries.contains(q) implies !m.queried.contains(q)
        && exists|j: int| 0 <= j < list.len() && j < 16 && (#[trigger] list[j]).1 == q by {
        lemma_queries_are_listed(near, m.queried, 3, q);
        let j = choose|j: int| 0 <= j < near.len() && (#[trigger] near[j]).1 == q;
        assert(list[j].1 == q);
    }
    assert forall|i: int|
        0 <= i < list.len() && i < 16 && !m.queried.contains(
            (#[trigger] list[i]).1,
        ) implies step.queries.contains(list[i].1) || (step.queries.len() == 3 && forall|
        q: TargetModel,
    | #[trigger]
        step.queries.contains(q) ==> exists|j: int| 0 <= j < i && (#[trigger] list[j]).1 == q) by {
        assert(near[i] == list[i]);
        lemma_queries_are_next(near, m.queried, 3, i);
        if !step.queries.contains(list[i].1) {
            assert forall|q: TargetModel| #[trigger] step.queries.contains(q) implies exists|j: int|
                0 <= j < i && (#[trigger] list[j]).1 == q by {
                let j = choose|j: int| 0 <= j < i && (#[trigger] near[j]).1 == q;
                assert(list[j].1 == q);
            }
        }
    }
}

/// The nearest public nodes that gave us a token are kept to announce ourselves to, each with the
/// token that it gave last: one is missing only where sixteen nearer ones are kept.
pub proof fn token_holders_are_kept(m: LookupModel, r: ReplyModel)
    requires
        orderly(m),
    ensures
        ({
            let list = advanced(m, r).0.announce;
            let own = xor_bytes(answering_id(r)@, m.info_hash@);
            &&& ranked(list) && list.len() <= 16
            &&& r.token matches Some(token) ==> (answer_is_public(r) ==> list.contains(
                (own, (r.from, token)),
            ) || (list.len() == 16 && forall|i: int|
                0 <= i < list.len() ==> lex_less((#[trigger] list[i]).0, own)))
            &&& forall|key: Seq<u8>, to: (TargetModel, Seq<u8>)|
                m.announce.contains((key, to)) && key != own ==> #[trigger] list.contains(
                    (key, to),
                ) || (list.len() == 16 && forall|i: int|
                    0 <= i < list.len() ==> lex_less((#[trigger] list[i]).0, key))
            &&& forall|key: Seq<u8>, to: (TargetModel, Seq<u8>)| #[trigger]
                list.contains((key, to)) ==> m.announce.contains((key, to)) || (answer_is_public(r)
                    && key == own && to.0 == r.from && r.token == Some(to.1))
            &&& !answer_is_public(r) || r.token is None ==> list == m.announce
        }),
{
    let own = xor_bytes(answering_id(r)@, m.info_hash@);
    let list = advanced(m, r).0.announce;
    if let Some(token) = r.token {
        if answer_is_public(r) {
            let whole = ranked_put(m.announce, own, (r.from, token));
            ranked_put_keeps_order(m.announce, own, (r.from, token));
            crate::ranked::ranked_put_members(m.announce, own, (r.from, token));
            lemma_at_most_ranked(whole, 16);
            assert forall|key: Seq<u8>, to: (TargetModel, Seq<u8>)| #[trigger]
                whole.contains((key, to)) implies list.contains((key, to)) || (list.len() == 16
                && forall|i: int|
                0 <= i < list.len() ==> lex_less((#[trigger] list[i]).0, key)) by {
                let k = choose|k: int| 0 <= k < whole.len() && whole[k] == (key, to);
                if k < list.len() {
                    assert(list[k] == (key, to));
                } else {
                    assert forall|i: int| 0 <= i < list.len() implies lex_less(
                        (#[trigger] list[i]).0,
                        key,
                    ) by {
                        assert(list[i] == whole[i]);
                        assert(lex_less(whole[i].0, whole[k].0));
                    }
                }
            }
            assert(whole.contains((own, (r.from, token))));
            assert forall|key: Seq<u8>, to: (TargetModel, Seq<u8>)|
                m.announce.contains((key, to)) && key != own implies #[trigger] list.contains(
                (key, to),
            ) || (list.len() == 16 && forall|i: int|
                0 <= i < list.len() ==> lex_less((#[trigger] list[i]).0, key)) by {
                assert(whole.contains((key, to)));
            }
            assert forall|key: Seq<u8>, to: (TargetModel, Seq<u8>)| #[trigger]
                list.contains((key, to)) implies m.announce.contains((key, to)) || (
            answer_is_public(r) && key == own && to.0 == r.from && r.token == Some(to.1)) by {
                let k = choose|k: int| 0 <= k < list.len() && list[k] == (key, to);
                assert(whole[k] == (key, to));
                assert(whole.contains((key, to)));
            }
        }
    }
}

proof fn lemma_first_of_each_members<T>(s: Seq<T>, x: T)
    ensures
        first_of_each(s).contains(x) <==> s.contains(x),
    decreases s.len(),
{
    if s.len() > 0 {
        lemma_first_of_each_members(s.drop_last(), x);
        lemma_contains_push(s.drop_last(), s.last(), x);
        lemma_contains_push(first_of_each(s.drop_last()), s.last(), x);
        assert(s.drop_last().push(s.last()) =~= s);
    }
}

/// A search starts at every contact and host that it is given, each once, as far as fifty go: all
/// of them where they are no more than fifty.
pub proof fn searches_start_everywhere(known: Seq<SocketAddr>, hosts: Seq<TargetModel>)
    ensures
        seeds(known, hosts).len() <= 50,
        each_once(seeds(known, hosts)),
        forall|t: TargetModel| #[trigger]
            seeds(known, hosts).contains(t) ==> hosts.contains(t) || exists|i: int|
                0 <= i < known.len() && t == TargetModel::Addr(#[trigger] known[i]),
        forall|i: int|
            0 <= i < known.len() ==> seeds(known, hosts).contains(
                TargetModel::Addr(#[trigger] known[i]),
            ) || seeds(known, hosts).len() == 50,
        forall|i: int|
            0 <= i < hosts.len() ==> seeds(known, hosts).contains(#[trigger] hosts[i]) || seeds(
                known,
                hosts,
            ).len() == 50,
{
    let own = Seq::new(known.len(), |i: int| TargetModel::Addr(known[i]));
    let all = own + hosts;
    let each = first_of_each(all);
    let out = seeds(known, hosts);
    lemma_first_of_each(all);
    assert forall|t: TargetModel| #[trigger] out.contains(t) implies hosts.contains(t) || exists|
        i: int,
    |
        0 <= i < known.len() && t == TargetModel::Addr(#[trigger] known[i]) by {
        let k = choose|k: int| 0 <= k < out.len() && out[k] == t;
        assert(each[k] == t);
        lemma_first_of_each_members(all, t);
        lemma_contains_sum(own, hosts, t);
        if own.contains(t) {
            let i = choose|i: int| 0 <= i < own.len() && own[i] == t;
            assert(t == TargetModel::Addr(known[i]));
        }
    }
    assert forall|i: int| 0 <= i < known.len() implies out.contains(
        TargetModel::Addr(#[trigger] known[i]),
    ) || out.len() == 50 by {
        assert(all[i] == TargetModel::Addr(known[i]));
        lemma_first_of_each_members(all, all[i]);
    }
    assert forall|i: int| 0 <= i < hosts.len() implies out.contains(#[trigger] hosts[i])
        || out.len() == 50 by {
        assert(all[known.len() + i] == hosts[i]);
        lemma_first_of_each_members(all, hosts[i]);
    }
}

/// The mathematical values of targets.
pub open spec fn target_views(s: Seq<DhtTarget>) -> Seq<TargetModel> {
    Seq::new(s.len(), |i: int| s[i]@)
}

/// True when the target stands in the list.
pub fn has_target(list: &Vec<DhtTarget>, target: &DhtTarget) -> (r: bool)
    ensures
        r == target_views(list@).contains(target@),
{
    let mut i: usize = 0;
    while i < list.len()
        invariant
            i <= list.len(),
            forall|j: int| 0 <= j < i ==> target_views(list@)[j] != target@,
        decreases list.len() - i,
    {
        if same_target(&list[i], target) {
            assert(target_views(list@)[i as int] == target@);
            return true;
        }
        i += 1;
    }
    false
}

fn has_peer(list: &Vec<SocketAddr>, addr: &SocketAddr) -> (r: bool)
    ensures
        r == list@.contains(*addr),
{
    let mut i: usize = 0;
    while i < list.len()
        invariant
            i <= list.len(),
            forall|j: int| 0 <= j < i ==> list@[j] != *addr,
        decreases list.len() - i,
    {
        if list[i] == *addr {
            return true;
        }
        i += 1;
    }
    false
}

/// A node that gave us a token.
#[derive(Debug)]
pub struct AnnounceTarget {
    pub target: DhtTarget,
    pub token: Vec<u8>,
}

impl View for AnnounceTarget {
    type V = (TargetModel, Seq<u8>);

    open spec fn view(&self) -> (TargetModel, Seq<u8>) {
        (self.target@, self.token@)
    }
}

/// A search for the peers of a torrent.
#[derive(Debug)]
pub struct Lookup {
    info_hash: Id20,
    shortlist: Vec<(Id20, DhtTarget)>,
    queried: Vec<DhtTarget>,
    peers_seen: Vec<SocketAddr>,
    announce_targets: Vec<(Id20, AnnounceTarget)>,
    idle: usize,
    outstanding: usize,
}

/// An answer to one of the questions.
#[derive(Debug)]
pub struct GetPeersReply {
    pub from: DhtTarget,
    pub body: GetPeersResponseBody,
}

impl View for GetPeersReply {
    type V = ReplyModel;

    open spec fn view(&self) -> ReplyModel {
        ReplyModel {
            from: self.from@,
            responder_id: self.body.responder_id,
            peers: self.body.peers@,
            nodes: self.body.nodes@,
            token: match self.body.token {
                Some(t) => Some(t@),
                None => None,
            },
        }
    }
}

/// What an answer leads to.
#[derive(Debug)]
pub struct LookupStep {
    pub peers: Vec<SocketAddr>,
    pub routes: Vec<(Id20, SocketAddr, bool)>,
    pub queries: Vec<DhtTarget>,
    pub finished: bool,
}

impl View for LookupStep {
    type V = StepModel;

    open spec fn view(&self) -> StepModel {
        StepModel {
            peers: self.peers@,
            routes: self.routes@,
            queries: target_views(self.queries@),
            finished: self.finished,
        }
    }
}

impl View for Lookup {
    type V = LookupModel;

    closed spec fn view(&self) -> LookupModel {
        LookupModel {
            info_hash: self.info_hash,
            shortlist: ranking(self.shortlist@),
            queried: target_views(self.queried@),
            peers_seen: self.peers_seen@,
            announce: ranking(self.announce_targets@),
            idle: self.idle as nat,
            outstanding: self.outstanding as nat,
        }
    }
}

fn copy_targets(list: &Vec<DhtTarget>) -> (r: Vec<DhtTarget>)
    ensures
        target_views(r@) == target_views(list@),
{
    let mut out: Vec<DhtTarget> = Vec::new();
    let mut i: usize = 0;
    while i < list.len()
        invariant
            i <= list.len(),
            target_views(out@) == target_views(list@).take(i as int),
        decreases list.len() - i,
    {
        let ghost before = out@;
        let target = list[i].clone();
        out.push(target);
        assert(target_views(out@) =~= target_views(before).push(target@));
        assert(target_views(out@) =~= target_views(list@).take(i + 1));
        i += 1;
    }
    assert(target_views(out@) =~= target_views(list@));
    out
}

fn seed_targets(known: &Vec<SocketAddr>, hosts: &Vec<DhtTarget>) -> (r: Vec<DhtTarget>)
    ensures
        target_views(r@) == seeds(known@, target_views(hosts@)),
        each_once(target_views(r@)),
{
    let ghost all = Seq::new(known@.len(), |i: int| TargetModel::Addr(known@[i])) + target_views(
        hosts@,
    );
    let mut out: Vec<DhtTarget> = Vec::new();
    let mut i: usize = 0;
    proof {
        assert(target_views(out@) =~= first_of_each(all.take(0)));
        lemma_first_of_each(all);
    }
    while i < known.len()
        invariant
            i <= known.len(),
            all == Seq::new(known@.len(), |i: int| TargetModel::Addr(known@[i])) + target_views(
                hosts@,
            ),
            target_views(out@) == first_of_each(all.take(i as int)),
        decreases known.len() - i,
    {
        let target = DhtTarget::Addr(known[i]);
        let ghost before = out@;
        proof {
            assert(all.take(i + 1).drop_last() =~= all.take(i as int));
            assert(all.take(i + 1).last() == target@);
        }
        if !has_target(&out, &target) {
            out.push(target);
            assert(target_views(out@) =~= target_views(before).push(target@));
        }
        i += 1;
    }
    let mut k: usize = 0;
    while k < hosts.len()
        invariant
            k <= hosts.len(),
            all == Seq::new(known@.len(), |i: int| TargetModel::Addr(known@[i])) + target_views(
                hosts@,
            ),
            target_views(out@) == first_of_each(all.take(known@.len() + k)),
        decreases hosts.len() - k,
    {
        let target = hosts[k].clone();
        let ghost before = out@;
        proof {
            let n = known@.len() + k;
            assert(all.take(n + 1).drop_last() =~= all.take(n as int));
            assert(all.take(n + 1).last() == target@);
        }
        if !has_target(&out, &target) {
            out.push(target);
            assert(target_views(out@) =~= target_views(before).push(target@));
        }
        k += 1;
    }
    assert(all.take(known@.len() + k) =~= all);
    let ghost whole = out@;
    if out.len() > MAX_ROUND_QUERIES {
        out.truncate(MAX_ROUND_QUERIES);
    }
    assert(target_views(out@) =~= at_most(target_views(whole), 50));
    out
}

impl Lookup {
    /// True of every search.
    pub open spec fn wf(self) -> bool {
        orderly(self@)
    }

    /// Start a search at the nodes that are known and the hosts that introduce others; the second
    /// result names those that are to be asked.
    pub fn begin(info_hash: Id20, known: &Vec<SocketAddr>, hosts: &Vec<DhtTarget>) -> (r: (
        Self,
        Vec<DhtTarget>,
    ))
        ensures
            r.0.wf(),
            target_views(r.1@) == seeds(known@, target_views(hosts@)),
            r.0@ == (LookupModel {
                info_hash,
                shortlist: seq![],
                queried: seeds(known@, target_views(hosts@)),
                peers_seen: seq![],
                announce: seq![],
                idle: 0,
                outstanding: seeds(known@, target_views(hosts@)).len(),
            }),
    {
        let targets = seed_targets(known, hosts);
        let queried = copy_targets(&targets);
        let r = Lookup {
            info_hash,
            shortlist: Vec::new(),
            outstanding: queried.len(),
            queried,
            peers_seen: Vec::new(),
            announce_targets: Vec::new(),
            idle: 0,
        };
        proof {
            assert(r@.shortlist =~= seq![]);
            assert(r@.announce =~= seq![]);
            assert(r@.queried =~= seeds(known@, target_views(hosts@)));
        }
        (r, targets)
    }

    /// True when a question is outstanding.
    pub fn is_waiting(&self) -> (r: bool)
        ensures
            r == (self@.outstanding > 0),
    {
        self.outstanding > 0
    }

    /// A question stays without an answer.
    pub fn on_silence(&mut self) -> (r: LookupStep)
        requires
            old(self).wf(),
            old(self)@.outstanding > 0,
        ensures
            final(self).wf(),
            (final(self)@, r@) == unanswered(old(self)@),
    {
        self.outstanding = self.outstanding - 1;
        let r = LookupStep {
            peers: Vec::new(),
            routes: Vec::new(),
            queries: Vec::new(),
            finished: self.outstanding == 0,
        };
        assert(r@ =~= unanswered(old(self)@).1);
        r
    }

    fn take_peers(&mut self, peers: &Vec<SocketAddr>) -> (r: Vec<SocketAddr>)
        ensures
            r@ == unseen(old(self)@.peers_seen, peers@),
            final(self)@ == (LookupModel {
                peers_seen: old(self)@.peers_seen + r@,
                ..old(self)@
            }),
    {
        let ghost seen = self.peers_seen@;
        let mut out: Vec<SocketAddr> = Vec::new();
        let mut i: usize = 0;
        assert(unseen(seen, peers@.take(0)) =~= seq![]);
        assert(self.peers_seen@ =~= seen + out@);
        while i < peers.len()
            invariant
                i <= peers.len(),
                seen == old(self).peers_seen@,
                out@ == unseen(seen, peers@.take(i as int)),
                self.peers_seen@ == seen + out@,
                self@ == (LookupModel { peers_seen: seen + out@, ..old(self)@ }),
            decreases peers.len() - i,
        {
            let p = peers[i];
            let ghost before = out@;
            proof {
                assert(peers@.take(i + 1).drop_last() =~= peers@.take(i as int));
                lemma_contains_sum(seen, before, p);
            }
            if !has_peer(&self.peers_seen, &p) {
                self.peers_seen.push(p);
                out.push(p);
                assert(self.peers_seen@ =~= seen + out@);
            }
            i += 1;
        }
        assert(peers@.take(i as int) =~= peers@);
        out
    }

    fn merge_nodes(
        &mut self,
        nodes: &Vec<(Id20, SocketAddr)>,
        routes: &mut Vec<(Id20, SocketAddr, bool)>,
    ) -> (r: bool)
        ensures
            final(self)@ == (LookupModel {
                shortlist: merged(old(self)@.shortlist, nodes@, old(self)@.info_hash).0,
                ..old(self)@
            }),
            r == merged(old(self)@.shortlist, nodes@, old(self)@.info_hash).1,
            final(routes)@ == old(routes)@ + told_of(nodes@),
    {
        let ghost list = self@.shortlist;
        let ghost hash = self.info_hash;
        let mut progressed = false;
        let mut i: usize = 0;
        assert(nodes@.take(0) =~= seq![]);
        assert(routes@ =~= old(routes)@ + told_of(nodes@.take(0)));
        while i < nodes.len()
            invariant
                i <= nodes.len(),
                list == old(self)@.shortlist,
                hash == old(self)@.info_hash,
                self@ == (LookupModel {
                    shortlist: merged(list, nodes@.take(i as int), hash).0,
                    ..old(self)@
                }),
                progressed == merged(list, nodes@.take(i as int), hash).1,
                routes@ == old(routes)@ + told_of(nodes@.take(i as int)),
            decreases nodes.len() - i,
        {
            let (id, addr) = nodes[i];
            proof {
                assert(nodes@.take(i + 1).drop_last() =~= nodes@.take(i as int));
                assert(nodes@.take(i + 1).last() == nodes@[i as int]);
            }
            if public_dht_endpoint(&addr) {
                let key = id.distance(&self.info_hash);
                if put_new(&mut self.shortlist, key, DhtTarget::Addr(addr)) {
                    progressed = true;
                }
                routes.push((id, addr, false));
                assert(routes@ =~= old(routes)@ + told_of(nodes@.take(i + 1)));
            }
            i += 1;
        }
        assert(nodes@.take(i as int) =~= nodes@);
        progressed
    }

    fn pick_queries(&mut self) -> (r: Vec<DhtTarget>)
        ensures
            target_views(r@) == next_queries(
                at_most(old(self)@.shortlist, 16),
                old(self)@.queried,
                3,
            ),
            final(self)@ == (LookupModel {
                queried: old(self)@.queried + target_views(r@),
                ..old(self)@
            }),
    {
        let ghost list = at_most(self@.shortlist, 16);
        let ghost all = next_queries(list, self@.queried, 3);
        let mut out: Vec<DhtTarget> = Vec::new();
        let n: usize = if self.shortlist.len() < K * 2 {
            self.shortlist.len()
        } else {
            K * 2
        };
        let mut i: usize = 0;
        proof {
            assert(list.skip(0) =~= list);
            assert(self@.queried =~= old(self)@.queried + target_views(out@));
            assert(all =~= target_views(out@) + all);
        }
        while i < n && out.len() < ALPHA
            invariant
                i <= n,
                n <= self.shortlist.len(),
                n == list.len(),
                list == at_most(old(self)@.shortlist, 16),
                out.len() <= 3,
                all == next_queries(list, old(self)@.queried, 3),
                self@ == (LookupModel {
                    queried: old(self)@.queried + target_views(out@),
                    ..old(self)@
                }),
                all == target_views(out@) + next_queries(
                    list.skip(i as int),
                    self@.queried,
                    (3 - out.len()) as nat,
                ),
            decreases n - i,
        {
            let ghost rest = list.skip(i as int);
            let ghost before = self@.queried;
            let ghost told = out@;
            proof {
                assert(rest[0] == list[i as int]);
                assert(list[i as int].1 == self.shortlist@[i as int].1@);
                assert(rest.drop_first() =~= list.skip(i + 1));
            }
            if !has_target(&self.queried, &self.shortlist[i].1) {
                let target = self.shortlist[i].1.clone();
                out.push(target.clone());
                self.queried.push(target);
                proof {
                    assert(target_views(out@) =~= target_views(told).push(target@));
                    assert(target_views(self.queried@) =~= before.push(target@));
                    assert(before.push(target@) =~= old(self)@.queried + target_views(out@));
                    assert(all =~= target_views(out@) + next_queries(
                        list.skip(i + 1),
                        before.push(target@),
                        (3 - out.len()) as nat,
                    ));
                }
            }
            i += 1;
        }
        assert(all =~= target_views(out@));
        out
    }

    /// An answer came.
    pub fn on_reply(&mut self, reply: GetPeersReply) -> (r: LookupStep)
        requires
            old(self).wf(),
            old(self)@.outstanding > 0,
        ensures
            final(self).wf(),
            (final(self)@, r@) == advanced(old(self)@, reply@),
            reply@.responder_id is None ==> answering_id(reply@)@ == sha1_digest(
                target_bytes(reply@.from),
            ),
    {
        let ghost m = self@;
        let ghost rep = reply@;
        proof {
            searches_stay_orderly(m, rep);
        }
        let GetPeersReply { from, body } = reply;
        let GetPeersResponseBody { responder_id, peers, nodes, token } = body;
        let fresh = self.take_peers(&peers);
        let node_id = match responder_id {
            Some(id) => id,
            None => {
                let id = pseudo_id_target(&from);
                proof {
                    id20_is_its_bytes(id);
                }
                id
            },
        };
        let public = match &from {
            DhtTarget::Addr(addr) => public_dht_endpoint(addr),
            DhtTarget::Host(_, _) => true,
        };
        let key = node_id.distance(&self.info_hash);
        let mut routes: Vec<(Id20, SocketAddr, bool)> = Vec::new();
        if public {
            put(&mut self.shortlist, key, from.clone());
            match (&responder_id, &from) {
                (Some(id), DhtTarget::Addr(addr)) => {
                    routes.push((*id, *addr, true));
                },
                _ => {},
            }
            match token {
                Some(token) => {
                    put(&mut self.announce_targets, key, AnnounceTarget { target: from, token });
                    let ghost whole = ranking(self.announce_targets@);
                    if self.announce_targets.len() > K * 2 {
                        self.announce_targets.truncate(K * 2);
                    }
                    assert(ranking(self.announce_targets@) =~= at_most(whole, 16));
                },
                None => {},
            }
        }
        assert(routes@ =~= answering_route(rep));
        let progressed = self.merge_nodes(&nodes, &mut routes);
        let ghost list = ranking(self.shortlist@);
        if self.shortlist.len() > K * 4 {
            self.shortlist.truncate(K * 4);
        }
        assert(ranking(self.shortlist@) =~= at_most(list, 32));
        if progressed || fresh.len() > 0 {
            self.idle = 0;
        } else if self.idle <= 20 {
            self.idle = self.idle + 1;
        }
        let queries = self.pick_queries();
        assert(queries.len() == target_views(queries@).len());
        assert(self.queried.len() == self@.queried.len());
        self.outstanding = self.outstanding - 1 + queries.len();
        let finished = self.outstanding == 0 || (self.idle > 20 && self.peers_seen.len() >= 40);
        let r = LookupStep { peers: fresh, routes, queries, finished };
        assert(self@ =~= advanced(m, rep).0);
        assert(r@ =~= advanced(m, rep).1);
        r
    }

    /// The nodes to announce ourselves to: the closest of those that gave us a token.
    pub fn announcements(self) -> (r: Vec<(Id20, AnnounceTarget)>)
        ensures
            ranking(r@) == at_most(self@.announce, 8),
    {
        let mut out = self.announce_targets;
        let ghost whole = ranking(out@);
        if out.len() > K {
            out.truncate(K);
        }
        assert(ranking(out@) =~= at_most(whole, 8));
        out
    }
}

proof fn lemma_contains_sum<T>(a: Seq<T>, b: Seq<T>, x: T)
    ensures
        (a + b).contains(x) == (a.contains(x) || b.contains(x)),
{
    if a.contains(x) {
        let i = choose|i: int| 0 <= i < a.len() && a[i] == x;
        assert((a + b)[i] == x);
    }
    if b.contains(x) {
        let i = choose|i: int| 0 <= i < b.len() && b[i] == x;
        assert((a + b)[a.len() + i] == x);
    }
    if (a + b).contains(x) {
        let i = choose|i: int| 0 <= i < (a + b).len() && (a + b)[i] == x;
        if i < a.len() {
            assert(a[i] == x);
        } else {
            assert(b[i - a.len()] == x);
        }
    }
}

} // verus!
