//! What is answered to a question, in terms of what the answer holds.

use vstd::prelude::*;

use crate::bencode::{
    bytes_field, decimal, encode, encode_bytes, encoded_length, field, first_with_key, int_field,
    lemma_first_with_key, list_field, lookup, Bencode,
};
use crate::dht::endpoint::routable;
use crate::dht::krpc::{
    compact_forms, compact_forms_are_read, each_contact_has_one_form, more_forms_tell_of_more, names,
    nodes_in,
};
use crate::dht::reply::{all_capped, bounded, capped, fitted, halved, holds, shorter, with_body};
use crate::dht::routing::{
    as_near, at_most, closest, contacts, keyed, live, none_farther, payloads, stands_in,
    the_closest_answer, the_nearest_are_named, with_node, RoutingLiveness, RoutingNode,
};
use crate::dht::server::{
    accepts, announced, closest_of, contact_entries, handle, handle_announce, heard,
    lemma_short_bytes,
    lemma_stored_in_range, oldest, peer_entries, peer_items, peers_of, response, results,
    stored_at, without_expired, ServerModel, StoredPeer, TokenState,
};
use crate::meta::hash::{id20_has_its_bytes, id20_is_its_bytes, id20_of, sha1_digest, xor_bytes, Id20};
use crate::net::{compact, compact_round_trip, SocketAddr};
use crate::order::{lex_less, lex_total, lex_transitive, sorted, sorting_is_a_permutation};
use crate::sums::total;
use crate::words::{w_nodes, w_nodes6, w_values};

verus! {

proof fn lemma_total_parts<T>(a: Seq<T>, b: Seq<T>, f: spec_fn(T) -> nat)
    ensures
        total(a + b, f) == total(a, f) + total(b, f),
    decreases b.len(),
{
    if b.len() == 0 {
        assert(a + b =~= a);
    } else {
        assert((a + b).drop_last() =~= a + b.drop_last());
        lemma_total_parts(a, b.drop_last(), f);
    }
}

proof fn lemma_total_sorted<T>(p: Seq<(Seq<u8>, T)>, f: spec_fn((Seq<u8>, T)) -> nat)
    ensures
        total(sorted(p), f) == total(p, f),
    decreases p.len(),
{
    if p.len() > 0 {
        let rest = sorted(p.drop_last());
        lemma_total_sorted(p.drop_last(), f);
        sorting_is_a_permutation(p.drop_last());
        crate::order::lemma_slot(rest, p.last().0);
        crate::sums::total_of_insert(
            rest,
            crate::order::slot(rest, p.last().0),
            p.last(),
            f,
        );
    }
}

proof fn lemma_total_ones<T>(s: Seq<T>, f: spec_fn(T) -> nat)
    requires
        forall|i: int| 0 <= i < s.len() ==> f(#[trigger] s[i]) == 1,
    ensures
        total(s, f) == s.len(),
    decreases s.len(),
{
    if s.len() > 0 {
        let front = s.drop_last();
        assert forall|i: int| 0 <= i < front.len() implies f(#[trigger] front[i]) == 1 by {
            assert(front[i] == s[i]);
        }
        lemma_total_ones(front, f);
        assert(f(s[s.len() - 1]) == 1);
    }
}

proof fn lemma_total_zeros<T>(s: Seq<T>, k: int, f: spec_fn(T) -> nat)
    requires
        0 <= k <= s.len(),
        forall|i: int| 0 <= i < s.len() ==> f(#[trigger] s[i]) <= 1,
        forall|i: int| k <= i < s.len() ==> f(#[trigger] s[i]) == 0,
    ensures
        total(s, f) <= k,
    decreases s.len(),
{
    if s.len() > 0 {
        let front = s.drop_last();
        assert forall|i: int| 0 <= i < front.len() implies f(#[trigger] front[i]) <= 1 by {
            assert(front[i] == s[i]);
        }
        assert forall|i: int| k <= i < front.len() implies f(#[trigger] front[i]) == 0 by {
            assert(front[i] == s[i]);
        }
        assert(f(s[s.len() - 1]) <= 1);
        if k < s.len() {
            lemma_total_zeros(front, k, f);
            assert(f(s[s.len() - 1]) == 0);
        } else {
            lemma_total_zeros(front, k - 1, f);
        }
    }
}

/// True of the contacts of either table that are not known to be dead.
pub open spec fn is_live(s: ServerModel, c: RoutingNode) -> bool {
    !(c.liveness is Bad) && (stands_in(s.routing, c) || stands_in(s.routing6, c))
}

/// True when `list` is the contacts of both tables that are nearest to the target: live ones, the
/// nearest first, no more than `n`, and a live contact is left out only where `n` others that are
/// at least as near are named.
pub open spec fn nearest_of_both(
    s: ServerModel,
    target: Id20,
    n: nat,
    list: Seq<(Id20, SocketAddr)>,
) -> bool {
    &&& list.len() <= n
    &&& forall|id: Id20, addr: SocketAddr| #[trigger]
        list.contains((id, addr)) ==> exists|c: RoutingNode|
            c.id == id && c.addr == addr && #[trigger] is_live(s, c)
    &&& forall|c: RoutingNode| #[trigger]
        is_live(s, c) && !list.contains((c.id, c.addr)) ==> list.len() == n && none_farther(
            list,
            c.id,
            target,
        )
    &&& forall|i: int, j: int|
        0 <= i < j < list.len() ==> as_near(
            (#[trigger] list[i]).0,
            (#[trigger] list[j]).0,
            target,
        )
}

proof fn lemma_sorted_key(list: Seq<(Id20, SocketAddr)>, target: Id20, i: int)
    requires
        0 <= i < list.len(),
    ensures
        sorted(keyed(list, target))[i].0 == xor_bytes(
            sorted(keyed(list, target))[i].1.0@,
            target@,
        ),
{
    let p = keyed(list, target);
    let all = sorted(p);
    sorting_is_a_permutation(p);
    p.to_multiset_ensures();
    all.to_multiset_ensures();
    assert(all.contains(all[i]));
    assert(p.to_multiset().count(all[i]) > 0);
    assert(p.contains(all[i]));
    let k = choose|k: int| 0 <= k < p.len() && p[k] == all[i];
}

proof fn lemma_left_out(
    part: Seq<(Id20, SocketAddr)>,
    other: Seq<(Id20, SocketAddr)>,
    both: Seq<(Id20, SocketAddr)>,
    target: Id20,
    n: nat,
    id: Id20,
)
    requires
        both == part + other || both == other + part,
        part.len() == n,
        none_farther(part, id, target),
    ensures
        ({
            let out = at_most(payloads(sorted(keyed(both, target))), n);
            out.len() == n && none_farther(out, id, target)
        }),
{
    let far = xor_bytes(id@, target@);
    let f = |e: (Seq<u8>, (Id20, SocketAddr))|
        if lex_less(far, e.0) {
            0nat
        } else {
            1nat
        };
    let p = keyed(both, target);
    let all = sorted(p);
    let out = at_most(payloads(all), n);
    the_nearest_are_named(both, target, n);
    assert(out.len() == n);
    let (a, b) = (keyed(part, target), keyed(other, target));
    assert(p =~= a + b || p =~= b + a);
    assert forall|i: int| 0 <= i < a.len() implies f(#[trigger] a[i]) == 1 by {
        assert(as_near(part[i].0, id, target));
    }
    lemma_total_ones(a, f);
    lemma_total_parts(a, b, f);
    lemma_total_parts(b, a, f);
    lemma_total_sorted(p, f);
    assert(total(all, f) >= n);
    sorting_is_a_permutation(p);
    assert forall|i: int| 0 <= i < out.len() implies as_near(
        (#[trigger] out[i]).0,
        id,
        target,
    ) by {
        assert(out[i] == all[i].1);
        lemma_sorted_key(both, target, i);
        if lex_less(far, all[i].0) {
            assert forall|j: int| i <= j < all.len() implies f(#[trigger] all[j]) == 0 by {
                if i < j {
                    lex_total(all[i].0, all[j].0);
                    if all[i].0 != all[j].0 {
                        lex_transitive(far, all[i].0, all[j].0);
                    }
                }
            }
            lemma_total_zeros(all, i, f);
            assert(false);
        }
    }
}

/// The contacts that an answer names are the nearest of both tables together.
pub proof fn the_nearest_of_both(s: ServerModel, target: Id20, n: nat)
    ensures
        nearest_of_both(s, target, n, closest_of(s, target, n)),
{
    let a = closest(live(contacts(s.routing)), target, n);
    let b = closest(live(contacts(s.routing6)), target, n);
    let both = a + b;
    let out = closest_of(s, target, n);
    the_closest_answer(s.routing, target, n);
    the_closest_answer(s.routing6, target, n);
    the_nearest_are_named(both, target, n);
    assert forall|id: Id20, addr: SocketAddr| #[trigger] out.contains((id, addr)) implies exists|
        c: RoutingNode,
    |
        c.id == id && c.addr == addr && #[trigger] is_live(s, c) by {
        let x = (id, addr);
        assert(both.contains(x));
        let i = choose|i: int| 0 <= i < both.len() && both[i] == x;
        if i < a.len() {
            assert(a[i] == x);
            assert(a.contains((id, addr)));
            let c = choose|c: RoutingNode|
                c.id == id && c.addr == addr && !(c.liveness is Bad) && #[trigger] stands_in(
                    s.routing,
                    c,
                );
            assert(is_live(s, c));
        } else {
            assert(b[i - a.len()] == x);
            assert(b.contains((id, addr)));
            let c = choose|c: RoutingNode|
                c.id == id && c.addr == addr && !(c.liveness is Bad) && #[trigger] stands_in(
                    s.routing6,
                    c,
                );
            assert(is_live(s, c));
        }
    }
    assert forall|c: RoutingNode| #[trigger]
        stands_in(s.routing, c) && !(c.liveness is Bad) && !out.contains(
            (c.id, c.addr),
        ) implies out.len() == n && none_farther(out, c.id, target) by {
        let x = (c.id, c.addr);
        if a.contains(x) {
            let i = choose|i: int| 0 <= i < a.len() && a[i] == x;
            assert(both[i] == x);
            assert(both.contains(x));
        } else {
            lemma_left_out(a, b, both, target, n, c.id);
        }
    }
    assert forall|c: RoutingNode| #[trigger]
        stands_in(s.routing6, c) && !(c.liveness is Bad) && !out.contains(
            (c.id, c.addr),
        ) implies out.len() == n && none_farther(out, c.id, target) by {
        let x = (c.id, c.addr);
        if b.contains(x) {
            let i = choose|i: int| 0 <= i < b.len() && b[i] == x;
            assert(both[a.len() + i] == x);
            assert(both.contains(x));
        } else {
            lemma_left_out(b, a, both, target, n, c.id);
        }
    }
}

/// True when a datagram is a reply to the transaction `tid`, by the node `our_id`, with the results
/// `body`.
#[verifier::opaque]
pub open spec fn replies(
    datagram: Seq<u8>,
    tid: Seq<u8>,
    our_id: Id20,
    body: Seq<(Seq<u8>, Bencode)>,
) -> bool {
    exists|d: Seq<(Seq<u8>, Bencode)>|
        {
            &&& datagram == #[trigger] encode(Bencode::Dict(d))
            &&& d.len() == 3
            &&& lookup(d, seq![116u8]) == Some(Bencode::Bytes(tid))
            &&& lookup(d, seq![121u8]) == Some(Bencode::Bytes(seq![114u8]))
            &&& lookup(d, seq![114u8]) == Some(Bencode::Dict(body))
            &&& lookup(body, seq![105u8, 100]) == Some(Bencode::Bytes(our_id@))
        }
}

/// True when a datagram tells of an error, with a code and a message.
#[verifier::opaque]
pub open spec fn refuses(datagram: Seq<u8>, tid: Seq<u8>, code: int) -> bool {
    exists|d: Seq<(Seq<u8>, Bencode)>|
        {
            &&& datagram == #[trigger] encode(Bencode::Dict(d))
            &&& d.len() == 3
            &&& lookup(d, seq![116u8]) == Some(Bencode::Bytes(tid))
            &&& lookup(d, seq![121u8]) == Some(Bencode::Bytes(seq![101u8]))
            &&& lookup(d, seq![101u8]) matches Some(Bencode::List(l))
            &&& l.len() == 2
            &&& l[0] == Bencode::Int(code)
            &&& l[1] is Bytes
        }
}

/// True when contacts of one address family are wanted: those that the question names, else those
/// of the asker's own.
pub open spec fn wants(args: Bencode, from: SocketAddr, v6: bool) -> bool {
    match list_field(args, seq![119u8, 97, 110, 116]) {
        Some(l) => l.contains(
            Bencode::Bytes(
                if v6 {
                    seq![110u8, 54]
                } else {
                    seq![110u8, 52]
                },
            ),
        ),
        None => (from.ip is V6) == v6,
    }
}

/// True when the results name exactly the contacts of a list that can be reached, for each address
/// family that is wanted under its key, and nothing for one that is not.
pub open spec fn names_contacts(
    body: Seq<(Seq<u8>, Bencode)>,
    args: Bencode,
    from: SocketAddr,
    near: Seq<(Id20, SocketAddr)>,
) -> bool {
    &&& match lookup(body, seq![110u8, 111, 100, 101, 115]) {
        Some(Bencode::Bytes(b)) => wants(args, from, false) && forall|id: Id20, addr: SocketAddr|
            #[trigger]
            nodes_in(b, false).contains((id, addr)) <==> near.contains((id, addr)) && addr.ip is V4
                && routable(addr),
        Some(_) => false,
        None => !wants(args, from, false),
    }
    &&& match lookup(body, seq![110u8, 111, 100, 101, 115, 54]) {
        Some(Bencode::Bytes(b)) => wants(args, from, true) && forall|id: Id20, addr: SocketAddr|
            #[trigger]
            nodes_in(b, true).contains((id, addr)) <==> near.contains((id, addr)) && addr.ip is V6
                && routable(addr),
        Some(_) => false,
        None => !wants(args, from, true),
    }
}

proof fn lemma_wanted(args: Bencode, from: SocketAddr)
    ensures
        crate::dht::krpc::wanted(args, from) == (wants(args, from, false), wants(args, from, true)),
{
    if let Some(l) = list_field(args, seq![119u8, 97, 110, 116]) {
        if names(l, seq![110u8, 52]) {
            let i = choose|i: int| 0 <= i < l.len() && #[trigger] l[i] == Bencode::Bytes(seq![110u8, 52]);
            assert(l.contains(l[i]));
        }
        if names(l, seq![110u8, 54]) {
            let i = choose|i: int| 0 <= i < l.len() && #[trigger] l[i] == Bencode::Bytes(seq![110u8, 54]);
            assert(l.contains(l[i]));
        }
    }
}

proof fn lemma_lookup<T>(d: Seq<(Seq<u8>, T)>, key: Seq<u8>)
    ensures
        0 <= first_with_key(d, key) <= d.len(),
        forall|i: int| 0 <= i < first_with_key(d, key) ==> (#[trigger] d[i]).0 != key,
        first_with_key(d, key) < d.len() ==> d[first_with_key(d, key)].0 == key,
    decreases d.len(),
{
    if d.len() > 0 && d[0].0 != key {
        let rest = d.drop_first();
        lemma_lookup(rest, key);
        assert forall|i: int| 0 <= i < first_with_key(d, key) implies (#[trigger] d[i]).0 != key by {
            if i > 0 {
                assert(rest[i - 1] == d[i]);
            }
        }
    }
}

proof fn lemma_shape(tid: Seq<u8>, s: ServerModel, more: Seq<(Seq<u8>, Bencode)>, body: Seq<
    (Seq<u8>, Bencode),
>)
    requires
        lookup(body, seq![105u8, 100]) == Some(Bencode::Bytes(s.our_id@)),
    ensures
        replies(
            encode(Bencode::Dict(with_body(response(tid, results(s, more)), body))),
            tid,
            s.our_id,
            body,
        ),
{
    reveal(replies);
    let d = with_body(response(tid, results(s, more)), body);
    let whole = response(tid, results(s, more));
    assert(whole[0].0 == seq![114u8]);
    assert(first_with_key(whole, seq![114u8]) == 0);
    assert(d[0] == (seq![114u8], Bencode::Dict(body)));
    assert(d[1] == (seq![116u8], Bencode::Bytes(tid)));
    assert(d[2] == (seq![121u8], Bencode::Bytes(seq![114u8])));
    assert(seq![114u8][0] == 114u8 && seq![116u8][0] == 116u8 && seq![121u8][0] == 121u8);
    lemma_first_with_key(d, seq![114u8], 0);
    lemma_first_with_key(d, seq![116u8], 1);
    lemma_first_with_key(d, seq![121u8], 2);
    assert(encode(Bencode::Dict(d)) == encode(Bencode::Dict(d)));
}

/// True when no two entries have the same key.
pub open spec fn each_once(d: Seq<(Seq<u8>, Bencode)>) -> bool {
    forall|i: int, j: int|
        0 <= i < j < d.len() ==> (#[trigger] d[i]).0 != (#[trigger] d[j]).0
}

/// True when some whole items at the end of what stood under a key are gone, or all of it.
pub open spec fn cut_down(before: Option<Bencode>, after: Option<Bencode>, width: int) -> bool {
    match after {
        None => true,
        Some(Bencode::List(l)) => before matches Some(Bencode::List(whole)) && l.len()
            <= whole.len() && l == whole.take(l.len() as int),
        Some(Bencode::Bytes(b)) => before matches Some(Bencode::Bytes(whole)) && exists|n: int|
            0 <= n && #[trigger] (n * width) <= whole.len() && b == whole.take(n * width),
        Some(_) => false,
    }
}

/// True when results are what is left of others: only peers and contacts are given up.
spec fn left_of(b: Seq<(Seq<u8>, Bencode)>, body: Seq<(Seq<u8>, Bencode)>) -> bool {
    &&& each_once(b)
    &&& forall|k: Seq<u8>|
        k != w_values() && k != w_nodes() && k != w_nodes6() ==> #[trigger] lookup(b, k) == lookup(
            body,
            k,
        )
    &&& cut_down(lookup(body, w_values()), lookup(b, w_values()), 1)
    &&& cut_down(lookup(body, w_nodes()), lookup(b, w_nodes()), 26)
    &&& cut_down(lookup(body, w_nodes6()), lookup(b, w_nodes6()), 38)
}

proof fn lemma_updated(b: Seq<(Seq<u8>, Bencode)>, key: Seq<u8>, v: Bencode)
    requires
        each_once(b),
        holds(b, key),
    ensures
        ({
            let i = first_with_key(b, key);
            let out = b.update(i, (key, v));
            &&& each_once(out)
            &&& lookup(out, key) == Some(v)
            &&& forall|k: Seq<u8>| k != key ==> #[trigger] lookup(out, k) == lookup(b, k)
        }),
{
    let i = first_with_key(b, key);
    let out = b.update(i, (key, v));
    lemma_lookup(b, key);
    assert forall|x: int| 0 <= x < b.len() implies (#[trigger] out[x]).0 == b[x].0 by {}
    assert forall|x: int, y: int| 0 <= x < y < out.len() implies (#[trigger] out[x]).0 != (
    #[trigger] out[y]).0 by {
        assert(b[x].0 != b[y].0);
    }
    lemma_first_with_key(out, key, i);
    assert forall|k: Seq<u8>| k != key implies #[trigger] lookup(out, k) == lookup(b, k) by {
        lemma_lookup(b, k);
        lemma_first_with_key(out, k, first_with_key(b, k));
    }
}

proof fn lemma_removed(b: Seq<(Seq<u8>, Bencode)>, key: Seq<u8>)
    requires
        each_once(b),
        holds(b, key),
    ensures
        ({
            let i = first_with_key(b, key);
            let out = b.remove(i);
            &&& each_once(out)
            &&& lookup(out, key) is None
            &&& forall|k: Seq<u8>| k != key ==> #[trigger] lookup(out, k) == lookup(b, k)
        }),
{
    let i = first_with_key(b, key);
    let out = b.remove(i);
    lemma_lookup(b, key);
    assert forall|x: int| 0 <= x < out.len() implies #[trigger] out[x] == b[if x < i {
        x
    } else {
        x + 1
    }] by {}
    assert forall|x: int, y: int| 0 <= x < y < out.len() implies (#[trigger] out[x]).0 != (
    #[trigger] out[y]).0 by {
        let (p, q) = (
            if x < i {
                x
            } else {
                x + 1
            },
            if y < i {
                y
            } else {
                y + 1
            },
        );
        assert(b[p].0 != b[q].0);
    }
    lemma_lookup(out, key);
    if first_with_key(out, key) < out.len() {
        let f = first_with_key(out, key);
        if f < i {
            assert(b[f].0 != b[i].0);
        } else {
            assert(b[i].0 != b[f + 1].0);
        }
    }
    assert forall|k: Seq<u8>| k != key implies #[trigger] lookup(out, k) == lookup(b, k) by {
        lemma_lookup(b, k);
        let f = first_with_key(b, k);
        if f < i {
            lemma_first_with_key(out, k, f);
        } else {
            assert(f != i);
            assert forall|j: int| 0 <= j < f - 1 implies (#[trigger] out[j]).0 != k by {}
            lemma_first_with_key(out, k, f - 1);
        }
    }
}

proof fn lemma_keys_differ()
    ensures
        w_values() != w_nodes(),
        w_values() != w_nodes6(),
        w_nodes() != w_nodes6(),
        w_values() == seq![118u8, 97, 108, 117, 101, 115],
        w_nodes() == seq![110u8, 111, 100, 101, 115],
        w_nodes6() == seq![110u8, 111, 100, 101, 115, 54],
        seq![105u8, 100] != w_values() && seq![105u8, 100] != w_nodes() && seq![105u8, 100] != w_nodes6(),
        seq![116u8, 111, 107, 101, 110] != w_values() && seq![116u8, 111, 107, 101, 110] != w_nodes() && seq![116u8, 111, 107, 101, 110] != w_nodes6(),
        seq![105u8, 100] != seq![116u8, 111, 107, 101, 110],
{
    assert(w_values()[0] == 118u8 && w_nodes()[0] == 110u8 && w_nodes6()[0] == 110u8);
    assert(w_nodes().len() == 5 && w_nodes6().len() == 6);
    assert(seq![105u8, 100][0] == 105u8);
    assert(seq![116u8, 111, 107, 101, 110][0] == 116u8);
}

proof fn lemma_cut_again(a: Option<Bencode>, b: Option<Bencode>, c: Option<Bencode>, width: int)
    requires
        cut_down(a, b, width),
        cut_down(b, c, width),
        width > 0,
    ensures
        cut_down(a, c, width),
{
    if let Some(Bencode::List(l)) = c {
        let mid = b->0->List_0;
        let whole = a->0->List_0;
        assert(l =~= whole.take(l.len() as int));
    }
    if let Some(Bencode::Bytes(x)) = c {
        let mid = b->0->Bytes_0;
        let whole = a->0->Bytes_0;
        let n = choose|n: int|
            0 <= n && #[trigger] (n * width) <= mid.len() && x == mid.take(n * width);
        let m = choose|m: int|
            0 <= m && #[trigger] (m * width) <= whole.len() && mid == whole.take(m * width);
        assert(m * width >= 0 && n * width >= 0) by (nonlinear_arith)
            requires
                m >= 0,
                n >= 0,
                width > 0,
        ;
        assert(x =~= whole.take(n * width));
    }
}

proof fn lemma_capped_left(b: Seq<(Seq<u8>, Bencode)>, key: Seq<u8>, width: int, whole: Seq<
    (Seq<u8>, Bencode),
>)
    requires
        left_of(b, whole),
        (key == w_values() && width == 6) || (key == w_nodes() && width == 26) || (key == w_nodes6()
            && width == 38),
        !(lookup(whole, w_values()) is Some) || lookup(whole, w_values())->0 is List,
    ensures
        left_of(capped(b, key, width), whole),
{
    lemma_keys_differ();
    lemma_lookup(b, key);
    if holds(b, key) {
        let i = first_with_key(b, key);
        let out = capped(b, key, width);
        let unit = if key == w_values() {
            1int
        } else {
            width
        };
        lemma_removed(b, key);
        match b[i].1 {
            Bencode::List(l) => {
                if key == w_values() {
                    let cut = if l.len() <= 170 {
                        l
                    } else {
                        l.take(170)
                    };
                    lemma_updated(b, key, Bencode::List(cut));
                    assert(cut =~= l.take(cut.len() as int));
                    lemma_cut_again(
                        lookup(whole, key),
                        lookup(b, key),
                        Some(Bencode::List(cut)),
                        unit,
                    );
                }
            },
            Bencode::Bytes(x) => {
                let n = crate::dht::reply::whole_items(x.len(), width);
                lemma_updated(b, key, Bencode::Bytes(x.take(n)));
                if key != w_values() {
                    let most = 1024int / width * width;
                    let lim = if x.len() < most {
                        x.len() as int
                    } else {
                        most
                    };
                    let k = lim / width;
                    assert(n == k * width);
                    assert(0 <= k && k * width <= lim) by (nonlinear_arith)
                        requires
                            k == lim / width,
                            lim >= 0,
                            width > 0,
                    ;
                    assert(cut_down(
                        lookup(b, key),
                        Some(Bencode::Bytes(x.take(k * width))),
                        unit,
                    ));
                    lemma_cut_again(
                        lookup(whole, key),
                        lookup(b, key),
                        Some(Bencode::Bytes(x.take(n))),
                        unit,
                    );
                }
            },
            _ => {},
        }
    }
}

proof fn lemma_halved_left(b: Seq<(Seq<u8>, Bencode)>, key: Seq<u8>, width: int, whole: Seq<
    (Seq<u8>, Bencode),
>)
    requires
        left_of(b, whole),
        holds(b, key),
        (key == w_values() && width == 26) || (key == w_nodes() && width == 26) || (key
            == w_nodes6() && width == 38),
        !(lookup(whole, w_values()) is Some) || lookup(whole, w_values())->0 is List,
    ensures
        left_of(halved(b, key, width), whole),
{
    lemma_keys_differ();
    lemma_lookup(b, key);
    let i = first_with_key(b, key);
    let unit = if key == w_values() {
        1int
    } else {
        width
    };
    lemma_removed(b, key);
    match b[i].1 {
        Bencode::List(l) => {
            let n = l.len() as int / 2;
            lemma_updated(b, key, Bencode::List(l.take(n)));
            lemma_cut_again(lookup(whole, key), lookup(b, key), Some(Bencode::List(l.take(n))), unit);
        },
        Bencode::Bytes(x) => {
            let k = x.len() as int / width / 2;
            let n = k * width;
            assert(0 <= k && k * width <= x.len()) by (nonlinear_arith)
                requires
                    k == x.len() as int / width / 2,
                    width > 0,
            ;
            lemma_updated(b, key, Bencode::Bytes(x.take(n)));
            if key != w_values() {
                assert(cut_down(lookup(b, key), Some(Bencode::Bytes(x.take(k * width))), unit));
                lemma_cut_again(
                    lookup(whole, key),
                    lookup(b, key),
                    Some(Bencode::Bytes(x.take(n))),
                    unit,
                );
            }
        },
        _ => {},
    }
}

proof fn lemma_fitted_left(
    response: Seq<(Seq<u8>, Bencode)>,
    b: Seq<(Seq<u8>, Bencode)>,
    whole: Seq<(Seq<u8>, Bencode)>,
) -> (out: Seq<(Seq<u8>, Bencode)>)
    requires
        left_of(b, whole),
        !(lookup(whole, w_values()) is Some) || lookup(whole, w_values())->0 is List,
    ensures
        left_of(out, whole),
        fitted(response, b) == encode(Bencode::Dict(with_body(response, out))),
    decreases total(b, |e: (Seq<u8>, Bencode)| crate::dht::reply::bulk(e)),
{
    if encode(Bencode::Dict(with_body(response, b))).len() <= 1024 {
        b
    } else {
        match shorter(b) {
            None => b,
            Some(next) => {
                crate::dht::reply::lemma_shorter(b);
                if holds(b, w_values()) {
                    lemma_halved_left(b, w_values(), 26, whole);
                } else if holds(b, w_nodes6()) {
                    lemma_halved_left(b, w_nodes6(), 38, whole);
                } else {
                    lemma_halved_left(b, w_nodes(), 26, whole);
                }
                lemma_fitted_left(response, next, whole)
            },
        }
    }
}

proof fn lemma_left_of_itself(body: Seq<(Seq<u8>, Bencode)>)
    requires
        each_once(body),
        !(lookup(body, w_values()) is Some) || lookup(body, w_values())->0 is List,
        lookup(body, w_nodes()) matches Some(v) ==> v is Bytes && v->Bytes_0.len() % 26 == 0,
        lookup(body, w_nodes6()) matches Some(v) ==> v is Bytes && v->Bytes_0.len() % 38 == 0,
    ensures
        left_of(body, body),
{
    if let Some(Bencode::List(l)) = lookup(body, w_values()) {
        assert(l.take(l.len() as int) =~= l);
    }
    if let Some(Bencode::Bytes(x)) = lookup(body, w_nodes()) {
        let n = x.len() as int / 26;
        assert(n * 26 == x.len());
        assert(x.take(n * 26) =~= x);
    }
    if let Some(Bencode::Bytes(x)) = lookup(body, w_nodes6()) {
        let n = x.len() as int / 38;
        assert(n * 38 == x.len());
        assert(x.take(n * 38) =~= x);
    }
}

proof fn lemma_bounded_left(tid: Seq<u8>, s: ServerModel, more: Seq<(Seq<u8>, Bencode)>) -> (out: Seq<
    (Seq<u8>, Bencode),
>)
    requires
        left_of(results(s, more), results(s, more)),
        !(lookup(results(s, more), w_values()) is Some) || lookup(results(s, more), w_values())->0
            is List,
    ensures
        left_of(out, results(s, more)),
        bounded(response(tid, results(s, more))) == encode(
            Bencode::Dict(with_body(response(tid, results(s, more)), out)),
        ),
        ({
            let body = results(s, more);
            let whole = response(tid, body);
            all_capped(body) == body && encode(Bencode::Dict(with_body(whole, body))).len() <= 1024
                ==> out == body
        }),
{
    let body = results(s, more);
    let whole = response(tid, body);
    assert(whole[0].0 == seq![114u8]);
    assert(first_with_key(whole, seq![114u8]) == 0);
    let a = capped(body, w_values(), 6);
    let b = capped(a, w_nodes(), 26);
    lemma_capped_left(body, w_values(), 6, body);
    lemma_capped_left(a, w_nodes(), 26, body);
    lemma_capped_left(b, w_nodes6(), 38, body);
    if all_capped(body) == body && encode(Bencode::Dict(with_body(whole, body))).len() <= 1024 {
        body
    } else {
        lemma_fitted_left(whole, all_capped(body), body)
    }
}

spec fn weight() -> spec_fn((Seq<u8>, Bencode)) -> nat {
    |e: (Seq<u8>, Bencode)| (encode_bytes(e.0).len() + encode(e.1).len()) as nat
}

proof fn lemma_long_bytes(b: Seq<u8>)
    requires
        b.len() < 1000,
    ensures
        encode_bytes(b).len() <= b.len() + 4,
{
    reveal_with_fuel(decimal, 4);
}

proof fn lemma_items_length(peers: Seq<SocketAddr>)
    ensures
        crate::bencode::encode_list(peer_items(peers)).len() <= 21 * peers.len(),
    decreases peers.len(),
{
    if peers.len() > 0 {
        let front = peers.drop_last();
        lemma_items_length(front);
        let items = peer_items(peers);
        assert(items.drop_last() =~= peer_items(front));
        compact_round_trip(peers.last(), seq![]);
        assert(compact(peers.last()) + seq![] =~= compact(peers.last()));
        lemma_short_bytes(compact(peers.last()));
        assert(items.last() == Bencode::Bytes(compact(peers.last())));
        assert(encode(items.last()) == encode_bytes(compact(peers.last())));
        assert(crate::bencode::encode_list(items) == crate::bencode::encode_list(items.drop_last())
            + encode(items.last()));
    }
}

proof fn lemma_one_weighs(e: (Seq<u8>, Bencode))
    ensures
        total(seq![e], weight()) == weight()(e),
{
    reveal_with_fuel(total, 2);
    assert(seq![e].drop_last() =~= seq![]);
}

proof fn lemma_whole_reply(
    tid: Seq<u8>,
    s: ServerModel,
    token: Seq<(Seq<u8>, Bencode)>,
    known: Seq<SocketAddr>,
    near: Seq<(Id20, SocketAddr)>,
    want: (bool, bool),
)
    requires
        tid.len() <= 32,
        known.len() <= 10,
        near.len() <= 16,
        token.len() == 0 || (token.len() == 1 && token[0].0 == seq![116u8, 111, 107, 101, 110] && token[0].1 is Bytes
            && token[0].1->Bytes_0.len() <= 8),
    ensures
        ({
            let more = token + peer_entries(known) + contact_entries(near, want);
            let body = results(s, more);
            encode(Bencode::Dict(with_body(response(tid, body), body))).len() <= 1024
        }),
{
    let peers = peer_entries(known);
    let found = contact_entries(near, want);
    let more = token + peers + found;
    let body = results(s, more);
    let own = seq![(seq![105u8, 100], Bencode::Bytes(s.our_id@))];
    let f = weight();
    each_contact_has_one_form(near);
    let (n4, n6) = (compact_forms(near, false), compact_forms(near, true));
    assert(near.len() * 38 <= 608);
    assert(total(own, f) <= 28) by {
        lemma_one_weighs(own[0]);
        lemma_short_bytes(seq![105u8, 100]);
        lemma_short_bytes(s.our_id@);
    }
    assert(total(token, f) <= 19) by {
        if token.len() == 1 {
            assert(token =~= seq![token[0]]);
            lemma_one_weighs(token[0]);
            lemma_short_bytes(seq![116u8, 111, 107, 101, 110]);
            lemma_short_bytes(token[0].1->Bytes_0);
        }
    }
    assert(total(peers, f) <= 221) by {
        if known.len() > 0 {
            lemma_one_weighs(peers[0]);
            lemma_short_bytes(w_values());
            lemma_items_length(known);
        }
    }
    let a = if want.0 {
        seq![(w_nodes(), Bencode::Bytes(n4))]
    } else {
        seq![]
    };
    let b = if want.1 {
        seq![(w_nodes6(), Bencode::Bytes(n6))]
    } else {
        seq![]
    };
    assert(total(a, f) <= 12 + n4.len()) by {
        if want.0 {
            lemma_one_weighs(a[0]);
            lemma_short_bytes(w_nodes());
            lemma_long_bytes(n4);
        }
    }
    assert(total(b, f) <= 13 + n6.len()) by {
        if want.1 {
            lemma_one_weighs(b[0]);
            lemma_short_bytes(w_nodes6());
            lemma_long_bytes(n6);
        }
    }
    assert(found =~= a + b);
    lemma_total_parts(a, b, f);
    lemma_total_parts(token, peers, f);
    lemma_total_parts(token + peers, found, f);
    lemma_total_parts(own, more, f);
    assert(body =~= own + more);
    encoded_length(body);
    assert(encode(Bencode::Dict(body)).len() == 2 + total(body, f));
    let d = with_body(response(tid, body), body);
    assert(response(tid, body)[0].0 == seq![114u8]);
    assert(first_with_key(response(tid, body), seq![114u8]) == 0);
    assert(d[0] == (seq![114u8], Bencode::Dict(body)));
    assert(d[1] == (seq![116u8], Bencode::Bytes(tid)));
    assert(d[2] == (seq![121u8], Bencode::Bytes(seq![114u8])));
    encoded_length(d);
    assert(d =~= seq![d[0]] + seq![d[1]] + seq![d[2]]);
    lemma_total_parts(seq![d[0]] + seq![d[1]], seq![d[2]], f);
    lemma_total_parts(seq![d[0]], seq![d[1]], f);
    lemma_one_weighs(d[0]);
    lemma_one_weighs(d[1]);
    lemma_one_weighs(d[2]);
    lemma_short_bytes(seq![114u8]);
    lemma_short_bytes(seq![116u8]);
    lemma_short_bytes(seq![121u8]);
    lemma_short_bytes(tid);
}

proof fn lemma_body(
    s: ServerModel,
    token: Seq<(Seq<u8>, Bencode)>,
    known: Seq<SocketAddr>,
    near: Seq<(Id20, SocketAddr)>,
    want: (bool, bool),
)
    requires
        near.len() <= 16,
        token.len() == 0 || (token.len() == 1 && token[0].0 == seq![116u8, 111, 107, 101, 110]),
    ensures
        ({
            let body = results(s, token + peer_entries(known) + contact_entries(near, want));
            &&& each_once(body)
            &&& left_of(body, body)
            &&& lookup(body, seq![105u8, 100]) == Some(Bencode::Bytes(s.our_id@))
            &&& lookup(body, seq![116u8, 111, 107, 101, 110]) == (if token.len() == 0 {
                None
            } else {
                Some(token[0].1)
            })
            &&& lookup(body, w_values()) == (if known.len() == 0 {
                None
            } else {
                Some(Bencode::List(peer_items(known)))
            })
            &&& lookup(body, w_nodes()) == (if want.0 {
                Some(Bencode::Bytes(compact_forms(near, false)))
            } else {
                None
            })
            &&& lookup(body, w_nodes6()) == (if want.1 {
                Some(Bencode::Bytes(compact_forms(near, true)))
            } else {
                None
            })
            &&& known.len() <= 170 ==> all_capped(body) == body
        }),
{
    let peers = peer_entries(known);
    let body = results(s, token + peers + contact_entries(near, want));
    let t = token.len() as int;
    let p = peers.len() as int;
    let n = if want.0 {
        1int
    } else {
        0
    };
    lemma_keys_differ();
    let (n4, n6) = (compact_forms(near, false), compact_forms(near, true));
    compact_forms_are_read(near, false);
    compact_forms_are_read(near, true);
    assert(n4.len() <= 416 && n6.len() <= 608);
    assert(body[0] == (seq![105u8, 100], Bencode::Bytes(s.our_id@)));
    assert(t == 1 ==> body[1] == token[0]);
    assert(p == 1 ==> body[1 + t] == (w_values(), Bencode::List(peer_items(known))));
    assert(want.0 ==> body[1 + t + p] == (w_nodes(), Bencode::Bytes(n4)));
    assert(want.1 ==> body[1 + t + p + n] == (w_nodes6(), Bencode::Bytes(n6)));
    lemma_first_with_key(body, seq![105u8, 100], 0);
    lemma_first_with_key(
        body,
        seq![116u8, 111, 107, 101, 110],
        if t == 1 {
            1
        } else {
            body.len() as int
        },
    );
    lemma_first_with_key(
        body,
        w_values(),
        if p == 1 {
            1 + t
        } else {
            body.len() as int
        },
    );
    lemma_first_with_key(
        body,
        w_nodes(),
        if want.0 {
            1 + t + p
        } else {
            body.len() as int
        },
    );
    lemma_first_with_key(
        body,
        w_nodes6(),
        if want.1 {
            1 + t + p + n
        } else {
            body.len() as int
        },
    );
    lemma_left_of_itself(body);
    if known.len() <= 170 {
        assert(capped(body, w_values(), 6) =~= body);
        let k4 = n4.len() as int / 26;
        let k6 = n6.len() as int / 38;
        assert(n4.len() == k4 * 26 && n6.len() == k6 * 38);
        assert(n4.take(n4.len() as int) =~= n4);
        assert(n6.take(n6.len() as int) =~= n6);
        assert(capped(body, w_nodes(), 26) =~= body);
        assert(capped(body, w_nodes6(), 38) =~= body);
    }
}

proof fn lemma_names_contacts(
    s: ServerModel,
    body: Seq<(Seq<u8>, Bencode)>,
    args: Bencode,
    from: SocketAddr,
    near: Seq<(Id20, SocketAddr)>,
)
    requires
        lookup(body, w_nodes()) == (if wants(args, from, false) {
            Some(Bencode::Bytes(compact_forms(near, false)))
        } else {
            None
        }),
        lookup(body, w_nodes6()) == (if wants(args, from, true) {
            Some(Bencode::Bytes(compact_forms(near, true)))
        } else {
            None
        }),
    ensures
        names_contacts(body, args, from, near),
{
    lemma_keys_differ();
    compact_forms_are_read(near, false);
    compact_forms_are_read(near, true);
    assert forall|id: Id20, addr: SocketAddr| #[trigger]
        nodes_in(compact_forms(near, false), false).contains((id, addr)) <==> near.contains(
        (id, addr),
    ) && addr.ip is V4 && routable(addr) by {}
}

/// True of the questions with a name and arguments, by the node `id`.
pub open spec fn asks(
    msg: Bencode,
    tid: Seq<u8>,
    name: Seq<u8>,
    args: Bencode,
    id: Id20,
) -> bool {
    &&& bytes_field(msg, seq![116u8]) == Some(tid)
    &&& 1 <= tid.len() <= 32
    &&& bytes_field(msg, seq![113u8]) == Some(name)
    &&& field(msg, seq![97u8]) == Some(args)
    &&& args is Dict
    &&& bytes_field(args, seq![105u8, 100]) == Some(id@)
}

/// A question for the nodes near an identifier is answered with the nearest contacts: exactly
/// those of the up to 16 live contacts of both tables nearest to the identifier that is asked for
/// that are of a wanted address family. Where a live contact is left out while others are named,
/// these are at least as near to it.
pub proof fn what_find_node_is_answered(
    s: ServerModel,
    msg: Bencode,
    tid: Seq<u8>,
    args: Bencode,
    id: Id20,
    target: Id20,
    from: SocketAddr,
    now: u64,
    fresh: [u8; 16],
)
    requires
        asks(msg, tid, seq![102u8, 105, 110, 100, 95, 110, 111, 100, 101], args, id),
        bytes_field(args, seq![116u8, 97, 114, 103, 101, 116]) == Some(target@),
    ensures
        handle(s, msg, from, now, fresh).0 == heard(s, id, from, now),
        handle(s, msg, from, now, fresh).1 matches Some(datagram) && exists|
            near: Seq<(Id20, SocketAddr)>,
            body: Seq<(Seq<u8>, Bencode)>,
        |
            {
                &&& nearest_of_both(heard(s, id, from, now), target, 16, near)
                &&& replies(datagram, tid, s.our_id, body)
                &&& #[trigger] names_contacts(body, args, from, near)
            },
{
    let now_known = heard(s, id, from, now);
    id20_is_its_bytes(id);
    id20_is_its_bytes(target);
    let (near, body) = lemma_find_reply(tid, now_known, target, args, from);
    lemma_found(s, msg, tid, args, id, target, from, now, fresh);
    assert(names_contacts(body, args, from, near));
}

proof fn lemma_found(
    s: ServerModel,
    msg: Bencode,
    tid: Seq<u8>,
    args: Bencode,
    id: Id20,
    target: Id20,
    from: SocketAddr,
    now: u64,
    fresh: [u8; 16],
)
    requires
        asks(msg, tid, seq![102u8, 105, 110, 100, 95, 110, 111, 100, 101], args, id),
        bytes_field(args, seq![116u8, 97, 114, 103, 101, 116]) == Some(target@),
    ensures
        handle(s, msg, from, now, fresh) == (
            heard(s, id, from, now),
            Some(
                bounded(
                    response(
                        tid,
                        results(
                            heard(s, id, from, now),
                            contact_entries(
                                closest_of(heard(s, id, from, now), target, 16),
                                crate::dht::krpc::wanted(args, from),
                            ),
                        ),
                    ),
                ),
            ),
        ),
{
    id20_is_its_bytes(id);
    id20_is_its_bytes(target);
    assert(seq![102u8, 105, 110, 100, 95, 110, 111, 100, 101][0] == 102u8 && seq![112u8, 105, 110, 103][0] == 112u8);
}

proof fn lemma_find_reply(
    tid: Seq<u8>,
    s: ServerModel,
    target: Id20,
    args: Bencode,
    from: SocketAddr,
) -> (r: (Seq<(Id20, SocketAddr)>, Seq<(Seq<u8>, Bencode)>))
    requires
        tid.len() <= 32,
    ensures
        nearest_of_both(s, target, 16, r.0),
        replies(
            bounded(
                response(
                    tid,
                    results(
                        s,
                        contact_entries(
                            closest_of(s, target, 16),
                            crate::dht::krpc::wanted(args, from),
                        ),
                    ),
                ),
            ),
            tid,
            s.our_id,
            r.1,
        ),
        names_contacts(r.1, args, from, r.0),
{
    let near = closest_of(s, target, 16);
    let none = Seq::<(Seq<u8>, Bencode)>::empty();
    let nobody = Seq::<SocketAddr>::empty();
    let want = crate::dht::krpc::wanted(args, from);
    lemma_wanted(args, from);
    the_nearest_of_both(s, target, 16);
    let more = contact_entries(near, want);
    assert(none + peer_entries(nobody) + more =~= more);
    lemma_body(s, none, nobody, near, want);
    lemma_whole_reply(tid, s, none, nobody, near, want);
    let body = lemma_bounded_left(tid, s, more);
    assert(body == results(s, more));
    lemma_shape(tid, s, more, body);
    lemma_names_contacts(s, body, args, from, near);
    (near, body)
}

/// A greeting is answered with our name and nothing else.
pub proof fn what_ping_is_answered(
    s: ServerModel,
    msg: Bencode,
    tid: Seq<u8>,
    args: Bencode,
    id: Id20,
    from: SocketAddr,
    now: u64,
    fresh: [u8; 16],
)
    requires
        asks(msg, tid, seq![112u8, 105, 110, 103], args, id),
    ensures
        handle(s, msg, from, now, fresh).0 == heard(s, id, from, now),
        handle(s, msg, from, now, fresh).1 matches Some(datagram) && replies(
            datagram,
            tid,
            s.our_id,
            seq![(seq![105u8, 100], Bencode::Bytes(s.our_id@))],
        ),
{
    let now_known = heard(s, id, from, now);
    id20_is_its_bytes(id);
    lemma_bare_reply(tid, now_known);
}

proof fn lemma_bare_reply(tid: Seq<u8>, s: ServerModel)
    requires
        tid.len() <= 32,
    ensures
        replies(
            bounded(response(tid, results(s, seq![]))),
            tid,
            s.our_id,
            seq![(seq![105u8, 100], Bencode::Bytes(s.our_id@))],
        ),
{
    let none = Seq::<(Seq<u8>, Bencode)>::empty();
    let nobody = Seq::<SocketAddr>::empty();
    let nothing = Seq::<(Id20, SocketAddr)>::empty();
    let more = none + peer_entries(nobody) + contact_entries(nothing, (false, false));
    assert(more =~= seq![]);
    lemma_body(s, none, nobody, nothing, (false, false));
    lemma_whole_reply(tid, s, none, nobody, nothing, (false, false));
    let body = lemma_bounded_left(tid, s, more);
    assert(body == results(s, more));
    assert(body =~= seq![(seq![105u8, 100], Bencode::Bytes(s.our_id@))]);
    lemma_shape(tid, s, more, body);
}

/// True when `addr` is a stored peer of a torrent, of an address family.
pub open spec fn is_stored(peers: Seq<StoredPeer>, hash: Id20, v6: bool, addr: SocketAddr) -> bool {
    (addr.ip is V6) == v6 && exists|p: StoredPeer| #[trigger]
        peers.contains(p) && p.hash == hash && p.addr == addr
}

proof fn lemma_pushed<T>(s: Seq<T>, last: T, x: T)
    ensures
        s.push(last).contains(x) <==> s.contains(x) || x == last,
{
    let t = s.push(last);
    assert(t[s.len() as int] == last);
    if s.contains(x) {
        let i = choose|i: int| 0 <= i < s.len() && s[i] == x;
        assert(t[i] == x);
    }
    if t.contains(x) {
        let i = choose|i: int| 0 <= i < t.len() && t[i] == x;
        if i < s.len() {
            assert(s[i] == x);
        }
    }
}

/// The peers that are named for a torrent are exactly those that are stored for it, of the asked
/// address family.
pub proof fn stored_peers_are_named(peers: Seq<StoredPeer>, hash: Id20, v6: bool)
    ensures
        forall|addr: SocketAddr| #[trigger]
            peers_of(peers, hash, Some(v6)).contains(addr) <==> is_stored(peers, hash, v6, addr),
    decreases peers.len(),
{
    if peers.len() > 0 {
        let front = peers.drop_last();
        let last = peers.last();
        stored_peers_are_named(front, hash, v6);
        assert(peers =~= front.push(last));
        let before = peers_of(front, hash, Some(v6));
        assert forall|addr: SocketAddr| #[trigger]
            peers_of(peers, hash, Some(v6)).contains(addr) <==> is_stored(
            peers,
            hash,
            v6,
            addr,
        ) by {
            lemma_pushed(before, last.addr, addr);
            assert(before.contains(addr) <==> is_stored(front, hash, v6, addr));
            if is_stored(front, hash, v6, addr) {
                let p = choose|p: StoredPeer| #[trigger]
                    front.contains(p) && p.hash == hash && p.addr == addr;
                lemma_pushed(front, last, p);
            }
            if is_stored(peers, hash, v6, addr) {
                let p = choose|p: StoredPeer| #[trigger]
                    peers.contains(p) && p.hash == hash && p.addr == addr;
                lemma_pushed(front, last, p);
            }
            lemma_pushed(front, last, last);
        }
    }
}

/// Half an hour after the last sign of it a peer of the torrent that is asked for is forgotten, and
/// no other.
pub proof fn old_peers_are_forgotten(peers: Seq<StoredPeer>, hash: Id20, now: u64)
    ensures
        forall|p: StoredPeer| #[trigger]
            without_expired(peers, hash, now).contains(p) <==> peers.contains(p) && !(p.hash == hash
                && now - p.seen > 1_800_000),
    decreases peers.len(),
{
    if peers.len() > 0 {
        let front = peers.drop_last();
        let last = peers.last();
        old_peers_are_forgotten(front, hash, now);
        assert(peers =~= front.push(last));
        let before = without_expired(front, hash, now);
        assert forall|p: StoredPeer| #[trigger]
            without_expired(peers, hash, now).contains(p) <==> peers.contains(p) && !(p.hash == hash
                && now - p.seen > 1_800_000) by {
            lemma_pushed(before, last, p);
            lemma_pushed(front, last, p);
            assert(before.contains(p) <==> front.contains(p) && !(p.hash == hash && now - p.seen
                > 1_800_000));
        }
    }
}

/// True when the results name peers from the front of a list: all of them where there are at most
/// ten.
pub open spec fn names_peers(body: Seq<(Seq<u8>, Bencode)>, known: Seq<SocketAddr>) -> bool {
    match lookup(body, seq![118u8, 97, 108, 117, 101, 115]) {
        Some(Bencode::List(l)) => {
            &&& l.len() <= known.len()
            &&& known.len() <= 10 ==> l.len() == known.len()
            &&& forall|i: int|
                0 <= i < l.len() ==> #[trigger] l[i] == Bencode::Bytes(compact(known[i]))
        },
        Some(_) => false,
        None => known.len() == 0 || known.len() > 10,
    }
}

/// True when the results name no contacts but those of a list, and none of an address family that
/// is not wanted.
pub open spec fn names_only(
    body: Seq<(Seq<u8>, Bencode)>,
    args: Bencode,
    from: SocketAddr,
    near: Seq<(Id20, SocketAddr)>,
) -> bool {
    &&& match lookup(body, seq![110u8, 111, 100, 101, 115]) {
        Some(Bencode::Bytes(b)) => wants(args, from, false) && forall|id: Id20, addr: SocketAddr|
            #[trigger]
            nodes_in(b, false).contains((id, addr)) ==> near.contains((id, addr)),
        Some(_) => false,
        None => true,
    }
    &&& match lookup(body, seq![110u8, 111, 100, 101, 115, 54]) {
        Some(Bencode::Bytes(b)) => wants(args, from, true) && forall|id: Id20, addr: SocketAddr|
            #[trigger]
            nodes_in(b, true).contains((id, addr)) ==> near.contains((id, addr)),
        Some(_) => false,
        None => true,
    }
}

/// True when a datagram answers a question for the peers of a torrent: with the token of the
/// asker, with the peers that are stored, and with the contacts nearest to the torrent.
pub open spec fn tells_of_peers(
    datagram: Seq<u8>,
    tid: Seq<u8>,
    s: ServerModel,
    secret: Seq<u8>,
    peers: Seq<StoredPeer>,
    hash: Id20,
    args: Bencode,
    from: SocketAddr,
    known: Seq<SocketAddr>,
    near: Seq<(Id20, SocketAddr)>,
    body: Seq<(Seq<u8>, Bencode)>,
) -> bool {
    &&& replies(datagram, tid, s.our_id, body)
    &&& lookup(body, seq![116u8, 111, 107, 101, 110]) == Some(
        Bencode::Bytes(
            {
                let digest = sha1_digest(secret + from.ip.octets_of());
                digest.take(
                    if digest.len() < 8 {
                        digest.len() as int
                    } else {
                        8
                    },
                )
            },
        ),
    )
    &&& forall|addr: SocketAddr| #[trigger]
        known.contains(addr) <==> is_stored(peers, hash, from.ip is V6, addr)
    &&& names_peers(body, known)
    &&& nearest_of_both(s, hash, 16, near)
    &&& names_only(body, args, from, near)
    &&& known.len() <= 10 ==> names_contacts(body, args, from, near)
}

proof fn lemma_peers_reply(
    tid: Seq<u8>,
    s: ServerModel,
    secret: Seq<u8>,
    peers: Seq<StoredPeer>,
    hash: Id20,
    args: Bencode,
    from: SocketAddr,
) -> (body: Seq<(Seq<u8>, Bencode)>)
    requires
        tid.len() <= 32,
    ensures
        ({
            let known = peers_of(peers, hash, Some(from.ip is V6));
            let near = closest_of(s, hash, 16);
            let token = (seq![116u8, 111, 107, 101, 110], Bencode::Bytes(crate::dht::server::token_of(secret, from)));
            let more = seq![token] + peer_entries(known) + contact_entries(
                near,
                crate::dht::krpc::wanted(args, from),
            );
            tells_of_peers(
                bounded(response(tid, results(s, more))),
                tid,
                s,
                secret,
                peers,
                hash,
                args,
                from,
                known,
                near,
                body,
            )
        }),
{
    let known = peers_of(peers, hash, Some(from.ip is V6));
    let near = closest_of(s, hash, 16);
    let word = crate::dht::server::token_of(secret, from);
    let token = seq![(seq![116u8, 111, 107, 101, 110], Bencode::Bytes(word))];
    let want = crate::dht::krpc::wanted(args, from);
    let more = token + peer_entries(known) + contact_entries(near, want);
    let digest = sha1_digest(secret + from.ip.octets_of());
    assert(digest.take(digest.len() as int) =~= digest);
    lemma_keys_differ();
    lemma_wanted(args, from);
    the_nearest_of_both(s, hash, 16);
    stored_peers_are_named(peers, hash, from.ip is V6);
    lemma_body(s, token, known, near, want);
    if known.len() <= 10 {
        lemma_whole_reply(tid, s, token, known, near, want);
    }
    let whole = results(s, more);
    let body = lemma_bounded_left(tid, s, more);
    lemma_shape(tid, s, more, body);
    if known.len() <= 10 {
        assert(body == whole);
        lemma_names_contacts(s, body, args, from, near);
    }
    assert(names_peers(body, known)) by {
        if let Some(Bencode::List(l)) = lookup(body, w_values()) {
            let items = peer_items(known);
            assert(l == items.take(l.len() as int));
            assert forall|i: int| 0 <= i < l.len() implies #[trigger] l[i] == Bencode::Bytes(
                compact(known[i]),
            ) by {
                assert(l[i] == items[i]);
            }
        }
    }
    assert(names_only(body, args, from, near)) by {
        compact_forms_are_read(near, false);
        compact_forms_are_read(near, true);
        if let Some(Bencode::Bytes(b)) = lookup(body, w_nodes()) {
            let forms = compact_forms(near, false);
            let n = choose|n: int|
                0 <= n && #[trigger] (n * 26) <= forms.len() && b == forms.take(n * 26);
            more_forms_tell_of_more(forms, false, n);
            assert forall|id: Id20, addr: SocketAddr| #[trigger]
                nodes_in(b, false).contains((id, addr)) implies near.contains((id, addr)) by {
                assert(nodes_in(forms, false).contains((id, addr)));
            }
        }
        if let Some(Bencode::Bytes(b)) = lookup(body, w_nodes6()) {
            let forms = compact_forms(near, true);
            let n = choose|n: int|
                0 <= n && #[trigger] (n * 38) <= forms.len() && b == forms.take(n * 38);
            more_forms_tell_of_more(forms, true, n);
            assert forall|id: Id20, addr: SocketAddr| #[trigger]
                nodes_in(b, true).contains((id, addr)) implies near.contains((id, addr)) by {
                assert(nodes_in(forms, true).contains((id, addr)));
            }
        }
    }
    body
}

/// True when the secrets are those of before, or five minutes have gone by and a new one came.
pub open spec fn secrets_follow(
    before: TokenState,
    after: TokenState,
    now: u64,
    fresh: [u8; 16],
) -> bool {
    if now - before.rotated < 300_000 {
        after == before
    } else {
        after.current == fresh && after.previous == before.current && after.rotated == now
    }
}

/// A question for the peers of a torrent is answered with every peer that is stored for it, of the
/// asker's address family, where there are at most ten; where there are more, with some of them
/// and with none that is not stored. The token is good for the asker's address, and the contacts
/// are those nearest to the torrent. Peers that have not been heard of for half an hour are gone.
pub proof fn what_get_peers_is_answered(
    s: ServerModel,
    msg: Bencode,
    tid: Seq<u8>,
    args: Bencode,
    id: Id20,
    hash: Id20,
    from: SocketAddr,
    now: u64,
    fresh: [u8; 16],
)
    requires
        asks(msg, tid, seq![103u8, 101, 116, 95, 112, 101, 101, 114, 115], args, id),
        bytes_field(args, seq![105u8, 110, 102, 111, 95, 104, 97, 115, 104]) == Some(hash@),
    ensures
        ({
            let (after, reply) = handle(s, msg, from, now, fresh);
            let known_now = heard(s, id, from, now);
            &&& after == (ServerModel { peers: after.peers, tokens: after.tokens, ..known_now })
            &&& secrets_follow(s.tokens, after.tokens, now, fresh)
            &&& forall|p: StoredPeer| #[trigger]
                after.peers.contains(p) <==> s.peers.contains(p) && !(p.hash == hash && now - p.seen
                    > 1_800_000)
            &&& reply matches Some(datagram) && exists|
                known: Seq<SocketAddr>,
                near: Seq<(Id20, SocketAddr)>,
                body: Seq<(Seq<u8>, Bencode)>,
            | #[trigger]
                tells_of_peers(
                    datagram,
                    tid,
                    known_now,
                    after.tokens.current@,
                    after.peers,
                    hash,
                    args,
                    from,
                    known,
                    near,
                    body,
                )
        }),
{
    let known_now = heard(s, id, from, now);
    id20_is_its_bytes(id);
    id20_is_its_bytes(hash);
    old_peers_are_forgotten(s.peers, hash, now);
    assert(seq![103u8, 101, 116, 95, 112, 101, 101, 114, 115][0] == 103u8 && seq![102u8, 105, 110, 100, 95, 110, 111, 100, 101][0] == 102u8 && seq![112u8, 105, 110, 103][0] == 112u8);
    let out = handle(s, msg, from, now, fresh);
    let secret = out.0.tokens.current@;
    let body = lemma_peers_reply(tid, known_now, secret, out.0.peers, hash, args, from);
    let known = peers_of(out.0.peers, hash, Some(from.ip is V6));
    let near = closest_of(known_now, hash, 16);
    assert(tells_of_peers(
        out.1->0,
        tid,
        known_now,
        secret,
        out.0.peers,
        hash,
        args,
        from,
        known,
        near,
        body,
    ));
}

/// True of the tokens that were given to an address under one of the two secrets.
pub open spec fn token_is_good(t: TokenState, from: SocketAddr, token: Seq<u8>) -> bool {
    let a = sha1_digest(t.current@ + from.ip.octets_of());
    let b = sha1_digest(t.previous@ + from.ip.octets_of());
    ||| token == a.take(
        if a.len() < 8 {
            a.len() as int
        } else {
            8
        },
    )
    ||| token == b.take(
        if b.len() < 8 {
            b.len() as int
        } else {
            8
        },
    )
}

/// The port that an announcement is for, zero where there is none: that of the sender where the
/// announcement says so, else the one it gives.
pub open spec fn port_of(args: Bencode, from: SocketAddr) -> int {
    if int_field(args, seq![105u8, 109, 112, 108, 105, 101, 100, 95, 112, 111, 114, 116]) == Some(1int) {
        from.port as int
    } else {
        match int_field(args, seq![112u8, 111, 114, 116]) {
            Some(p) => if 0 <= p <= 65535 {
                p
            } else {
                0
            },
            None => 0,
        }
    }
}

/// What storing a peer does: the peer is stored as of now, once, every other peer stays as it was
/// but for at most one, and that one only where there is no room for more than 2048; it has then
/// not been heard of for the longest time.
pub open spec fn stores(
    before: Seq<StoredPeer>,
    after: Seq<StoredPeer>,
    peer: StoredPeer,
) -> bool {
    &&& after.contains(peer)
    &&& forall|p: StoredPeer| #[trigger]
        after.contains(p) ==> p == peer || before.contains(p)
    &&& forall|p: StoredPeer| #[trigger]
        before.contains(p) && !(p.hash == peer.hash && p.addr == peer.addr) && !after.contains(p)
            ==> before.len() >= 2048 && forall|q: StoredPeer| #[trigger]
            before.contains(q) ==> p.seen <= q.seen
    &&& after.len() <= 2048
    &&& after.len() >= before.len()
}

proof fn lemma_oldest_of_all(peers: Seq<StoredPeer>)
    requires
        peers.len() > 0,
    ensures
        0 <= oldest(peers) < peers.len(),
        forall|i: int| 0 <= i < peers.len() ==> peers[oldest(peers)].seen <= (#[trigger] peers[i]).seen,
    decreases peers.len(),
{
    if peers.len() > 1 {
        let front = peers.drop_last();
        lemma_oldest_of_all(front);
        assert forall|i: int| 0 <= i < peers.len() implies peers[oldest(peers)].seen <= (
        #[trigger] peers[i]).seen by {
            if i < front.len() {
                assert(front[i] == peers[i]);
            }
        }
    }
}

/// A peer that announces itself is stored, and takes the place of nobody but the one that was not
/// heard of for the longest time, and of that one only where there is no room.
pub proof fn what_an_announcement_stores(
    peers: Seq<StoredPeer>,
    hash: Id20,
    addr: SocketAddr,
    now: u64,
)
    requires
        peers.len() <= 2048,
        forall|i: int| 0 <= i < peers.len() ==> (#[trigger] peers[i]).seen <= now,
        forall|i: int, j: int|
            0 <= i < j < peers.len() ==> !((#[trigger] peers[i]).hash == (
            #[trigger] peers[j]).hash && peers[i].addr == peers[j].addr),
    ensures
        stores(peers, announced(peers, hash, addr, now), StoredPeer { hash, addr, seen: now }),
{
    let peer = StoredPeer { hash, addr, seen: now };
    let after = announced(peers, hash, addr, now);
    let at = stored_at(peers, hash, addr);
    lemma_stored_in_range(peers, hash, addr);
    if at < peers.len() {
        assert(after[at] == peer);
        assert forall|p: StoredPeer| #[trigger] after.contains(p) implies p == peer
            || peers.contains(p) by {
            let i = choose|i: int| 0 <= i < after.len() && after[i] == p;
            if i != at {
                assert(peers[i] == p);
            }
        }
        assert forall|p: StoredPeer| #[trigger]
            peers.contains(p) && !(p.hash == hash && p.addr == addr) implies after.contains(p) by {
            let i = choose|i: int| 0 <= i < peers.len() && peers[i] == p;
            assert(i != at);
            assert(after[i] == p);
        }
    } else {
        let all = peers.push(peer);
        assert forall|p: StoredPeer| #[trigger] all.contains(p) <==> peers.contains(p) || p
            == peer by {
            lemma_pushed(peers, peer, p);
        }
        if all.len() > 2048 {
            lemma_oldest_of_all(all);
            lemma_oldest_of_all(peers);
            assert(all.drop_last() =~= peers);
            assert(oldest(all) == oldest(peers));
            let gone = oldest(all);
            assert(after == all.remove(gone));
            assert(after[after.len() - 1] == peer);
            assert forall|p: StoredPeer| #[trigger] after.contains(p) implies p == peer
                || peers.contains(p) by {
                let i = choose|i: int| 0 <= i < after.len() && after[i] == p;
                assert(all[if i < gone {
                    i
                } else {
                    i + 1
                }] == p);
                assert(all.contains(p));
            }
            assert forall|p: StoredPeer| #[trigger]
                peers.contains(p) && !(p.hash == hash && p.addr == addr) && !after.contains(
                    p,
                ) implies peers.len() >= 2048 && forall|q: StoredPeer| #[trigger]
                peers.contains(q) ==> p.seen <= q.seen by {
                let i = choose|i: int| 0 <= i < peers.len() && peers[i] == p;
                if i < gone {
                    assert(after[i] == p);
                } else if i > gone {
                    assert(after[i - 1] == p);
                }
                assert(i == gone);
                assert forall|q: StoredPeer| #[trigger] peers.contains(q) implies p.seen
                    <= q.seen by {
                    let j = choose|j: int| 0 <= j < peers.len() && peers[j] == q;
                    assert(peers[gone].seen <= peers[j].seen);
                }
            }
        } else {
            assert(after[peers.len() as int] == peer);
        }
    }
}

proof fn lemma_refuses(tid: Seq<u8>, code: int, message: Seq<u8>)
    ensures
        refuses(encode(crate::dht::krpc::error_reply(tid, code, message)), tid, code),
{
    reveal(refuses);
    let e = Bencode::List(seq![Bencode::Int(code), Bencode::Bytes(message)]);
    let d = seq![(seq![101u8], e), (seq![116u8], Bencode::Bytes(tid)), (seq![121u8], Bencode::Bytes(seq![101u8]))];
    assert(crate::dht::krpc::error_reply(tid, code, message) == Bencode::Dict(d));
    assert(seq![101u8][0] == 101u8 && seq![116u8][0] == 116u8 && seq![121u8][0] == 121u8);
    assert(d[0].0 == seq![101u8] && d[1].0 == seq![116u8] && d[2].0 == seq![121u8]);
    lemma_first_with_key(d, seq![101u8], 0);
    lemma_first_with_key(d, seq![116u8], 1);
    lemma_first_with_key(d, seq![121u8], 2);
    assert(encode(Bencode::Dict(d)) == encode(Bencode::Dict(d)));
}

/// An announcement is accepted exactly where its token is good for the sender's address, its port
/// is one, and the flag for the sender's own port is 0, 1 or missing. The sender is then stored for
/// the torrent, under that port, unless the torrent is private; and is answered with our name.
/// Anything else is refused with an error, and nobody is stored.
pub proof fn what_an_announcement_is_answered(
    s: ServerModel,
    msg: Bencode,
    tid: Seq<u8>,
    args: Bencode,
    id: Id20,
    hash: Id20,
    token: Seq<u8>,
    from: SocketAddr,
    now: u64,
    fresh: [u8; 16],
)
    requires
        asks(msg, tid, seq![97u8, 110, 110, 111, 117, 110, 99, 101, 95, 112, 101, 101, 114], args, id),
        bytes_field(args, seq![105u8, 110, 102, 111, 95, 104, 97, 115, 104]) == Some(hash@),
        bytes_field(args, seq![116u8, 111, 107, 101, 110]) == Some(token),
    ensures
        ({
            let (after, reply) = handle(s, msg, from, now, fresh);
            let implied = int_field(args, seq![105u8, 109, 112, 108, 105, 101, 100, 95, 112, 111, 114, 116]);
            let good = token_is_good(after.tokens, from, token) && (implied is None || implied
                == Some(0int) || implied == Some(1int)) && port_of(args, from) != 0;
            &&& after == (ServerModel {
                peers: after.peers,
                tokens: after.tokens,
                ..heard(s, id, from, now)
            })
            &&& secrets_follow(s.tokens, after.tokens, now, fresh)
            &&& reply is Some
            &&& good ==> replies(
                reply->0,
                tid,
                s.our_id,
                seq![(seq![105u8, 100], Bencode::Bytes(s.our_id@))],
            )
            &&& good && !s.private_hashes.contains(hash) ==> after.peers == announced(
                s.peers,
                hash,
                SocketAddr { ip: from.ip, port: port_of(args, from) as u16 },
                now,
            )
            &&& !good || s.private_hashes.contains(hash) ==> after.peers == s.peers
            &&& !good ==> refuses(reply->0, tid, 203)
        }),
{
    let known_now = heard(s, id, from, now);
    lemma_announcing(s, msg, tid, args, id, from, now, fresh);
    id20_is_its_bytes(hash);
    lemma_announce_cases(known_now, tid, args, hash, token, from, now, fresh);
}

proof fn lemma_announce_cases(
    s: ServerModel,
    tid: Seq<u8>,
    args: Bencode,
    hash: Id20,
    token: Seq<u8>,
    from: SocketAddr,
    now: u64,
    fresh: [u8; 16],
)
    requires
        tid.len() <= 32,
        bytes_field(args, seq![105u8, 110, 102, 111, 95, 104, 97, 115, 104]) == Some(hash@),
        bytes_field(args, seq![116u8, 111, 107, 101, 110]) == Some(token),
    ensures
        ({
            let (after, reply) = handle_announce(s, tid, args, from, now, fresh);
            let implied = int_field(
                args,
                seq![105u8, 109, 112, 108, 105, 101, 100, 95, 112, 111, 114, 116],
            );
            let good = token_is_good(after.tokens, from, token) && (implied is None || implied
                == Some(0int) || implied == Some(1int)) && port_of(args, from) != 0;
            &&& after == (ServerModel { peers: after.peers, tokens: after.tokens, ..s })
            &&& secrets_follow(s.tokens, after.tokens, now, fresh)
            &&& reply is Some
            &&& good ==> replies(
                reply->0,
                tid,
                s.our_id,
                seq![(seq![105u8, 100], Bencode::Bytes(s.our_id@))],
            )
            &&& good && !s.private_hashes.contains(hash) ==> after.peers == announced(
                s.peers,
                hash,
                SocketAddr { ip: from.ip, port: port_of(args, from) as u16 },
                now,
            )
            &&& !good || s.private_hashes.contains(hash) ==> after.peers == s.peers
            &&& !good ==> refuses(reply->0, tid, 203)
        }),
{
    let out = handle_announce(s, tid, args, from, now, fresh);
    id20_is_its_bytes(hash);
    let tokens = crate::dht::server::rotated(s.tokens, now, fresh);
    assert(out.0.tokens == tokens);
    lemma_tokens(tokens, from, token);
    let port = port_of(args, from);
    let implied = int_field(
        args,
        seq![105u8, 109, 112, 108, 105, 101, 100, 95, 112, 111, 114, 116],
    );
    assert(secrets_follow(s.tokens, tokens, now, fresh));
    if !token_is_good(tokens, from, token) {
        lemma_refuses(tid, 203, crate::words::w_invalid_token());
    } else if !(implied is None || implied == Some(0int) || implied == Some(1int)) {
        lemma_refuses(tid, 203, crate::words::w_invalid_implied_port());
    } else if port == 0 {
        lemma_refuses(tid, 203, crate::words::w_invalid_port());
    } else {
        lemma_bare_reply(tid, s);
    }
}

proof fn lemma_tokens(t: TokenState, from: SocketAddr, token: Seq<u8>)
    ensures
        token_is_good(t, from, token) == accepts(t, from, token),
{
    let a = sha1_digest(t.current@ + from.ip.octets_of());
    let b = sha1_digest(t.previous@ + from.ip.octets_of());
    assert(a.take(a.len() as int) =~= a);
    assert(b.take(b.len() as int) =~= b);
}

proof fn lemma_announcing(
    s: ServerModel,
    msg: Bencode,
    tid: Seq<u8>,
    args: Bencode,
    id: Id20,
    from: SocketAddr,
    now: u64,
    fresh: [u8; 16],
)
    requires
        asks(msg, tid, seq![97u8, 110, 110, 111, 117, 110, 99, 101, 95, 112, 101, 101, 114], args, id),
    ensures
        handle(s, msg, from, now, fresh) == handle_announce(
            heard(s, id, from, now),
            tid,
            args,
            from,
            now,
            fresh,
        ),
{
    id20_is_its_bytes(id);
    assert(seq![97u8, 110, 110, 111, 117, 110, 99, 101, 95, 112, 101, 101, 114][0] == 97u8 && seq![103u8, 101, 116, 95, 112, 101, 101, 114, 115][0] == 103u8 && seq![102u8, 105, 110, 100, 95, 110, 111, 100, 101][0] == 102u8 && seq![112u8, 105, 110, 103][0] == 112u8);
}

/// A message without a transaction that can be echoed is not answered. One without a question,
/// without arguments or without the name of the asker is refused, and changes nothing. A question
/// of another kind is refused with the code for unknown ones; so is one that lacks what its kind
/// needs, with the code for faults.
pub proof fn what_is_refused(
    s: ServerModel,
    msg: Bencode,
    from: SocketAddr,
    now: u64,
    fresh: [u8; 16],
)
    ensures
        ({
            let (after, reply) = handle(s, msg, from, now, fresh);
            let tid = bytes_field(msg, seq![116u8]);
            let echoed = tid matches Some(t) && 1 <= t.len() <= 32;
            let name = bytes_field(msg, seq![113u8]);
            let args = field(msg, seq![97u8]);
            let whole = name is Some && args is Some && args->0 is Dict && (bytes_field(
                args->0,
                seq![105u8, 100],
            ) matches Some(b) && b.len() == 20);
            &&& !echoed ==> reply is None && after == s
            &&& echoed ==> reply is Some
            &&& echoed && !whole ==> refuses(reply->0, tid->0, 203) && after == s
            &&& echoed && whole && name != Some(seq![112u8, 105, 110, 103]) && name != Some(seq![102u8, 105, 110, 100, 95, 110, 111, 100, 101]) && name != Some(
                seq![103u8, 101, 116, 95, 112, 101, 101, 114, 115],
            ) && name != Some(seq![97u8, 110, 110, 111, 117, 110, 99, 101, 95, 112, 101, 101, 114]) ==> refuses(reply->0, tid->0, 204)
            &&& echoed && whole && name == Some(seq![102u8, 105, 110, 100, 95, 110, 111, 100, 101]) && !(bytes_field(
                args->0,
                seq![116u8, 97, 114, 103, 101, 116],
            ) matches Some(b) && b.len() == 20) ==> refuses(reply->0, tid->0, 203)
            &&& echoed && whole && (name == Some(seq![103u8, 101, 116, 95, 112, 101, 101, 114, 115]) || name == Some(seq![97u8, 110, 110, 111, 117, 110, 99, 101, 95, 112, 101, 101, 114])) && !(
            bytes_field(args->0, seq![105u8, 110, 102, 111, 95, 104, 97, 115, 104]) matches Some(b) && b.len() == 20) ==> refuses(
                reply->0,
                tid->0,
                203,
            )
        }),
{
    assert(seq![97u8, 110, 110, 111, 117, 110, 99, 101, 95, 112, 101, 101, 114][0] == 97u8 && seq![103u8, 101, 116, 95, 112, 101, 101, 114, 115][0] == 103u8 && seq![102u8, 105, 110, 100, 95, 110, 111, 100, 101][0] == 102u8
        && seq![112u8, 105, 110, 103][0] == 112u8);
    if let Some(tid) = bytes_field(msg, seq![116u8]) {
        lemma_refuses(tid, 203, crate::words::w_missing_query());
        lemma_refuses(tid, 203, crate::words::w_missing_arguments());
        lemma_refuses(tid, 203, crate::words::w_invalid_id());
        lemma_refuses(tid, 203, crate::words::w_invalid_target());
        lemma_refuses(tid, 203, crate::words::w_invalid_info_hash());
        lemma_refuses(tid, 204, crate::words::w_method_unknown());
    }
}

/// A node that asks is known afterwards only where it can be reached, and only in the table of its
/// own address family.
pub proof fn what_a_question_teaches(s: ServerModel, id: Id20, from: SocketAddr, now: u64)
    ensures
        ({
            let after = heard(s, id, from, now);
            &&& after == (ServerModel { routing: after.routing, routing6: after.routing6, ..s })
            &&& !routable(from) ==> after == s
            &&& from.ip is V4 ==> after.routing6 == s.routing6
            &&& from.ip is V6 ==> after.routing == s.routing
            &&& routable(from) && from.ip is V4 ==> after.routing == with_node(
                s.routing,
                s.our_id,
                RoutingNode {
                    id,
                    addr: from,
                    last_seen: now,
                    liveness: RoutingLiveness::Questionable,
                },
            )
            &&& routable(from) && from.ip is V6 ==> after.routing6 == with_node(
                s.routing6,
                s.our_id,
                RoutingNode {
                    id,
                    addr: from,
                    last_seen: now,
                    liveness: RoutingLiveness::Questionable,
                },
            )
        }),
{
}

} // verus!
