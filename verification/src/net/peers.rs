//! Peers in compact form, one behind the other.

use vstd::prelude::*;

use crate::net::{
    address_of, compact, compact_round_trip, push_compact, read_compact, SocketAddr,
};

verus! {

/// The endpoints in the first `k` compact forms that peers can have.
pub open spec fn first_peers(s: Seq<u8>, v6: bool, k: nat) -> Seq<SocketAddr>
    decreases k,
{
    if k == 0 {
        seq![]
    } else {
        let before = first_peers(s, v6, (k - 1) as nat);
        let addr = address_of(s.skip((k - 1) * peer_width(v6)), v6);
        if addr.spec_valid_endpoint() {
            before.push(addr)
        } else {
            before
        }
    }
}

/// The width of an endpoint in its compact form.
pub open spec fn peer_width(v6: bool) -> int {
    if v6 {
        18
    } else {
        6
    }
}

/// The endpoints in compact forms that peers can have.
pub open spec fn compact_peers(s: Seq<u8>, v6: bool) -> Seq<SocketAddr> {
    first_peers(s, v6, (s.len() as int / peer_width(v6)) as nat)
}

/// The endpoints in compact forms that peers can have.
pub fn read_compact_peers(s: &[u8], v6: bool) -> (r: Vec<SocketAddr>)
    ensures
        r@ == compact_peers(s@, v6),
{
    let width: usize = if v6 {
        18
    } else {
        6
    };
    let mut out: Vec<SocketAddr> = Vec::new();
    let mut at: usize = 0;
    let ghost mut k: nat = 0;
    while s.len() - at >= width
        invariant
            width == peer_width(v6),
            at <= s.len(),
            at == k * peer_width(v6),
            out@ == first_peers(s@, v6, k),
        decreases s.len() - at,
    {
        let addr = read_compact(s, at, v6);
        proof {
            k = k + 1;
            assert((k - 1) * peer_width(v6) == at);
            assert(k * peer_width(v6) == at + width) by (nonlinear_arith)
                requires
                    (k - 1) * peer_width(v6) == at,
                    peer_width(v6) == width,
            ;
        }
        if addr.is_valid_endpoint() {
            out.push(addr);
        }
        at += width;
    }
    proof {
        assert(s.len() as int / peer_width(v6) == k) by (nonlinear_arith)
            requires
                k * peer_width(v6) <= s.len() < k * peer_width(v6) + peer_width(v6),
                peer_width(v6) > 0,
        ;
    }
    out
}

/// The flags of the `i`th peer; none are set where there are none.
pub open spec fn flags_of(flags: Seq<u8>, i: int) -> u8 {
    if i < flags.len() {
        flags[i]
    } else {
        0
    }
}

/// The endpoints in the first `k` compact forms that peers can have, each with its flags.
pub open spec fn first_flagged(s: Seq<u8>, flags: Seq<u8>, v6: bool, k: nat) -> Seq<
    (SocketAddr, u8),
>
    decreases k,
{
    if k == 0 {
        seq![]
    } else {
        let before = first_flagged(s, flags, v6, (k - 1) as nat);
        let addr = address_of(s.skip((k - 1) * peer_width(v6)), v6);
        if addr.spec_valid_endpoint() {
            before.push((addr, flags_of(flags, k - 1)))
        } else {
            before
        }
    }
}

/// The endpoints in compact forms that peers can have, each with its flags.
pub open spec fn flagged_peers(s: Seq<u8>, flags: Seq<u8>, v6: bool) -> Seq<(SocketAddr, u8)> {
    first_flagged(s, flags, v6, (s.len() as int / peer_width(v6)) as nat)
}

/// The first `n` items, or all where there are no more.
pub open spec fn at_most<T>(s: Seq<T>, n: nat) -> Seq<T> {
    if s.len() > n {
        s.take(n as int)
    } else {
        s
    }
}

proof fn lemma_flagged_grows(s: Seq<u8>, flags: Seq<u8>, v6: bool, k: nat, n: nat)
    requires
        k <= n,
    ensures
        first_flagged(s, flags, v6, k).len() <= first_flagged(s, flags, v6, n).len(),
        first_flagged(s, flags, v6, n).take(first_flagged(s, flags, v6, k).len() as int)
            == first_flagged(s, flags, v6, k),
    decreases n - k,
{
    let front = first_flagged(s, flags, v6, k);
    if k < n {
        lemma_flagged_grows(s, flags, v6, k, (n - 1) as nat);
        let before = first_flagged(s, flags, v6, (n - 1) as nat);
        let all = first_flagged(s, flags, v6, n);
        assert(all.take(before.len() as int) =~= before);
        assert(all.take(front.len() as int) =~= before.take(front.len() as int));
    } else {
        assert(front.take(front.len() as int) =~= front);
    }
}

/// The endpoints in compact forms that peers can have, each with its flags, up to so many.
pub fn read_flagged_peers(s: &[u8], flags: &[u8], v6: bool, remaining: usize) -> (r: Vec<
    (SocketAddr, u8),
>)
    ensures
        r@ == at_most(flagged_peers(s@, flags@, v6), remaining as nat),
{
    let width: usize = if v6 {
        18
    } else {
        6
    };
    let mut out: Vec<(SocketAddr, u8)> = Vec::new();
    let mut at: usize = 0;
    let mut k: usize = 0;
    while s.len() - at >= width && out.len() < remaining
        invariant
            width == peer_width(v6),
            at <= s.len(),
            k <= at,
            at == k * peer_width(v6),
            out@ == first_flagged(s@, flags@, v6, k as nat),
            out.len() <= remaining,
        decreases s.len() - at,
    {
        let addr = read_compact(s, at, v6);
        proof {
            assert((k + 1) * peer_width(v6) == at + width) by (nonlinear_arith)
                requires
                    k * peer_width(v6) == at,
                    peer_width(v6) == width,
            ;
        }
        if addr.is_valid_endpoint() {
            let f: u8 = if k < flags.len() {
                flags[k]
            } else {
                0
            };
            out.push((addr, f));
        }
        at += width;
        k += 1;
    }
    proof {
        let n = (s.len() as int / peer_width(v6)) as nat;
        assert(k <= n && (s.len() < at + width ==> k == n)) by (nonlinear_arith)
            requires
                n == s.len() as int / peer_width(v6),
                k * peer_width(v6) == at,
                at <= s.len(),
                peer_width(v6) == width,
                width > 0,
        ;
        lemma_flagged_grows(s@, flags@, v6, k as nat, n);
        let all = flagged_peers(s@, flags@, v6);
        if out.len() < remaining {
            assert(all.len() <= remaining);
        } else {
            if all.len() == remaining {
                assert(all.take(remaining as int) =~= all);
            }
        }
    }
    out
}

/// The endpoints that are of one family.
pub open spec fn of_family(s: Seq<SocketAddr>, v6: bool) -> Seq<SocketAddr>
    decreases s.len(),
{
    if s.len() == 0 {
        seq![]
    } else if (s.last().ip is V6) == v6 {
        of_family(s.drop_last(), v6).push(s.last())
    } else {
        of_family(s.drop_last(), v6)
    }
}

/// The compact forms of the endpoints of one family.
pub open spec fn compact_family(s: Seq<SocketAddr>, v6: bool) -> Seq<u8>
    decreases s.len(),
{
    if s.len() == 0 {
        seq![]
    } else if (s.last().ip is V6) == v6 {
        compact_family(s.drop_last(), v6) + compact(s.last())
    } else {
        compact_family(s.drop_last(), v6)
    }
}

/// The compact forms of the endpoints of each family.
pub fn split_families(s: &[SocketAddr]) -> (r: (Vec<u8>, Vec<u8>))
    ensures
        r.0@ == compact_family(s@, false),
        r.1@ == compact_family(s@, true),
{
    let mut v4: Vec<u8> = Vec::new();
    let mut v6: Vec<u8> = Vec::new();
    let mut i: usize = 0;
    assert(s@.take(0) =~= seq![]);
    while i < s.len()
        invariant
            i <= s.len(),
            v4@ == compact_family(s@.take(i as int), false),
            v6@ == compact_family(s@.take(i as int), true),
        decreases s.len() - i,
    {
        assert(s@.take(i + 1).drop_last() =~= s@.take(i as int));
        if s[i].is_ipv4() {
            push_compact(&s[i], &mut v4);
        } else {
            push_compact(&s[i], &mut v6);
        }
        i += 1;
    }
    assert(s@.take(i as int) =~= s@);
    (v4, v6)
}

proof fn lemma_flagged_prefix(a: Seq<u8>, b: Seq<u8>, flags: Seq<u8>, v6: bool, k: nat)
    requires
        k * peer_width(v6) <= a.len(),
    ensures
        first_flagged(a + b, flags, v6, k) == first_flagged(a, flags, v6, k),
    decreases k,
{
    if k > 0 {
        assert((k - 1) * peer_width(v6) + peer_width(v6) == k * peer_width(v6)) by (nonlinear_arith);
        lemma_flagged_prefix(a, b, flags, v6, (k - 1) as nat);
        let from = (k - 1) * peer_width(v6);
        assert((a + b).skip(from) =~= a.skip(from) + b);
        lemma_address_is_local(a.skip(from), b, v6);
    }
}

proof fn lemma_address_is_local(s: Seq<u8>, rest: Seq<u8>, v6: bool)
    requires
        s.len() >= peer_width(v6),
    ensures
        address_of(s + rest, v6) == address_of(s, v6),
{
    let n = peer_width(v6) - 2;
    crate::net::lemma_readable(s, v6);
    let addr = address_of(s, v6);
    assert((s + rest).take(n) =~= s.take(n));
    assert((s + rest).skip(n) =~= s.skip(n) + rest);
    assert(crate::net::reads_as(addr, s + rest, v6));
    crate::net::reading_is_unique(addr, address_of(s + rest, v6), s + rest, v6);
}

/// Reading the compact forms of endpoints that peers can have gives them back, without flags
/// where none are set.
pub proof fn families_round_trip(s: Seq<SocketAddr>, flags: Seq<u8>, v6: bool)
    requires
        forall|i: int| 0 <= i < s.len() ==> (#[trigger] s[i]).spec_valid_endpoint(),
        forall|i: int| 0 <= i < flags.len() ==> #[trigger] flags[i] == 0,
    ensures
        compact_family(s, v6).len() == of_family(s, v6).len() * peer_width(v6),
        flagged_peers(compact_family(s, v6), flags, v6) == of_family(s, v6).map(
            |i: int, a: SocketAddr| (a, 0u8),
        ),
        compact_peers(compact_family(s, v6), v6) == of_family(s, v6),
    decreases s.len(),
{
    let unflagged = |i: int, a: SocketAddr| (a, 0u8);
    let all = compact_family(s, v6);
    let w = peer_width(v6);
    if s.len() == 0 {
        assert(of_family(s, v6).map(unflagged) =~= seq![]);
    } else {
        let front = s.drop_last();
        families_round_trip(front, flags, v6);
        if (s.last().ip is V6) == v6 {
            let a = compact_family(front, v6);
            let k = of_family(front, v6).len();
            assert(a.len() as int / w == k && (a.len() + w) as int / w == k + 1 && (k + 1) * w
                == a.len() + w) by (nonlinear_arith)
                requires
                    a.len() == k * w,
                    w > 0,
            ;
            compact_round_trip(s.last(), seq![]);
            assert(compact(s.last()) + Seq::<u8>::empty() =~= compact(s.last()));
            assert(all.skip(a.len() as int) =~= compact(s.last()));
            lemma_flagged_prefix(a, compact(s.last()), flags, v6, k);
            assert(s.last() == s[s.len() - 1]);
            assert(of_family(s, v6).map(unflagged) =~= of_family(front, v6).map(unflagged).push(
                (s.last(), 0u8),
            ));
        }
    }
    lemma_flags_fall_away(all, flags, v6, (all.len() as int / w) as nat);
    assert(of_family(s, v6) =~= of_family(s, v6).map(unflagged).map(
        |i: int, p: (SocketAddr, u8)| p.0,
    ));
}

proof fn lemma_flags_fall_away(s: Seq<u8>, flags: Seq<u8>, v6: bool, k: nat)
    ensures
        first_peers(s, v6, k) == first_flagged(s, flags, v6, k).map(
            |i: int, p: (SocketAddr, u8)| p.0,
        ),
    decreases k,
{
    let bare = |i: int, p: (SocketAddr, u8)| p.0;
    if k > 0 {
        lemma_flags_fall_away(s, flags, v6, (k - 1) as nat);
    }
    assert(first_peers(s, v6, k) =~= first_flagged(s, flags, v6, k).map(bare));
}

proof fn lemma_pushed_peer<T>(s: Seq<T>, last: T, x: T)
    ensures
        s.push(last).contains(x) <==> s.contains(x) || x == last,
{
    let t = s.push(last);
    assert(t[s.len() as int] == last);
    if s.contains(x) {
        let i = choose|i: int| 0 <= i < s.len() && s[i] == x;
        assert(t[i] == x);
    }
    if t.contains(x) {
        let i = choose|i: int| 0 <= i < t.len() && t[i] == x;
        if i < s.len() {
            assert(s[i] == x);
        }
    }
}

/// True when the `i`th compact form is an endpoint that a peer can have.
pub open spec fn form_is(s: Seq<u8>, v6: bool, i: int, addr: SocketAddr) -> bool {
    &&& 0 <= i < s.len() as int / peer_width(v6)
    &&& address_of(s.skip(i * peer_width(v6)), v6) == addr
    &&& addr.port != 0
    &&& !addr.ip.spec_unspecified()
    &&& !addr.ip.spec_multicast()
}

proof fn lemma_first_peers_all(s: Seq<u8>, flags: Seq<u8>, v6: bool, k: nat)
    requires
        k <= s.len() as int / peer_width(v6),
    ensures
        forall|a: SocketAddr| #[trigger]
            first_peers(s, v6, k).contains(a) <==> exists|i: int| i < k && #[trigger] form_is(s, v6, i, a),
        forall|a: SocketAddr, f: u8| #[trigger]
            first_flagged(s, flags, v6, k).contains((a, f)) <==> exists|i: int|
                i < k && #[trigger] form_is(s, v6, i, a) && f == (if i < flags.len() {
                    flags[i]
                } else {
                    0
                }),
    decreases k,
{
    if k > 0 {
        let j = (k - 1) as nat;
        lemma_first_peers_all(s, flags, v6, j);
        let addr = address_of(s.skip(j * peer_width(v6)), v6);
        let before = first_peers(s, v6, j);
        let flagged = first_flagged(s, flags, v6, j);
        assert(addr.spec_valid_endpoint() ==> form_is(s, v6, j as int, addr));
        assert forall|a: SocketAddr| #[trigger] first_peers(s, v6, k).contains(a) <==> exists|i: int|
            i < k && #[trigger] form_is(s, v6, i, a) by {
            lemma_pushed_peer(before, addr, a);
            assert(before.contains(a) <==> exists|i: int| i < j && #[trigger] form_is(s, v6, i, a));
            if exists|i: int| i < k && #[trigger] form_is(s, v6, i, a) {
                let i = choose|i: int| i < k && #[trigger] form_is(s, v6, i, a);
                if i < j {
                    assert(before.contains(a));
                }
            }
        }
        assert forall|a: SocketAddr, f: u8| #[trigger]
            first_flagged(s, flags, v6, k).contains((a, f)) <==> exists|i: int|
            i < k && #[trigger] form_is(s, v6, i, a) && f == (if i < flags.len() {
                flags[i]
            } else {
                0
            }) by {
            lemma_pushed_peer(flagged, (addr, flags_of(flags, j as int)), (a, f));
            assert(flagged.contains((a, f)) <==> exists|i: int|
                i < j && #[trigger] form_is(s, v6, i, a) && f == (if i < flags.len() {
                    flags[i]
                } else {
                    0
                }));
            if exists|i: int|
                i < k && #[trigger] form_is(s, v6, i, a) && f == (if i < flags.len() {
                    flags[i]
                } else {
                    0
                }) {
                let i = choose|i: int|
                    i < k && #[trigger] form_is(s, v6, i, a) && f == (if i < flags.len() {
                        flags[i]
                    } else {
                        0
                    });
                if i < j {
                    assert(flagged.contains((a, f)));
                }
            }
        }
    } else {
        assert forall|a: SocketAddr| #[trigger] first_peers(s, v6, k).contains(a) <==> exists|i: int|
            i < k && #[trigger] form_is(s, v6, i, a) by {}
        assert forall|a: SocketAddr, f: u8| #[trigger]
            first_flagged(s, flags, v6, k).contains((a, f)) <==> exists|i: int|
            i < k && #[trigger] form_is(s, v6, i, a) && f == (if i < flags.len() {
                flags[i]
            } else {
                0
            }) by {}
    }
}

/// Every peer whose compact form is whole and whose endpoint it can have is read, and no other; it
/// has the flags that stand in its place, and none where there are none. A compact form takes 6
/// bytes for one address family and 18 for the other.
pub proof fn every_compact_peer_is_read(s: Seq<u8>, flags: Seq<u8>, v6: bool)
    ensures
        peer_width(false) == 6 && peer_width(true) == 18,
        forall|a: SocketAddr| #[trigger]
            compact_peers(s, v6).contains(a) <==> exists|i: int| form_is(s, v6, i, a),
        forall|a: SocketAddr, f: u8| #[trigger]
            flagged_peers(s, flags, v6).contains((a, f)) <==> exists|i: int| #[trigger]
                form_is(s, v6, i, a) && f == (if i < flags.len() {
                    flags[i]
                } else {
                    0
                }),
{
    let k = (s.len() as int / peer_width(v6)) as nat;
    lemma_first_peers_all(s, flags, v6, k);
}

/// The compact forms of a family are those of every endpoint of that family, in their order.
pub proof fn families_are_whole(s: Seq<SocketAddr>, v6: bool)
    ensures
        forall|a: SocketAddr| #[trigger]
            of_family(s, v6).contains(a) <==> s.contains(a) && (a.ip is V6) == v6,
        (forall|i: int| 0 <= i < s.len() ==> ((#[trigger] s[i]).ip is V6) == v6) ==> of_family(s, v6)
            == s,
    decreases s.len(),
{
    if s.len() > 0 {
        let front = s.drop_last();
        families_are_whole(front, v6);
        assert(s =~= front.push(s.last()));
        assert(s[s.len() - 1] == s.last());
        assert forall|a: SocketAddr| #[trigger] of_family(s, v6).contains(a) <==> s.contains(a) && (
        a.ip is V6) == v6 by {
            lemma_pushed_peer(front, s.last(), a);
            lemma_pushed_peer(of_family(front, v6), s.last(), a);
            assert(of_family(front, v6).contains(a) <==> front.contains(a) && (a.ip is V6) == v6);
        }
        if forall|i: int| 0 <= i < s.len() ==> ((#[trigger] s[i]).ip is V6) == v6 {
            assert forall|i: int| 0 <= i < front.len() implies ((#[trigger] front[i]).ip is V6)
                == v6 by {
                assert(front[i] == s[i]);
            }
        }
    } else {
        assert(of_family(s, v6) =~= s);
    }
}

} // verus!
