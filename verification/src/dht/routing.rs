//! The contacts of a node, in buckets by their distance from it.

use vstd::prelude::*;

use crate::meta::hash::{xor_bytes, Id20};
use crate::net::SocketAddr;
use crate::order::{bytes_less, lex_less, slot, sorted, sorting_is_a_permutation};

verus! {

/// How many contacts a bucket holds, and how many nodes answer a question.
pub const K: usize = 8;

/// How long a contact is trusted without having been heard of, in milliseconds.
pub const ROUTING_STALE_MS: u64 = 900_000;

#[derive(Clone, Copy, Debug, PartialEq, Eq, Structural)]
pub enum RoutingLiveness {
    Good,
    Questionable,
    Bad,
}

/// A contact; times are milliseconds of a clock that never runs backwards.
#[derive(Clone, Copy, Debug)]
pub struct RoutingNode {
    pub id: Id20,
    pub addr: SocketAddr,
    pub last_seen: u64,
    pub liveness: RoutingLiveness,
}

/// The contacts whose distance from us starts with the prefix.
pub struct Bucket {
    pub prefix: Seq<bool>,
    pub nodes: Seq<RoutingNode>,
}

/// Bit `i` of an identifier, the most significant one first.
pub open spec fn id_bit(bytes: Seq<u8>, i: int) -> bool {
    (bytes[i / 8] >> ((7 - i % 8) as u8)) & 1 == 1
}

/// True when the identifier starts with the bits of the prefix.
pub open spec fn has_prefix(prefix: Seq<bool>, bytes: Seq<u8>) -> bool {
    forall|i: int| 0 <= i < prefix.len() ==> #[trigger] prefix[i] == id_bit(bytes, i)
}

/// True when the bucket is the one that our own identifier falls into.
pub open spec fn holds_ours(prefix: Seq<bool>) -> bool {
    forall|i: int| 0 <= i < prefix.len() ==> !#[trigger] prefix[i]
}

/// The first bucket of that distance; the number of buckets where there is none.
pub open spec fn home(buckets: Seq<Bucket>, distance: Seq<u8>) -> int
    decreases buckets.len(),
{
    if buckets.len() == 0 {
        0
    } else if has_prefix(buckets[0].prefix, distance) {
        0
    } else {
        1 + home(buckets.drop_first(), distance)
    }
}

/// Where the contact with that identifier stands; the number of contacts where it does not.
pub open spec fn position(nodes: Seq<RoutingNode>, id: Id20) -> int
    decreases nodes.len(),
{
    if nodes.len() == 0 {
        0
    } else if nodes[0].id == id {
        0
    } else {
        1 + position(nodes.drop_first(), id)
    }
}

/// The contacts whose distance from us has that bit, in their order.
pub open spec fn with_bit(nodes: Seq<RoutingNode>, ours: Id20, i: int, bit: bool) -> Seq<RoutingNode>
    decreases nodes.len(),
{
    if nodes.len() == 0 {
        seq![]
    } else {
        let rest = with_bit(nodes.drop_last(), ours, i, bit);
        if id_bit(xor_bytes(ours@, nodes.last().id@), i) == bit {
            rest.push(nodes.last())
        } else {
            rest
        }
    }
}

/// One half of a bucket.
pub open spec fn half(b: Bucket, ours: Id20, bit: bool) -> Bucket {
    Bucket {
        prefix: b.prefix.push(bit),
        nodes: with_bit(b.nodes, ours, b.prefix.len() as int, bit),
    }
}

/// The buckets with the one at `at` split into its halves.
pub open spec fn split_at(buckets: Seq<Bucket>, ours: Id20, at: int) -> Seq<Bucket> {
    buckets.update(at, half(buckets[at], ours, false)).insert(at + 1, half(buckets[at], ours, true))
}

/// True when there is no place for a new contact in the bucket, but there would be one if it were
/// split.
pub open spec fn must_split(b: Bucket, id: Id20) -> bool {
    &&& position(b.nodes, id) == b.nodes.len()
    &&& b.nodes.len() >= K
    &&& holds_ours(b.prefix)
    &&& b.prefix.len() < 160
}

/// The buckets after as many splits as a new contact needs.
pub open spec fn settled(buckets: Seq<Bucket>, ours: Id20, id: Id20) -> Seq<Bucket>
    decreases 160 - buckets[home(buckets, xor_bytes(ours@, id@))].prefix.len(),
{
    let distance = xor_bytes(ours@, id@);
    let at = home(buckets, distance);
    if at < buckets.len() && must_split(buckets[at], id) {
        let next = split_at(buckets, ours, at);
        let then_at = home(next, distance);
        if buckets[at].prefix.len() < next[then_at].prefix.len() <= 160 {
            settled(next, ours, id)
        } else {
            next
        }
    } else {
        buckets
    }
}

/// The first contact that is known to be dead; the number of contacts where none is.
pub open spec fn first_bad(nodes: Seq<RoutingNode>) -> int
    decreases nodes.len(),
{
    if nodes.len() == 0 {
        0
    } else if nodes[0].liveness is Bad {
        0
    } else {
        1 + first_bad(nodes.drop_first())
    }
}

/// The first of the contacts that have not been heard of for longest.
pub open spec fn stalest(nodes: Seq<RoutingNode>) -> int
    decreases nodes.len(),
{
    if nodes.len() <= 1 {
        0
    } else {
        let best = stalest(nodes.drop_last());
        if nodes.last().last_seen < nodes[best].last_seen {
            nodes.len() - 1
        } else {
            best
        }
    }
}

/// What becomes of a contact that is heard of again: hearsay does not touch one that is known to
/// be alive.
pub open spec fn heard_again(
    known: RoutingNode,
    addr: SocketAddr,
    liveness: RoutingLiveness,
    now: u64,
) -> RoutingNode {
    if known.liveness is Good && !(liveness is Good) {
        known
    } else {
        RoutingNode { id: known.id, addr, last_seen: now, liveness }
    }
}

/// What becomes of the contacts of a bucket that cannot be split when a node is heard of: it is
/// refreshed, or added where there is room, or takes the place of a dead one, or casts doubt on
/// the one that has not been heard of for longest.
pub open spec fn heard_of(nodes: Seq<RoutingNode>, node: RoutingNode) -> Seq<RoutingNode> {
    let at = position(nodes, node.id);
    let bad = first_bad(nodes);
    if at < nodes.len() {
        nodes.update(at, heard_again(nodes[at], node.addr, node.liveness, node.last_seen))
    } else if nodes.len() < K {
        nodes.push(node)
    } else if bad < nodes.len() {
        nodes.update(bad, node)
    } else {
        let old = stalest(nodes);
        nodes.update(old, RoutingNode { liveness: RoutingLiveness::Questionable, ..nodes[old] })
    }
}

/// The buckets after a node was heard of.
pub open spec fn with_node(buckets: Seq<Bucket>, ours: Id20, node: RoutingNode) -> Seq<Bucket> {
    if node.id == ours {
        buckets
    } else {
        let ready = settled(buckets, ours, node.id);
        let at = home(ready, xor_bytes(ours@, node.id@));
        if at < ready.len() {
            ready.update(
                at,
                Bucket { prefix: ready[at].prefix, nodes: heard_of(ready[at].nodes, node) },
            )
        } else {
            ready
        }
    }
}

#[derive(Debug)]
struct RoutingBucket {
    prefix: Vec<bool>,
    nodes: Vec<RoutingNode>,
}

#[derive(Debug)]
pub struct RoutingTable {
    our_id: Id20,
    buckets: Vec<RoutingBucket>,
}

impl View for RoutingBucket {
    type V = Bucket;

    closed spec fn view(&self) -> Bucket {
        Bucket { prefix: self.prefix@, nodes: self.nodes@ }
    }
}

fn bit_of(bytes: &[u8; 20], i: usize) -> (r: bool)
    requires
        i < 160,
    ensures
        r == id_bit(bytes@, i as int),
{
    (bytes[i / 8] >> ((7 - i % 8) as u8)) & 1 == 1
}

impl RoutingBucket {
    fn matches(&self, distance: &Id20) -> (r: bool)
        requires
            self@.prefix.len() <= 160,
        ensures
            r == has_prefix(self@.prefix, distance@),
    {
        let mut i: usize = 0;
        while i < self.prefix.len()
            invariant
                i <= self.prefix.len(),
                self@.prefix.len() <= 160,
                forall|j: int| 0 <= j < i ==> #[trigger] self@.prefix[j] == id_bit(distance@, j),
            decreases self.prefix.len() - i,
        {
            if self.prefix[i] != bit_of(&distance.0, i) {
                assert(self@.prefix[i as int] != id_bit(distance@, i as int));
                return false;
            }
            i += 1;
        }
        true
    }

    fn contains_ours(&self) -> (r: bool)
        ensures
            r == holds_ours(self@.prefix),
    {
        let mut i: usize = 0;
        while i < self.prefix.len()
            invariant
                i <= self.prefix.len(),
                forall|j: int| 0 <= j < i ==> !#[trigger] self@.prefix[j],
            decreases self.prefix.len() - i,
        {
            if self.prefix[i] {
                assert(self@.prefix[i as int]);
                return false;
            }
            i += 1;
        }
        true
    }

    fn child(&self, ours: &Id20, bit: bool) -> (r: Self)
        requires
            self@.prefix.len() < 160,
        ensures
            r@ == half(self@, *ours, bit),
    {
        let mut prefix: Vec<bool> = Vec::new();
        let mut i: usize = 0;
        while i < self.prefix.len()
            invariant
                i <= self.prefix.len(),
                prefix@ == self.prefix@.take(i as int),
            decreases self.prefix.len() - i,
        {
            prefix.push(self.prefix[i]);
            assert(prefix@ =~= self.prefix@.take(i + 1));
            i += 1;
        }
        assert(prefix@ =~= self.prefix@);
        prefix.push(bit);
        let at: usize = self.prefix.len();
        let mut nodes: Vec<RoutingNode> = Vec::new();
        let mut k: usize = 0;
        assert(with_bit(self.nodes@.take(0), *ours, at as int, bit) =~= seq![]);
        while k < self.nodes.len()
            invariant
                k <= self.nodes.len(),
                at < 160,
                nodes@ == with_bit(self.nodes@.take(k as int), *ours, at as int, bit),
            decreases self.nodes.len() - k,
        {
            let node = self.nodes[k];
            let distance = ours.distance(&node.id);
            assert(self.nodes@.take(k + 1).drop_last() =~= self.nodes@.take(k as int));
            if bit_of(&distance.0, at) == bit {
                nodes.push(node);
            }
            k += 1;
        }
        assert(self.nodes@.take(k as int) =~= self.nodes@);
        let r = RoutingBucket { prefix, nodes };
        assert(r@.prefix =~= self@.prefix.push(bit));
        r
    }

    fn position_of(&self, id: &Id20) -> (r: usize)
        ensures
            r == position(self@.nodes, *id),
            r <= self@.nodes.len(),
    {
        let mut i: usize = 0;
        assert(self.nodes@.skip(0) =~= self.nodes@);
        while i < self.nodes.len()
            invariant
                i <= self.nodes.len(),
                position(self@.nodes, *id) == i + position(self@.nodes.skip(i as int), *id),
            decreases self.nodes.len() - i,
        {
            assert(self@.nodes.skip(i as int)[0] == self@.nodes[i as int]);
            assert(self@.nodes.skip(i as int).drop_first() =~= self@.nodes.skip(i + 1));
            if self.nodes[i].id == *id {
                return i;
            }
            i += 1;
        }
        i
    }

    fn first_bad_position(&self) -> (r: usize)
        ensures
            r == first_bad(self@.nodes),
            r <= self@.nodes.len(),
    {
        let mut i: usize = 0;
        assert(self.nodes@.skip(0) =~= self.nodes@);
        while i < self.nodes.len()
            invariant
                i <= self.nodes.len(),
                first_bad(self@.nodes) == i + first_bad(self@.nodes.skip(i as int)),
            decreases self.nodes.len() - i,
        {
            assert(self@.nodes.skip(i as int)[0] == self@.nodes[i as int]);
            assert(self@.nodes.skip(i as int).drop_first() =~= self@.nodes.skip(i + 1));
            if self.nodes[i].liveness == RoutingLiveness::Bad {
                return i;
            }
            i += 1;
        }
        i
    }

    fn stalest_position(&self) -> (r: usize)
        requires
            self@.nodes.len() > 0,
        ensures
            r == stalest(self@.nodes),
            r < self@.nodes.len(),
    {
        let mut best: usize = 0;
        let mut i: usize = 1;
        assert(self.nodes@.take(1).len() == 1);
        while i < self.nodes.len()
            invariant
                1 <= i <= self.nodes.len(),
                best < i,
                best == stalest(self@.nodes.take(i as int)),
            decreases self.nodes.len() - i,
        {
            assert(self@.nodes.take(i + 1).drop_last() =~= self@.nodes.take(i as int));
            if self.nodes[i].last_seen < self.nodes[best].last_seen {
                best = i;
            }
            i += 1;
        }
        assert(self@.nodes.take(i as int) =~= self@.nodes);
        best
    }
}

/// True of the buckets of every table: each distance falls into exactly one bucket, no bucket is
/// over-full, and a contact stands in the bucket of its distance, once, and is not ourselves.
pub open spec fn well_placed(buckets: Seq<Bucket>, ours: Id20) -> bool {
    &&& forall|i: int| 0 <= i < buckets.len() ==> (#[trigger] buckets[i]).nodes.len() <= K
    &&& forall|i: int| 0 <= i < buckets.len() ==> (#[trigger] buckets[i]).prefix.len() <= 160
    &&& covering(buckets)
    &&& forall|i: int| 0 <= i < buckets.len() ==> bucket_in_place(#[trigger] buckets[i], ours)
    &&& buckets.len() == buckets[home(buckets, no_distance())].prefix.len() + 1
}

/// The distance of a node from itself.
pub open spec fn no_distance() -> Seq<u8> {
    Seq::new(20, |i: int| 0u8)
}

proof fn lemma_no_distance(prefix: Seq<bool>)
    requires
        prefix.len() <= 160,
    ensures
        has_prefix(prefix, no_distance()) == holds_ours(prefix),
        forall|i: int| 0 <= i < 160 ==> !#[trigger] id_bit(no_distance(), i),
{
    assert forall|i: int| 0 <= i < 160 implies !#[trigger] id_bit(no_distance(), i) by {
        let by = (7 - i % 8) as u8;
        assert((0u8 >> by) & 1 == 0) by (bit_vector)
            requires
                by < 8,
        ;
        assert(no_distance()[i / 8] == 0u8);
    }
    if has_prefix(prefix, no_distance()) {
        assert forall|i: int| 0 <= i < prefix.len() implies !#[trigger] prefix[i] by {
            assert(!id_bit(no_distance(), i));
        }
    }
    if holds_ours(prefix) {
        assert forall|i: int| 0 <= i < prefix.len() implies #[trigger] prefix[i] == id_bit(
            no_distance(),
            i,
        ) by {
            assert(!prefix[i]);
        }
    }
}

/// True when each distance falls into exactly one bucket.
pub open spec fn covering(buckets: Seq<Bucket>) -> bool {
    &&& forall|d: Seq<u8>| d.len() == 20 ==> 0 <= #[trigger] home(buckets, d) < buckets.len()
    &&& forall|d: Seq<u8>, i: int|
        d.len() == 20 && 0 <= i < buckets.len() && #[trigger] has_prefix(buckets[i].prefix, d) ==> i
            == home(buckets, d)
}

/// True when every contact of a bucket belongs there, once, and is not ourselves.
pub open spec fn bucket_in_place(b: Bucket, ours: Id20) -> bool {
    &&& forall|j: int|
        0 <= j < b.nodes.len() ==> has_prefix(
            b.prefix,
            xor_bytes(ours@, (#[trigger] b.nodes[j]).id@),
        ) && b.nodes[j].id != ours
    &&& forall|j: int, k: int|
        0 <= j < k < b.nodes.len() ==> (#[trigger] b.nodes[j]).id != (#[trigger] b.nodes[k]).id
}

proof fn lemma_home(buckets: Seq<Bucket>, d: Seq<u8>)
    ensures
        0 <= home(buckets, d) <= buckets.len(),
        home(buckets, d) < buckets.len() ==> has_prefix(buckets[home(buckets, d)].prefix, d),
        forall|j: int|
            0 <= j < home(buckets, d) ==> !has_prefix((#[trigger] buckets[j]).prefix, d),
    decreases buckets.len(),
{
    if buckets.len() > 0 && !has_prefix(buckets[0].prefix, d) {
        let rest = buckets.drop_first();
        lemma_home(rest, d);
        assert forall|j: int| 0 <= j < home(buckets, d) implies !has_prefix(
            (#[trigger] buckets[j]).prefix,
            d,
        ) by {
            if j > 0 {
                assert(rest[j - 1] == buckets[j]);
            }
        }
    }
}

proof fn lemma_home_is(buckets: Seq<Bucket>, d: Seq<u8>, i: int)
    requires
        0 <= i < buckets.len(),
        has_prefix(buckets[i].prefix, d),
        forall|j: int| 0 <= j < i ==> !has_prefix((#[trigger] buckets[j]).prefix, d),
    ensures
        home(buckets, d) == i,
    decreases buckets.len(),
{
    if i > 0 {
        let rest = buckets.drop_first();
        assert(!has_prefix(buckets[0].prefix, d));
        assert forall|j: int| 0 <= j < i - 1 implies !has_prefix((#[trigger] rest[j]).prefix, d) by {
            assert(rest[j] == buckets[j + 1]);
        }
        lemma_home_is(rest, d, i - 1);
    }
}

proof fn lemma_longer_prefix(prefix: Seq<bool>, bit: bool, d: Seq<u8>)
    ensures
        has_prefix(prefix.push(bit), d) == (has_prefix(prefix, d) && id_bit(
            d,
            prefix.len() as int,
        ) == bit),
{
    let longer = prefix.push(bit);
    if has_prefix(longer, d) {
        assert(longer[prefix.len() as int] == id_bit(d, prefix.len() as int));
        assert forall|i: int| 0 <= i < prefix.len() implies #[trigger] prefix[i] == id_bit(d, i) by {
            assert(longer[i] == prefix[i]);
        }
    }
    if has_prefix(prefix, d) && id_bit(d, prefix.len() as int) == bit {
        assert forall|i: int| 0 <= i < longer.len() implies #[trigger] longer[i] == id_bit(d, i) by {
            if i < prefix.len() {
                assert(longer[i] == prefix[i]);
            }
        }
    }
}

/// Where a distance falls once the bucket at `at` is split.
proof fn lemma_home_after_split(buckets: Seq<Bucket>, ours: Id20, at: int, d: Seq<u8>)
    requires
        0 <= at < buckets.len(),
    ensures
        ({
            let h = home(buckets, d);
            let next = split_at(buckets, ours, at);
            let bit = id_bit(d, buckets[at].prefix.len() as int);
            &&& h < at ==> home(next, d) == h
            &&& h == at ==> home(next, d) == (if bit { at + 1 } else { at })
            &&& h > at && h < buckets.len() ==> home(next, d) == h + 1
        }),
{
    let h = home(buckets, d);
    let next = split_at(buckets, ours, at);
    let b = buckets[at];
    lemma_home(buckets, d);
    lemma_longer_prefix(b.prefix, false, d);
    lemma_longer_prefix(b.prefix, true, d);
    assert(next[at].prefix == b.prefix.push(false));
    assert(next[at + 1].prefix == b.prefix.push(true));
    assert forall|j: int| 0 <= j < at implies #[trigger] next[j] == buckets[j] by {}
    assert forall|j: int| at + 1 < j < next.len() implies #[trigger] next[j] == buckets[j - 1] by {}
    if h < at {
        lemma_home_is(next, d, h);
    } else if h == at {
        let to = if id_bit(d, b.prefix.len() as int) {
            at + 1
        } else {
            at
        };
        lemma_home_is(next, d, to);
    } else if h < buckets.len() {
        assert(!has_prefix(buckets[at].prefix, d));
        assert(next[h + 1] == buckets[h]);
        assert forall|j: int| 0 <= j < h + 1 implies !has_prefix((#[trigger] next[j]).prefix, d) by {
            if j > at + 1 {
                assert(next[j] == buckets[j - 1]);
            }
        }
        lemma_home_is(next, d, h + 1);
    }
}

proof fn lemma_with_bit(nodes: Seq<RoutingNode>, ours: Id20, i: int, bit: bool)
    ensures
        with_bit(nodes, ours, i, bit).len() <= nodes.len(),
        forall|j: int|
            0 <= j < with_bit(nodes, ours, i, bit).len() ==> id_bit(
                xor_bytes(ours@, (#[trigger] with_bit(nodes, ours, i, bit)[j]).id@),
                i,
            ) == bit && nodes.contains(with_bit(nodes, ours, i, bit)[j]),
        forall|k: int|
            0 <= k < nodes.len() && id_bit(xor_bytes(ours@, (#[trigger] nodes[k]).id@), i) == bit
                ==> with_bit(nodes, ours, i, bit).contains(nodes[k]),
    decreases nodes.len(),
{
    if nodes.len() > 0 {
        let q = nodes.drop_last();
        let last = nodes.last();
        lemma_with_bit(q, ours, i, bit);
        let rest = with_bit(q, ours, i, bit);
        let all = with_bit(nodes, ours, i, bit);
        assert(nodes[nodes.len() - 1] == last);
        assert forall|j: int| 0 <= j < all.len() implies id_bit(
            xor_bytes(ours@, (#[trigger] all[j]).id@),
            i,
        ) == bit && nodes.contains(all[j]) by {
            if j < rest.len() {
                assert(all[j] == rest[j]);
                let k = choose|k: int| 0 <= k < q.len() && q[k] == rest[j];
                assert(nodes[k] == rest[j]);
            }
        }
        assert forall|k: int|
            0 <= k < nodes.len() && id_bit(
                xor_bytes(ours@, (#[trigger] nodes[k]).id@),
                i,
            ) == bit implies all.contains(nodes[k]) by {
            if k < q.len() {
                assert(q[k] == nodes[k]);
                let j = choose|j: int| 0 <= j < rest.len() && rest[j] == q[k];
                assert(all[j] == nodes[k]);
            } else {
                assert(all[all.len() - 1] == last);
            }
        }
    }
}

proof fn lemma_with_bit_distinct(nodes: Seq<RoutingNode>, ours: Id20, i: int, bit: bool)
    requires
        forall|j: int, k: int|
            0 <= j < k < nodes.len() ==> (#[trigger] nodes[j]).id != (#[trigger] nodes[k]).id,
    ensures
        ({
            let all = with_bit(nodes, ours, i, bit);
            forall|j: int, k: int|
                0 <= j < k < all.len() ==> (#[trigger] all[j]).id != (#[trigger] all[k]).id
        }),
    decreases nodes.len(),
{
    if nodes.len() > 0 {
        let q = nodes.drop_last();
        assert forall|j: int, k: int| 0 <= j < k < q.len() implies (#[trigger] q[j]).id != (
        #[trigger] q[k]).id by {
            assert(q[j] == nodes[j]);
            assert(q[k] == nodes[k]);
        }
        lemma_with_bit_distinct(q, ours, i, bit);
        lemma_with_bit(q, ours, i, bit);
        let rest = with_bit(q, ours, i, bit);
        let all = with_bit(nodes, ours, i, bit);
        assert forall|j: int, k: int| 0 <= j < k < all.len() implies (#[trigger] all[j]).id != (
        #[trigger] all[k]).id by {
            assert(all[j] == rest[j]);
            if k < rest.len() {
                assert(all[k] == rest[k]);
            } else {
                assert(all[k] == nodes.last());
                let m = choose|m: int| 0 <= m < q.len() && q[m] == rest[j];
                assert(nodes[m].id != nodes[nodes.len() - 1].id);
            }
        }
    }
}

proof fn lemma_split_in_place(buckets: Seq<Bucket>, ours: Id20, at: int)
    requires
        well_placed(buckets, ours),
        0 <= at < buckets.len(),
        buckets[at].prefix.len() < 160,
        holds_ours(buckets[at].prefix),
    ensures
        well_placed(split_at(buckets, ours, at), ours),
{
    lemma_no_distance(buckets[at].prefix);
    lemma_home_after_split(buckets, ours, at, no_distance());
    assert(has_prefix(buckets[at].prefix, no_distance()));
    assert(home(buckets, no_distance()) == at);
    let next = split_at(buckets, ours, at);
    let b = buckets[at];
    let n = b.prefix.len() as int;
    lemma_with_bit(b.nodes, ours, n, false);
    lemma_with_bit(b.nodes, ours, n, true);
    lemma_with_bit_distinct(b.nodes, ours, n, false);
    lemma_with_bit_distinct(b.nodes, ours, n, true);
    assert(bucket_in_place(b, ours));
    assert(next[at] == half(b, ours, false));
    assert(next[at + 1] == half(b, ours, true));
    assert forall|j: int| 0 <= j < at implies #[trigger] next[j] == buckets[j] by {}
    assert forall|j: int| at + 1 < j < next.len() implies #[trigger] next[j] == buckets[j - 1] by {}
    assert forall|bit: bool| #[trigger] bucket_in_place(half(b, ours, bit), ours) by {
        let h = half(b, ours, bit);
        lemma_with_bit(b.nodes, ours, n, bit);
        lemma_with_bit_distinct(b.nodes, ours, n, bit);
        assert forall|j: int| 0 <= j < h.nodes.len() implies has_prefix(
            h.prefix,
            xor_bytes(ours@, (#[trigger] h.nodes[j]).id@),
        ) && h.nodes[j].id != ours by {
            let m = choose|m: int| 0 <= m < b.nodes.len() && b.nodes[m] == h.nodes[j];
            assert(b.nodes[m].id != ours);
            lemma_longer_prefix(b.prefix, bit, xor_bytes(ours@, h.nodes[j].id@));
        }
    }
    assert forall|i: int| 0 <= i < next.len() implies (#[trigger] next[i]).nodes.len() <= K
        && next[i].prefix.len() <= 160 && bucket_in_place(next[i], ours) by {
        if i < at {
            assert(next[i] == buckets[i]);
        } else if i > at + 1 {
            assert(next[i] == buckets[i - 1]);
        }
    }
    assert forall|d: Seq<u8>| d.len() == 20 implies 0 <= #[trigger] home(next, d) < next.len() by {
        assert(0 <= home(buckets, d) < buckets.len());
        lemma_home_after_split(buckets, ours, at, d);
    }
    assert forall|d: Seq<u8>, i: int|
        d.len() == 20 && 0 <= i < next.len() && #[trigger] has_prefix(
            next[i].prefix,
            d,
        ) implies i == home(next, d) by {
        assert(0 <= home(buckets, d) < buckets.len());
        lemma_home_after_split(buckets, ours, at, d);
        lemma_longer_prefix(b.prefix, false, d);
        lemma_longer_prefix(b.prefix, true, d);
        if i < at {
            assert(has_prefix(buckets[i].prefix, d));
        } else if i > at + 1 {
            assert(has_prefix(buckets[i - 1].prefix, d));
        } else {
            assert(has_prefix(buckets[at].prefix, d));
        }
    }
}

proof fn lemma_position(nodes: Seq<RoutingNode>, id: Id20)
    ensures
        0 <= position(nodes, id) <= nodes.len(),
        position(nodes, id) < nodes.len() ==> nodes[position(nodes, id)].id == id,
        forall|j: int| 0 <= j < position(nodes, id) ==> (#[trigger] nodes[j]).id != id,
    decreases nodes.len(),
{
    if nodes.len() > 0 && nodes[0].id != id {
        let rest = nodes.drop_first();
        lemma_position(rest, id);
        assert forall|j: int| 0 <= j < position(nodes, id) implies (#[trigger] nodes[j]).id != id by {
            if j > 0 {
                assert(rest[j - 1] == nodes[j]);
            }
        }
    }
}

proof fn lemma_first_bad(nodes: Seq<RoutingNode>)
    ensures
        0 <= first_bad(nodes) <= nodes.len(),
        first_bad(nodes) < nodes.len() ==> nodes[first_bad(nodes)].liveness is Bad,
        forall|j: int|
            0 <= j < first_bad(nodes) ==> !((#[trigger] nodes[j]).liveness is Bad),
    decreases nodes.len(),
{
    if nodes.len() > 0 && !(nodes[0].liveness is Bad) {
        let rest = nodes.drop_first();
        lemma_first_bad(rest);
        assert forall|j: int| 0 <= j < first_bad(nodes) implies !((
        #[trigger] nodes[j]).liveness is Bad) by {
            if j > 0 {
                assert(rest[j - 1] == nodes[j]);
            }
        }
    }
}

proof fn lemma_stalest(nodes: Seq<RoutingNode>)
    requires
        nodes.len() > 0,
    ensures
        0 <= stalest(nodes) < nodes.len(),
        forall|j: int|
            0 <= j < nodes.len() ==> nodes[stalest(nodes)].last_seen <= (
            #[trigger] nodes[j]).last_seen,
    decreases nodes.len(),
{
    if nodes.len() > 1 {
        let q = nodes.drop_last();
        lemma_stalest(q);
        assert forall|j: int| 0 <= j < nodes.len() implies nodes[stalest(nodes)].last_seen <= (
        #[trigger] nodes[j]).last_seen by {
            if j < q.len() {
                assert(q[j] == nodes[j]);
            }
        }
    }
}

proof fn lemma_heard_of_in_place(b: Bucket, ours: Id20, node: RoutingNode)
    requires
        bucket_in_place(b, ours),
        b.nodes.len() <= K,
        has_prefix(b.prefix, xor_bytes(ours@, node.id@)),
        node.id != ours,
    ensures
        heard_of(b.nodes, node).len() <= K,
        bucket_in_place(Bucket { prefix: b.prefix, nodes: heard_of(b.nodes, node) }, ours),
{
    let nodes = b.nodes;
    let after = heard_of(nodes, node);
    let at = position(nodes, node.id);
    lemma_position(nodes, node.id);
    lemma_first_bad(nodes);
    if nodes.len() > 0 {
        lemma_stalest(nodes);
    }
    let bad = first_bad(nodes);
    let fresh = at >= nodes.len() && nodes.len() >= K && bad < nodes.len();
    assert forall|j: int| 0 <= j < after.len() implies has_prefix(
        b.prefix,
        xor_bytes(ours@, (#[trigger] after[j]).id@),
    ) && after[j].id != ours by {
        if j < nodes.len() {
            assert(nodes[j].id != ours);
            assert(after[j].id == nodes[j].id || after[j].id == node.id);
        }
    }
    assert forall|j: int, k: int| 0 <= j < k < after.len() implies (#[trigger] after[j]).id != (
    #[trigger] after[k]).id by {
        assert(nodes[j].id != node.id || at < nodes.len());
        if k < nodes.len() {
            assert(nodes[j].id != nodes[k].id);
            if fresh {
                assert(nodes[k].id != node.id);
            }
        }
    }
}

proof fn lemma_settled(buckets: Seq<Bucket>, ours: Id20, id: Id20)
    requires
        well_placed(buckets, ours),
    ensures
        well_placed(settled(buckets, ours, id), ours),
        ({
            let ready = settled(buckets, ours, id);
            let at = home(ready, xor_bytes(ours@, id@));
            &&& 0 <= at < ready.len()
            &&& !must_split(ready[at], id)
            &&& has_prefix(ready[at].prefix, xor_bytes(ours@, id@))
        }),
    decreases 160 - buckets[home(buckets, xor_bytes(ours@, id@))].prefix.len(),
{
    let d = xor_bytes(ours@, id@);
    let at = home(buckets, d);
    lemma_home(buckets, d);
    assert(0 <= at < buckets.len());
    if must_split(buckets[at], id) {
        let next = split_at(buckets, ours, at);
        lemma_split_in_place(buckets, ours, at);
        lemma_home_after_split(buckets, ours, at, d);
        let to = home(next, d);
        assert(next[at].prefix.len() == buckets[at].prefix.len() + 1);
        assert(next[at + 1].prefix.len() == buckets[at].prefix.len() + 1);
        lemma_settled(next, ours, id);
    }
}

/// Hearing of a node keeps the table in order: no bucket is over-full, every contact stands once
/// in the bucket of its distance, and we are not among them.
pub proof fn order_is_kept(buckets: Seq<Bucket>, ours: Id20, node: RoutingNode)
    requires
        well_placed(buckets, ours),
    ensures
        well_placed(with_node(buckets, ours, node), ours),
{
    if node.id != ours {
        let d = xor_bytes(ours@, node.id@);
        lemma_settled(buckets, ours, node.id);
        let ready = settled(buckets, ours, node.id);
        let at = home(ready, d);
        let b = ready[at];
        assert(bucket_in_place(b, ours));
        lemma_heard_of_in_place(b, ours, node);
        let after = with_node(buckets, ours, node);
        assert forall|i: int| 0 <= i < after.len() implies (#[trigger] after[i]).prefix
            == ready[i].prefix && after[i].nodes.len() <= K && bucket_in_place(after[i], ours) by {
            if i != at {
                assert(after[i] == ready[i]);
            }
        }
        assert forall|e: Seq<u8>| e.len() == 20 implies 0 <= #[trigger] home(after, e)
            < after.len() && home(after, e) == home(ready, e) by {
            lemma_home(ready, e);
            let h = home(ready, e);
            assert(0 <= h < ready.len());
            assert(after[h].prefix == ready[h].prefix);
            assert forall|j: int| 0 <= j < h implies !has_prefix((#[trigger] after[j]).prefix, e) by {
                assert(after[j].prefix == ready[j].prefix);
            }
            lemma_home_is(after, e, h);
        }
        assert forall|e: Seq<u8>, i: int|
            e.len() == 20 && 0 <= i < after.len() && #[trigger] has_prefix(
                after[i].prefix,
                e,
            ) implies i == home(after, e) by {
            assert(0 <= home(after, e) < after.len());
            assert(has_prefix(ready[i].prefix, e));
        }
        assert(home(after, no_distance()) == home(ready, no_distance()));
    }
}

/// True when a contact with that identifier stands in the table.
pub open spec fn knows(buckets: Seq<Bucket>, id: Id20) -> bool {
    exists|i: int, j: int|
        0 <= i < buckets.len() && 0 <= j < buckets[i].nodes.len() && (
        #[trigger] buckets[i].nodes[j]).id == id
}

/// True when a contact with that identifier stands in the table and is not known to be dead.
pub open spec fn trusts(buckets: Seq<Bucket>, id: Id20) -> bool {
    exists|i: int, j: int|
        0 <= i < buckets.len() && 0 <= j < buckets[i].nodes.len() && (
        #[trigger] buckets[i].nodes[j]).id == id && !(buckets[i].nodes[j].liveness is Bad)
}

proof fn lemma_split_keeps(buckets: Seq<Bucket>, ours: Id20, at: int, id: Id20)
    requires
        0 <= at < buckets.len(),
        trusts(buckets, id),
    ensures
        trusts(split_at(buckets, ours, at), id),
{
    let next = split_at(buckets, ours, at);
    let (i, j) = choose|i: int, j: int|
        0 <= i < buckets.len() && 0 <= j < buckets[i].nodes.len() && (
        #[trigger] buckets[i].nodes[j]).id == id && !(buckets[i].nodes[j].liveness is Bad);
    if i < at {
        assert(next[i] == buckets[i]);
        assert(next[i].nodes[j].id == id);
    } else if i > at {
        assert(next[i + 1] == buckets[i]);
        assert(next[i + 1].nodes[j].id == id);
    } else {
        let b = buckets[at];
        let n = b.prefix.len() as int;
        let bit = id_bit(xor_bytes(ours@, b.nodes[j].id@), n);
        lemma_with_bit(b.nodes, ours, n, bit);
        let h = half(b, ours, bit);
        let k = choose|k: int| 0 <= k < h.nodes.len() && h.nodes[k] == b.nodes[j];
        let to = if bit {
            at + 1
        } else {
            at
        };
        assert(next[to] == h);
        assert(next[to].nodes[k].id == id);
    }
}

proof fn lemma_settled_keeps(buckets: Seq<Bucket>, ours: Id20, new: Id20, id: Id20)
    requires
        well_placed(buckets, ours),
        trusts(buckets, id),
    ensures
        trusts(settled(buckets, ours, new), id),
    decreases 160 - buckets[home(buckets, xor_bytes(ours@, new@))].prefix.len(),
{
    let d = xor_bytes(ours@, new@);
    let at = home(buckets, d);
    assert(0 <= at < buckets.len());
    if must_split(buckets[at], new) {
        let next = split_at(buckets, ours, at);
        lemma_split_keeps(buckets, ours, at, id);
        lemma_split_in_place(buckets, ours, at);
        lemma_home_after_split(buckets, ours, at, d);
        assert(next[at].prefix.len() == buckets[at].prefix.len() + 1);
        assert(next[at + 1].prefix.len() == buckets[at].prefix.len() + 1);
        lemma_settled_keeps(next, ours, new, id);
    }
}

/// A contact that is not known to be dead stays in the table when another node is heard of.
pub proof fn trusted_contacts_stay(buckets: Seq<Bucket>, ours: Id20, node: RoutingNode, id: Id20)
    requires
        well_placed(buckets, ours),
        trusts(buckets, id),
    ensures
        knows(with_node(buckets, ours, node), id),
{
    let after = with_node(buckets, ours, node);
    if node.id == ours {
        let (i, j) = choose|i: int, j: int|
            0 <= i < buckets.len() && 0 <= j < buckets[i].nodes.len() && (
            #[trigger] buckets[i].nodes[j]).id == id && !(buckets[i].nodes[j].liveness is Bad);
        assert(after[i].nodes[j].id == id);
    } else {
        let d = xor_bytes(ours@, node.id@);
        lemma_settled_keeps(buckets, ours, node.id, id);
        lemma_settled(buckets, ours, node.id);
        let ready = settled(buckets, ours, node.id);
        let at = home(ready, d);
        let (i, j) = choose|i: int, j: int|
            0 <= i < ready.len() && 0 <= j < ready[i].nodes.len() && (
            #[trigger] ready[i].nodes[j]).id == id && !(ready[i].nodes[j].liveness is Bad);
        if i == at {
            let nodes = ready[at].nodes;
            lemma_position(nodes, node.id);
            lemma_first_bad(nodes);
            lemma_stalest(nodes);
            assert(after[i].nodes[j].id == id);
        } else {
            assert(after[i] == ready[i]);
            assert(after[i].nodes[j].id == id);
        }
    }
}

/// A node that is heard of stands in the table, unless its bucket is full of other contacts none
/// of which is known to be dead.
pub proof fn heard_of_nodes_enter(buckets: Seq<Bucket>, ours: Id20, node: RoutingNode)
    requires
        well_placed(buckets, ours),
        node.id != ours,
    ensures
        knows(with_node(buckets, ours, node), node.id) || ({
            let ready = settled(buckets, ours, node.id);
            let b = ready[home(ready, xor_bytes(ours@, node.id@))];
            &&& b.nodes.len() == K
            &&& forall|j: int| 0 <= j < K ==> !((#[trigger] b.nodes[j]).liveness is Bad)
        }),
{
    let d = xor_bytes(ours@, node.id@);
    lemma_settled(buckets, ours, node.id);
    let ready = settled(buckets, ours, node.id);
    let at = home(ready, d);
    let nodes = ready[at].nodes;
    let after = with_node(buckets, ours, node);
    lemma_position(nodes, node.id);
    lemma_first_bad(nodes);
    let p = position(nodes, node.id);
    if p < nodes.len() {
        assert(after[at].nodes[p].id == node.id);
    } else if nodes.len() < K {
        assert(after[at].nodes[nodes.len() as int].id == node.id);
    } else if first_bad(nodes) < nodes.len() {
        assert(after[at].nodes[first_bad(nodes)].id == node.id);
    }
}

impl RoutingTable {
    pub closed spec fn our_id(self) -> Id20 {
        self.our_id
    }

    pub closed spec fn buckets(self) -> Seq<Bucket> {
        Seq::new(self.buckets@.len(), |i: int| self.buckets@[i]@)
    }

    /// True of every table.
    pub open spec fn wf(self) -> bool {
        well_placed(self.buckets(), self.our_id())
    }

    pub fn new(our_id: Id20) -> (r: Self)
        ensures
            r.wf(),
            r.our_id() == our_id,
            r.buckets() == seq![Bucket { prefix: seq![], nodes: seq![] }],
    {
        let mut buckets: Vec<RoutingBucket> = Vec::new();
        buckets.push(RoutingBucket { prefix: Vec::new(), nodes: Vec::new() });
        let r = RoutingTable { our_id, buckets };
        proof {
            let b = r.buckets();
            assert(b =~= seq![Bucket { prefix: seq![], nodes: seq![] }]) by {
                assert(b[0].prefix =~= seq![]);
                assert(b[0].nodes =~= seq![]);
            }
            assert forall|d: Seq<u8>| #[trigger] home(b, d) == 0 by {
                assert(has_prefix(b[0].prefix, d));
            }
            assert(home(b, no_distance()) == 0);
        }
        r
    }

    fn bucket_index(&self, distance: &Id20) -> (r: usize)
        requires
            self.wf(),
        ensures
            r == home(self.buckets(), distance@),
            r <= self.buckets().len(),
    {
        let mut i: usize = 0;
        assert(self.buckets().skip(0) =~= self.buckets());
        while i < self.buckets.len()
            invariant
                i <= self.buckets.len(),
                self.wf(),
                home(self.buckets(), distance@) == i + home(
                    self.buckets().skip(i as int),
                    distance@,
                ),
            decreases self.buckets.len() - i,
        {
            proof {
                let rest = self.buckets().skip(i as int);
                assert(rest[0] == self.buckets()[i as int]);
                assert(self.buckets()[i as int] == self.buckets@[i as int]@);
                assert(rest.drop_first() =~= self.buckets().skip(i + 1));
            }
            if self.buckets[i].matches(distance) {
                return i;
            }
            i += 1;
        }
        i
    }

    fn split_bucket(&mut self, index: usize)
        requires
            index < old(self).buckets().len(),
            old(self).buckets()[index as int].prefix.len() < 160,
        ensures
            final(self).our_id() == old(self).our_id(),
            final(self).buckets() == split_at(
                old(self).buckets(),
                old(self).our_id(),
                index as int,
            ),
    {
        let ghost before = self.buckets();
        let bucket = self.buckets.remove(index);
        assert(bucket@ == before[index as int]);
        let zero = bucket.child(&self.our_id, false);
        let one = bucket.child(&self.our_id, true);
        self.buckets.insert(index, one);
        self.buckets.insert(index, zero);
        assert(self.buckets() =~= split_at(before, self.our_id(), index as int));
    }

    /// A node has answered: it is alive.
    pub fn add(&mut self, id: Id20, addr: SocketAddr, now: u64)
        requires
            old(self).wf(),
        ensures
            final(self).wf(),
            final(self).our_id() == old(self).our_id(),
            final(self).buckets() == with_node(
                old(self).buckets(),
                old(self).our_id(),
                RoutingNode { id, addr, last_seen: now, liveness: RoutingLiveness::Good },
            ),
    {
        self.add_with_liveness(id, addr, RoutingLiveness::Good, now);
    }

    /// A node was heard of.
    pub fn add_with_liveness(
        &mut self,
        id: Id20,
        addr: SocketAddr,
        liveness: RoutingLiveness,
        now: u64,
    )
        requires
            old(self).wf(),
        ensures
            final(self).wf(),
            final(self).our_id() == old(self).our_id(),
            final(self).buckets() == with_node(
                old(self).buckets(),
                old(self).our_id(),
                RoutingNode { id, addr, last_seen: now, liveness },
            ),
    {
        if id == self.our_id {
            return;
        }
        let distance = self.our_id.distance(&id);
        let ghost ours = self.our_id();
        let ghost d = xor_bytes(ours@, id@);
        let node = RoutingNode { id, addr, last_seen: now, liveness };
        proof {
            order_is_kept(self.buckets(), ours, node);
        }
        loop
            invariant
                self.wf(),
                self.our_id() == ours,
                ours == old(self).our_id(),
                id != ours,
                d == xor_bytes(ours@, id@),
                distance@ == d,
                node == (RoutingNode { id, addr, last_seen: now, liveness }),
                settled(self.buckets(), ours, id) == settled(old(self).buckets(), ours, id),
                well_placed(with_node(old(self).buckets(), ours, node), ours),
            decreases 160 - self.buckets()[home(self.buckets(), d)].prefix.len(),
        {
            let idx: usize = self.bucket_index(&distance);
            let ghost before = self.buckets();
            proof {
                assert(0 <= home(before, d) < before.len());
                assert(before[idx as int] == self.buckets@[idx as int]@);
            }
            let at: usize = self.buckets[idx].position_of(&id);
            let count: usize = self.buckets[idx].nodes.len();
            if at >= count && count >= K && self.buckets[idx].contains_ours()
                && self.buckets[idx].prefix.len() < 160 {
                proof {
                    lemma_split_in_place(before, ours, idx as int);
                    lemma_home_after_split(before, ours, idx as int, d);
                    let next = split_at(before, ours, idx as int);
                    assert(next[idx as int].prefix.len() == before[idx as int].prefix.len() + 1);
                    assert(next[idx + 1].prefix.len() == before[idx as int].prefix.len() + 1);
                    assert(must_split(before[idx as int], id));
                }
                self.split_bucket(idx);
                continue ;
            }
            proof {
                assert(!must_split(before[idx as int], id));
                assert(settled(before, ours, id) == before);
                lemma_first_bad(before[idx as int].nodes);
            }
            if at < count {
                let known = self.buckets[idx].nodes[at];
                if !(known.liveness == RoutingLiveness::Good && liveness != RoutingLiveness::Good) {
                    self.replace_node(
                        idx,
                        at,
                        RoutingNode { id: known.id, addr, last_seen: now, liveness },
                    );
                } else {
                    proof {
                        let b = before[idx as int];
                        assert(heard_of(b.nodes, node) =~= b.nodes);
                        assert(before.update(
                            idx as int,
                            Bucket { prefix: b.prefix, nodes: heard_of(b.nodes, node) },
                        ) =~= before);
                    }
                }
            } else if count < K {
                self.push_node(idx, node);
            } else {
                let bad: usize = self.buckets[idx].first_bad_position();
                if bad < count {
                    self.replace_node(idx, bad, node);
                } else {
                    let old_at: usize = self.buckets[idx].stalest_position();
                    let stale = self.buckets[idx].nodes[old_at];
                    self.replace_node(
                        idx,
                        old_at,
                        RoutingNode {
                            id: stale.id,
                            addr: stale.addr,
                            last_seen: stale.last_seen,
                            liveness: RoutingLiveness::Questionable,
                        },
                    );
                }
            }
            return ;
        }
    }

    fn replace_node(&mut self, bucket: usize, at: usize, node: RoutingNode)
        requires
            bucket < old(self).buckets().len(),
            at < old(self).buckets()[bucket as int].nodes.len(),
        ensures
            final(self).our_id() == old(self).our_id(),
            ({
                let b = old(self).buckets()[bucket as int];
                final(self).buckets() == old(self).buckets().update(
                    bucket as int,
                    Bucket { prefix: b.prefix, nodes: b.nodes.update(at as int, node) },
                )
            }),
    {
        let ghost before = self.buckets();
        let mut b = self.buckets.remove(bucket);
        assert(b@ == before[bucket as int]);
        b.nodes.set(at, node);
        self.buckets.insert(bucket, b);
        assert(self.buckets() =~= before.update(
            bucket as int,
            Bucket {
                prefix: before[bucket as int].prefix,
                nodes: before[bucket as int].nodes.update(at as int, node),
            },
        ));
    }

    fn push_node(&mut self, bucket: usize, node: RoutingNode)
        requires
            bucket < old(self).buckets().len(),
        ensures
            final(self).our_id() == old(self).our_id(),
            ({
                let b = old(self).buckets()[bucket as int];
                final(self).buckets() == old(self).buckets().update(
                    bucket as int,
                    Bucket { prefix: b.prefix, nodes: b.nodes.push(node) },
                )
            }),
    {
        let ghost before = self.buckets();
        let mut b = self.buckets.remove(bucket);
        assert(b@ == before[bucket as int]);
        b.nodes.push(node);
        self.buckets.insert(bucket, b);
        assert(self.buckets() =~= before.update(
            bucket as int,
            Bucket {
                prefix: before[bucket as int].prefix,
                nodes: before[bucket as int].nodes.push(node),
            },
        ));
    }
}

/// All contacts, bucket by bucket.
pub open spec fn contacts(buckets: Seq<Bucket>) -> Seq<RoutingNode>
    decreases buckets.len(),
{
    if buckets.len() == 0 {
        seq![]
    } else {
        contacts(buckets.drop_last()) + buckets.last().nodes
    }
}

/// The contacts that are not known to be dead, in their order.
pub open spec fn live(nodes: Seq<RoutingNode>) -> Seq<RoutingNode>
    decreases nodes.len(),
{
    if nodes.len() == 0 {
        seq![]
    } else if nodes.last().liveness is Bad {
        live(nodes.drop_last())
    } else {
        live(nodes.drop_last()).push(nodes.last())
    }
}

/// The identifier and endpoint of each contact.
pub open spec fn addresses(nodes: Seq<RoutingNode>) -> Seq<(Id20, SocketAddr)> {
    Seq::new(nodes.len(), |i: int| (nodes[i].id, nodes[i].addr))
}

/// Each contact with its distance from the target.
pub open spec fn by_distance(nodes: Seq<RoutingNode>, target: Id20) -> Seq<
    (Seq<u8>, (Id20, SocketAddr)),
> {
    Seq::new(
        nodes.len(),
        |i: int| (xor_bytes(nodes[i].id@, target@), (nodes[i].id, nodes[i].addr)),
    )
}

/// The second parts.
pub open spec fn payloads<T>(p: Seq<(Seq<u8>, T)>) -> Seq<T> {
    Seq::new(p.len(), |i: int| p[i].1)
}

/// The first `n` items, or all where there are fewer.
pub open spec fn at_most<T>(s: Seq<T>, n: nat) -> Seq<T> {
    if s.len() <= n {
        s
    } else {
        s.take(n as int)
    }
}

/// The `n` items that are closest to the target, the closest first.
pub open spec fn closest(nodes: Seq<RoutingNode>, target: Id20, n: nat) -> Seq<
    (Id20, SocketAddr),
> {
    at_most(payloads(sorted(by_distance(nodes, target))), n)
}

/// The contacts that have gone stale are asked again: each falls by one step of trust, and at
/// most `room` of them at a time. The second result names those that are to be asked.
pub open spec fn aged(nodes: Seq<RoutingNode>, now: u64, room: nat) -> (
    Seq<RoutingNode>,
    Seq<(Id20, SocketAddr)>,
)
    decreases nodes.len(),
{
    if nodes.len() == 0 {
        (seq![], seq![])
    } else {
        let (rest, asked) = aged(nodes.drop_last(), now, room);
        let node = nodes.last();
        if asked.len() < room && !(node.liveness is Bad) && now - node.last_seen
            >= ROUTING_STALE_MS {
            (
                rest.push(
                    RoutingNode {
                        last_seen: now,
                        liveness: if node.liveness is Good {
                            RoutingLiveness::Questionable
                        } else {
                            RoutingLiveness::Bad
                        },
                        ..node
                    },
                ),
                asked.push((node.id, node.addr)),
            )
        } else {
            (rest.push(node), asked)
        }
    }
}

/// The buckets after stale contacts were asked again, and those contacts.
pub open spec fn aged_buckets(buckets: Seq<Bucket>, now: u64, room: nat) -> (
    Seq<Bucket>,
    Seq<(Id20, SocketAddr)>,
)
    decreases buckets.len(),
{
    if buckets.len() == 0 {
        (seq![], seq![])
    } else {
        let (rest, asked) = aged_buckets(buckets.drop_last(), now, room);
        let b = buckets.last();
        let (nodes, more) = aged(b.nodes, now, (room - asked.len()) as nat);
        (rest.push(Bucket { prefix: b.prefix, nodes }), asked + more)
    }
}

proof fn lemma_aged(nodes: Seq<RoutingNode>, now: u64, room: nat)
    ensures
        aged(nodes, now, room).0.len() == nodes.len(),
        aged(nodes, now, room).1.len() <= room,
        forall|j: int|
            0 <= j < nodes.len() ==> (#[trigger] aged(nodes, now, room).0[j]).id == nodes[j].id,
    decreases nodes.len(),
{
    if nodes.len() > 0 {
        lemma_aged(nodes.drop_last(), now, room);
        let (rest, asked) = aged(nodes.drop_last(), now, room);
        let all = aged(nodes, now, room).0;
        assert forall|j: int| 0 <= j < nodes.len() implies (#[trigger] all[j]).id
            == nodes[j].id by {
            if j < rest.len() {
                assert(all[j] == rest[j]);
                assert(nodes.drop_last()[j] == nodes[j]);
            }
        }
    }
}

proof fn lemma_aged_buckets(buckets: Seq<Bucket>, now: u64, room: nat)
    ensures
        aged_buckets(buckets, now, room).0.len() == buckets.len(),
        aged_buckets(buckets, now, room).1.len() <= room,
        forall|i: int|
            0 <= i < buckets.len() ==> same_shape(
                #[trigger] aged_buckets(buckets, now, room).0[i],
                buckets[i],
            ),
    decreases buckets.len(),
{
    if buckets.len() > 0 {
        lemma_aged_buckets(buckets.drop_last(), now, room);
        let (rest, asked) = aged_buckets(buckets.drop_last(), now, room);
        let all = aged_buckets(buckets, now, room).0;
        lemma_aged(buckets.last().nodes, now, (room - asked.len()) as nat);
        assert forall|i: int| 0 <= i < buckets.len() implies same_shape(
            #[trigger] all[i],
            buckets[i],
        ) by {
            if i < rest.len() {
                assert(all[i] == rest[i]);
                assert(buckets.drop_last()[i] == buckets[i]);
            }
        }
    }
}

/// True when the two buckets have the same prefix and the same identifiers in the same places.
pub open spec fn same_shape(a: Bucket, b: Bucket) -> bool {
    &&& a.prefix == b.prefix
    &&& a.nodes.len() == b.nodes.len()
    &&& forall|j: int| 0 <= j < a.nodes.len() ==> (#[trigger] a.nodes[j]).id == b.nodes[j].id
}

proof fn lemma_same_shape_in_place(after: Seq<Bucket>, before: Seq<Bucket>, ours: Id20)
    requires
        well_placed(before, ours),
        after.len() == before.len(),
        forall|i: int| 0 <= i < before.len() ==> same_shape(#[trigger] after[i], before[i]),
    ensures
        well_placed(after, ours),
{
    assert forall|i: int| 0 <= i < after.len() implies (#[trigger] after[i]).nodes.len() <= K
        && after[i].prefix.len() <= 160 && bucket_in_place(after[i], ours) by {
        let a = after[i];
        let b = before[i];
        assert(same_shape(a, b));
        assert(bucket_in_place(b, ours));
        assert forall|j: int| 0 <= j < a.nodes.len() implies has_prefix(
            a.prefix,
            xor_bytes(ours@, (#[trigger] a.nodes[j]).id@),
        ) && a.nodes[j].id != ours by {
            assert(a.nodes[j].id == b.nodes[j].id);
        }
        assert forall|j: int, k: int| 0 <= j < k < a.nodes.len() implies (#[trigger] a.nodes[j]).id
            != (#[trigger] a.nodes[k]).id by {
            assert(a.nodes[j].id == b.nodes[j].id);
            assert(a.nodes[k].id == b.nodes[k].id);
        }
    }
    assert forall|e: Seq<u8>| e.len() == 20 implies 0 <= #[trigger] home(after, e) < after.len()
        && home(after, e) == home(before, e) by {
        lemma_home(before, e);
        let h = home(before, e);
        assert(0 <= h < before.len());
        assert(same_shape(after[h], before[h]));
        assert forall|j: int| 0 <= j < h implies !has_prefix((#[trigger] after[j]).prefix, e) by {
            assert(same_shape(after[j], before[j]));
        }
        lemma_home_is(after, e, h);
    }
    assert forall|e: Seq<u8>, i: int|
        e.len() == 20 && 0 <= i < after.len() && #[trigger] has_prefix(
            after[i].prefix,
            e,
        ) implies i == home(after, e) by {
        assert(0 <= home(after, e) < after.len());
        assert(same_shape(after[i], before[i]));
        assert(has_prefix(before[i].prefix, e));
    }
    let h = home(after, no_distance());
    assert(h == home(before, no_distance()));
    assert(same_shape(after[h], before[h]));
}

impl RoutingTable {
    /// How many contacts the table holds.
    pub fn len(&self) -> (r: usize)
        requires
            self.wf(),
        ensures
            r == contacts(self.buckets()).len(),
            r <= 161 * K,
    {
        proof {
            assert(0 <= home(self.buckets(), no_distance()) < self.buckets().len());
            lemma_contacts_bound(self.buckets(), self.our_id());
        }
        let mut total: usize = 0;
        let mut i: usize = 0;
        assert(contacts(self.buckets().take(0)) =~= seq![]);
        while i < self.buckets.len()
            invariant
                i <= self.buckets.len(),
                contacts(self.buckets()).len() <= 161 * K,
                total == contacts(self.buckets().take(i as int)).len(),
            decreases self.buckets.len() - i,
        {
            proof {
                let next = self.buckets().take(i + 1);
                assert(next.drop_last() =~= self.buckets().take(i as int));
                assert(next.last() == self.buckets@[i as int]@);
                lemma_contacts_prefix(self.buckets(), i + 1);
            }
            total += self.buckets[i].nodes.len();
            i += 1;
        }
        assert(self.buckets().take(i as int) =~= self.buckets());
        total
    }

    /// All contacts, those that are known to be dead among them.
    pub fn nodes(&self) -> (r: Vec<RoutingNode>)
        ensures
            r@ == contacts(self.buckets()),
    {
        let mut out: Vec<RoutingNode> = Vec::new();
        let mut i: usize = 0;
        assert(contacts(self.buckets().take(0)) =~= seq![]);
        while i < self.buckets.len()
            invariant
                i <= self.buckets.len(),
                out@ == contacts(self.buckets().take(i as int)),
            decreases self.buckets.len() - i,
        {
            let ghost done = contacts(self.buckets().take(i as int));
            let ghost nodes = self.buckets@[i as int].nodes@;
            let mut j: usize = 0;
            assert(done + nodes.take(0) =~= done);
            while j < self.buckets[i as usize].nodes.len()
                invariant
                    i < self.buckets.len(),
                    nodes == self.buckets@[i as int].nodes@,
                    j <= nodes.len(),
                    out@ == done + nodes.take(j as int),
                decreases nodes.len() - j,
            {
                out.push(self.buckets[i].nodes[j]);
                assert(out@ =~= done + nodes.take(j + 1));
                j += 1;
            }
            proof {
                let next = self.buckets().take(i + 1);
                assert(next.drop_last() =~= self.buckets().take(i as int));
                assert(next.last() == self.buckets@[i as int]@);
                assert(nodes.take(j as int) =~= nodes);
            }
            i += 1;
        }
        assert(self.buckets().take(i as int) =~= self.buckets());
        out
    }

    fn live_nodes(&self) -> (r: Vec<RoutingNode>)
        ensures
            r@ == live(contacts(self.buckets())),
    {
        let nodes = self.nodes();
        let mut out: Vec<RoutingNode> = Vec::new();
        let mut i: usize = 0;
        assert(live(nodes@.take(0)) =~= seq![]);
        while i < nodes.len()
            invariant
                i <= nodes.len(),
                out@ == live(nodes@.take(i as int)),
            decreases nodes.len() - i,
        {
            let node = nodes[i];
            proof {
                assert(nodes@.take(i + 1).drop_last() =~= nodes@.take(i as int));
                assert(nodes@.take(i + 1).last() == node);
            }
            if node.liveness != RoutingLiveness::Bad {
                out.push(node);
            }
            i += 1;
        }
        assert(nodes@.take(i as int) =~= nodes@);
        out
    }

    /// The contacts that are worth keeping.
    pub fn snapshot(&self) -> (r: Vec<(Id20, SocketAddr)>)
        ensures
            r@ == addresses(live(contacts(self.buckets()))),
    {
        let nodes = self.live_nodes();
        let mut out: Vec<(Id20, SocketAddr)> = Vec::new();
        let mut i: usize = 0;
        while i < nodes.len()
            invariant
                i <= nodes.len(),
                out@ == addresses(nodes@).take(i as int),
            decreases nodes.len() - i,
        {
            out.push((nodes[i].id, nodes[i].addr));
            assert(out@ =~= addresses(nodes@).take(i + 1));
            i += 1;
        }
        assert(out@ =~= addresses(nodes@));
        out
    }

    /// The `n` contacts closest to the target.
    pub fn closest_nodes(&self, target: &Id20, n: usize) -> (r: Vec<(Id20, SocketAddr)>)
        ensures
            r@ == closest(live(contacts(self.buckets())), *target, n as nat),
    {
        let nodes = self.live_nodes();
        let mut list: Vec<(Id20, SocketAddr)> = Vec::new();
        let mut i: usize = 0;
        while i < nodes.len()
            invariant
                i <= nodes.len(),
                list@ == addresses(nodes@).take(i as int),
            decreases nodes.len() - i,
        {
            list.push((nodes[i].id, nodes[i].addr));
            assert(list@ =~= addresses(nodes@).take(i + 1));
            i += 1;
        }
        assert(keyed(list@, *target) =~= by_distance(nodes@, *target));
        nearest(&list, target, n)
    }

    /// Ask stale contacts again, at most `limit` at a time.
    pub fn refresh_stale(&mut self, now: u64, limit: usize) -> (r: Vec<(Id20, SocketAddr)>)
        requires
            old(self).wf(),
        ensures
            final(self).wf(),
            final(self).our_id() == old(self).our_id(),
            ({
                let (buckets, asked) = aged_buckets(old(self).buckets(), now, limit as nat);
                final(self).buckets() == buckets && r@ == asked
            }),
    {
        let ghost before = self.buckets();
        let ghost ours = self.our_id();
        let mut out: Vec<(Id20, SocketAddr)> = Vec::new();
        let mut done: Vec<RoutingBucket> = Vec::new();
        let mut i: usize = 0;
        proof {
            assert(aged_buckets(before.take(0), now, limit as nat).0 =~= seq![]);
            lemma_aged_buckets(before, now, limit as nat);
            lemma_same_shape_in_place(
                aged_buckets(before, now, limit as nat).0,
                before,
                ours,
            );
        }
        while i < self.buckets.len()
            invariant
                i <= self.buckets.len(),
                self.buckets() == before,
                self.our_id() == ours,
                done.len() == i,
                out@ == aged_buckets(before.take(i as int), now, limit as nat).1,
                forall|k: int|
                    0 <= k < i ==> (#[trigger] done@[k])@ == aged_buckets(
                        before.take(i as int),
                        now,
                        limit as nat,
                    ).0[k],
            decreases self.buckets.len() - i,
        {
            let ghost asked = out@;
            let ghost room = (limit - asked.len()) as nat;
            proof {
                lemma_aged_buckets(before.take(i as int), now, limit as nat);
            }
            let bucket = &self.buckets[i];
            let ghost old_nodes = bucket.nodes@;
            let mut nodes: Vec<RoutingNode> = Vec::new();
            let mut j: usize = 0;
            assert(asked + aged(old_nodes.take(0), now, room).1 =~= asked);
            while j < bucket.nodes.len()
                invariant
                    j <= bucket.nodes.len(),
                    old_nodes == bucket.nodes@,
                    asked.len() <= limit,
                    room == (limit - asked.len()) as nat,
                    nodes@ == aged(old_nodes.take(j as int), now, room).0,
                    out@ == asked + aged(old_nodes.take(j as int), now, room).1,
                decreases bucket.nodes.len() - j,
            {
                let node = bucket.nodes[j];
                proof {
                    let s = old_nodes.take(j + 1);
                    assert(s.drop_last() =~= old_nodes.take(j as int));
                    assert(s.last() == node);
                }
                let ghost before_out = out@;
                if out.len() < limit && node.liveness != RoutingLiveness::Bad && now
                    >= node.last_seen && now - node.last_seen >= ROUTING_STALE_MS {
                    let liveness = if node.liveness == RoutingLiveness::Good {
                        RoutingLiveness::Questionable
                    } else {
                        RoutingLiveness::Bad
                    };
                    nodes.push(
                        RoutingNode { id: node.id, addr: node.addr, last_seen: now, liveness },
                    );
                    out.push((node.id, node.addr));
                    assert(out@ =~= asked + aged(old_nodes.take(j + 1), now, room).1);
                } else {
                    nodes.push(node);
                }
                j += 1;
            }
            let mut prefix: Vec<bool> = Vec::new();
            let mut k: usize = 0;
            while k < bucket.prefix.len()
                invariant
                    k <= bucket.prefix.len(),
                    prefix@ == bucket.prefix@.take(k as int),
                decreases bucket.prefix.len() - k,
            {
                prefix.push(bucket.prefix[k]);
                assert(prefix@ =~= bucket.prefix@.take(k + 1));
                k += 1;
            }
            proof {
                assert(prefix@ =~= bucket.prefix@);
                assert(old_nodes.take(j as int) =~= old_nodes);
                let next = before.take(i + 1);
                assert(next.drop_last() =~= before.take(i as int));
                assert(next.last() == bucket@);
                assert(bucket@ == before[i as int]);
            }
            let ghost fresh = RoutingBucket { prefix, nodes };
            done.push(RoutingBucket { prefix, nodes });
            proof {
                let all = aged_buckets(before.take(i + 1), now, limit as nat).0;
                let rest = aged_buckets(before.take(i as int), now, limit as nat).0;
                assert forall|m: int| 0 <= m < i + 1 implies (#[trigger] done@[m])@ == all[m] by {
                    if m < i {
                        assert(all[m] == rest[m]);
                    }
                }
            }
            i += 1;
        }
        assert(before.take(i as int) =~= before);
        self.buckets = done;
        assert(self.buckets() =~= aged_buckets(before, now, limit as nat).0);
        out
    }
}

proof fn lemma_contacts_prefix(buckets: Seq<Bucket>, n: int)
    requires
        0 <= n <= buckets.len(),
    ensures
        contacts(buckets.take(n)).len() <= contacts(buckets).len(),
    decreases buckets.len() - n,
{
    if n < buckets.len() {
        lemma_contacts_prefix(buckets, n + 1);
        assert(buckets.take(n + 1).drop_last() =~= buckets.take(n));
    } else {
        assert(buckets.take(n) =~= buckets);
    }
}

proof fn lemma_contacts_bound(buckets: Seq<Bucket>, ours: Id20)
    requires
        forall|i: int| 0 <= i < buckets.len() ==> (#[trigger] buckets[i]).nodes.len() <= K,
    ensures
        contacts(buckets).len() <= buckets.len() * K,
    decreases buckets.len(),
{
    if buckets.len() > 0 {
        let rest = buckets.drop_last();
        assert forall|i: int| 0 <= i < rest.len() implies (#[trigger] rest[i]).nodes.len() <= K by {
            assert(rest[i] == buckets[i]);
        }
        lemma_contacts_bound(rest, ours);
        assert(buckets[buckets.len() - 1].nodes.len() <= K);
    }
}

/// Each endpoint with the distance of its identifier from the target.
pub open spec fn keyed(list: Seq<(Id20, SocketAddr)>, target: Id20) -> Seq<
    (Seq<u8>, (Id20, SocketAddr)),
> {
    Seq::new(list.len(), |i: int| (xor_bytes(list[i].0@, target@), list[i]))
}

spec fn keyed_views(p: Seq<(Id20, (Id20, SocketAddr))>) -> Seq<(Seq<u8>, (Id20, SocketAddr))> {
    Seq::new(p.len(), |i: int| (p[i].0@, p[i].1))
}

fn distance_slot(p: &Vec<(Id20, (Id20, SocketAddr))>, key: &Id20) -> (r: usize)
    ensures
        r == slot(keyed_views(p@), key@),
        r <= p.len(),
{
    let mut n: usize = p.len();
    let ghost views = keyed_views(p@);
    assert(views.take(n as int) =~= views);
    while n > 0 && bytes_less(key.0.as_slice(), p[n - 1].0.0.as_slice())
        invariant
            n <= p.len(),
            views == keyed_views(p@),
            slot(views, key@) == slot(views.take(n as int), key@),
        decreases n,
    {
        assert(views.take(n as int).drop_last() =~= views.take(n - 1));
        n -= 1;
    }
    n
}

/// The `n` endpoints whose identifiers are closest to the target, the closest first.
pub fn nearest(list: &Vec<(Id20, SocketAddr)>, target: &Id20, n: usize) -> (r: Vec<
    (Id20, SocketAddr),
>)
    ensures
        r@ == at_most(payloads(sorted(keyed(list@, *target))), n as nat),
{
    let mut p: Vec<(Id20, (Id20, SocketAddr))> = Vec::new();
    let mut i: usize = 0;
    let ghost all = keyed(list@, *target);
    assert(keyed_views(p@) =~= sorted(all.take(0)));
    while i < list.len()
        invariant
            i <= list.len(),
            all == keyed(list@, *target),
            keyed_views(p@) == sorted(all.take(i as int)),
        decreases list.len() - i,
    {
        let key = list[i].0.distance(target);
        let at: usize = distance_slot(&p, &key);
        let ghost before = p@;
        p.insert(at, (key, list[i]));
        proof {
            let next = all.take(i + 1);
            assert(next.drop_last() =~= all.take(i as int));
            assert(next.last() == (key@, list@[i as int]));
            assert(keyed_views(p@) =~= keyed_views(before).insert(
                at as int,
                (key@, list@[i as int]),
            ));
        }
        i += 1;
    }
    assert(all.take(i as int) =~= all);
    let mut out: Vec<(Id20, SocketAddr)> = Vec::new();
    let mut k: usize = 0;
    let ghost views = keyed_views(p@);
    while k < p.len() && k < n
        invariant
            k <= p.len(),
            k <= n,
            views == keyed_views(p@),
            out@ == payloads(views).take(k as int),
        decreases p.len() - k,
    {
        out.push(p[k].1);
        assert(out@ =~= payloads(views).take(k + 1));
        k += 1;
    }
    assert(out@ =~= at_most(payloads(views), n as nat));
    out
}

proof fn lemma_sorted_members<T>(p: Seq<(Seq<u8>, T)>)
    ensures
        forall|e: (Seq<u8>, T)| #[trigger] sorted(p).contains(e) <==> p.contains(e),
{
    sorting_is_a_permutation(p);
    broadcast use vstd::seq_lib::group_to_multiset_ensures;

    assert forall|e: (Seq<u8>, T)| #[trigger] sorted(p).contains(e) <==> p.contains(e) by {
        assert(sorted(p).to_multiset().count(e) == p.to_multiset().count(e));
    }
}

/// True when the first identifier is at least as near to the target as the second.
pub open spec fn as_near(a: Id20, b: Id20, target: Id20) -> bool {
    !lex_less(xor_bytes(b@, target@), xor_bytes(a@, target@))
}

/// True when nobody on a list is farther from the target than an identifier.
pub open spec fn none_farther(list: Seq<(Id20, SocketAddr)>, id: Id20, target: Id20) -> bool {
    forall|i: int| 0 <= i < list.len() ==> as_near((#[trigger] list[i]).0, id, target)
}

/// The nearest of a list are named, the nearest first: nobody who is not on the list, and one of
/// the list is left out only where `n` others that are at least as near to the target are named.
pub proof fn the_nearest_are_named(list: Seq<(Id20, SocketAddr)>, target: Id20, n: nat)
    ensures
        ({
            let out = at_most(payloads(sorted(keyed(list, target))), n);
            &&& out.len() == (if list.len() < n {
                list.len()
            } else {
                n
            })
            &&& forall|x: (Id20, SocketAddr)| #[trigger] out.contains(x) ==> list.contains(x)
            &&& forall|x: (Id20, SocketAddr)| #[trigger]
                list.contains(x) && !out.contains(x) ==> out.len() == n && none_farther(
                    out,
                    x.0,
                    target,
                )
            &&& forall|i: int, j: int|
                0 <= i < j < out.len() ==> as_near(
                    (#[trigger] out[i]).0,
                    (#[trigger] out[j]).0,
                    target,
                )
        }),
{
    let p = keyed(list, target);
    let all = sorted(p);
    let named = payloads(all);
    let out = at_most(named, n);
    sorting_is_a_permutation(p);
    lemma_sorted_members(p);
    assert forall|k: int| 0 <= k < all.len() implies list.contains(#[trigger] named[k]) && all[k].0
        == xor_bytes(named[k].0@, target@) by {
        assert(all.contains(all[k]));
        let j = choose|j: int| 0 <= j < p.len() && p[j] == all[k];
        assert(list[j] == named[k]);
    }
    assert forall|x: (Id20, SocketAddr)| #[trigger] out.contains(x) implies list.contains(x) by {
        let k = choose|k: int| 0 <= k < out.len() && out[k] == x;
        assert(named[k] == x);
    }
    assert forall|x: (Id20, SocketAddr)| #[trigger]
        list.contains(x) && !out.contains(x) implies out.len() == n && none_farther(
        out,
        x.0,
        target,
    ) by {
        let j = choose|j: int| 0 <= j < list.len() && list[j] == x;
        assert(p.contains(p[j]));
        assert(all.contains(p[j]));
        let k = choose|k: int| 0 <= k < all.len() && all[k] == p[j];
        assert(named[k] == x);
        if k < out.len() {
            assert(out[k] == x);
        }
        assert forall|i: int| 0 <= i < out.len() implies as_near(
            (#[trigger] out[i]).0,
            x.0,
            target,
        ) by {
            assert(named[i] == out[i]);
            assert(!lex_less(all[k].0, all[i].0));
        }
    }
    assert forall|i: int, j: int| 0 <= i < j < out.len() implies as_near(
        (#[trigger] out[i]).0,
        (#[trigger] out[j]).0,
        target,
    ) by {
        assert(named[i] == out[i] && named[j] == out[j]);
        assert(!lex_less(all[j].0, all[i].0));
    }
    assert(p.len() == list.len());
    assert(named.len() == all.len());
}

/// True when the contact stands in the table.
pub open spec fn stands_in(buckets: Seq<Bucket>, c: RoutingNode) -> bool {
    exists|i: int| 0 <= i < buckets.len() && (#[trigger] buckets[i]).nodes.contains(c)
}

proof fn lemma_live_members(nodes: Seq<RoutingNode>, c: RoutingNode)
    ensures
        live(nodes).contains(c) <==> nodes.contains(c) && !(c.liveness is Bad),
    decreases nodes.len(),
{
    if nodes.len() > 0 {
        let rest = nodes.drop_last();
        lemma_live_members(rest, c);
        assert(nodes =~= rest.push(nodes.last()));
        lemma_pushed(rest, nodes.last(), c);
        lemma_pushed(live(rest), nodes.last(), c);
    }
}

proof fn lemma_pushed<T>(s: Seq<T>, last: T, x: T)
    ensures
        s.push(last).contains(x) <==> s.contains(x) || x == last,
{
    let t = s.push(last);
    assert(t[s.len() as int] == last);
    if s.contains(x) {
        let i = choose|i: int| 0 <= i < s.len() && s[i] == x;
        assert(t[i] == x);
    }
    if t.contains(x) {
        let i = choose|i: int| 0 <= i < t.len() && t[i] == x;
        if i < s.len() {
            assert(s[i] == x);
        }
    }
}

proof fn lemma_joined<T>(a: Seq<T>, b: Seq<T>, x: T)
    ensures
        (a + b).contains(x) <==> a.contains(x) || b.contains(x),
{
    if a.contains(x) {
        let i = choose|i: int| 0 <= i < a.len() && a[i] == x;
        assert((a + b)[i] == x);
    }
    if b.contains(x) {
        let i = choose|i: int| 0 <= i < b.len() && b[i] == x;
        assert((a + b)[a.len() + i] == x);
    }
    if (a + b).contains(x) {
        let i = choose|i: int| 0 <= i < (a + b).len() && (a + b)[i] == x;
        if i < a.len() {
            assert(a[i] == x);
        } else {
            assert(b[i - a.len()] == x);
        }
    }
}

proof fn lemma_contacts_members(buckets: Seq<Bucket>, c: RoutingNode)
    ensures
        contacts(buckets).contains(c) <==> stands_in(buckets, c),
    decreases buckets.len(),
{
    if buckets.len() > 0 {
        let rest = buckets.drop_last();
        lemma_contacts_members(rest, c);
        lemma_joined(contacts(rest), buckets.last().nodes, c);
        if stands_in(rest, c) {
            let i = choose|i: int| 0 <= i < rest.len() && (#[trigger] rest[i]).nodes.contains(c);
            assert(buckets[i].nodes.contains(c));
        }
        if buckets.last().nodes.contains(c) {
            assert(buckets[buckets.len() - 1].nodes.contains(c));
        }
        if stands_in(buckets, c) {
            let i = choose|i: int|
                0 <= i < buckets.len() && (#[trigger] buckets[i]).nodes.contains(c);
            if i < rest.len() {
                assert(rest[i].nodes.contains(c));
            }
        }
    }
}

/// The contacts of a table that are worth keeping are those that stand in it and are not known to
/// be dead, with their identifiers and endpoints.
pub proof fn live_contacts_are_kept(buckets: Seq<Bucket>)
    ensures
        forall|id: Id20, addr: SocketAddr| #[trigger]
            addresses(live(contacts(buckets))).contains((id, addr)) <==> exists|c: RoutingNode|
                c.id == id && c.addr == addr && !(c.liveness is Bad) && #[trigger] stands_in(
                    buckets,
                    c,
                ),
{
    let nodes = live(contacts(buckets));
    assert forall|id: Id20, addr: SocketAddr| #[trigger]
        addresses(nodes).contains((id, addr)) <==> exists|c: RoutingNode|
            c.id == id && c.addr == addr && !(c.liveness is Bad) && #[trigger] stands_in(
                buckets,
                c,
            ) by {
        if addresses(nodes).contains((id, addr)) {
            let i = choose|i: int| 0 <= i < nodes.len() && addresses(nodes)[i] == (id, addr);
            let c = nodes[i];
            assert(nodes.contains(c));
            lemma_live_members(contacts(buckets), c);
            lemma_contacts_members(buckets, c);
            assert(stands_in(buckets, c));
        }
        if exists|c: RoutingNode|
            c.id == id && c.addr == addr && !(c.liveness is Bad) && #[trigger] stands_in(
                buckets,
                c,
            ) {
            let c = choose|c: RoutingNode|
                c.id == id && c.addr == addr && !(c.liveness is Bad) && #[trigger] stands_in(
                    buckets,
                    c,
                );
            lemma_live_members(contacts(buckets), c);
            lemma_contacts_members(buckets, c);
            let i = choose|i: int| 0 <= i < nodes.len() && nodes[i] == c;
            assert(addresses(nodes)[i] == (id, addr));
        }
    }
}

/// A question is answered with the contacts that are nearest to what is asked for: live contacts
/// of the table, the nearest first, and a live contact is left out only where `n` others that are
/// at least as near are named.
pub proof fn the_closest_answer(buckets: Seq<Bucket>, target: Id20, n: nat)
    ensures
        ({
            let out = closest(live(contacts(buckets)), target, n);
            &&& out.len() <= n
            &&& forall|id: Id20, addr: SocketAddr| #[trigger]
                out.contains((id, addr)) ==> exists|c: RoutingNode|
                    c.id == id && c.addr == addr && !(c.liveness is Bad) && #[trigger] stands_in(
                        buckets,
                        c,
                    )
            &&& forall|c: RoutingNode| #[trigger]
                stands_in(buckets, c) && !(c.liveness is Bad) && !out.contains((c.id, c.addr))
                    ==> out.len() == n && none_farther(out, c.id, target)
            &&& forall|i: int, j: int|
                0 <= i < j < out.len() ==> as_near(
                    (#[trigger] out[i]).0,
                    (#[trigger] out[j]).0,
                    target,
                )
        }),
{
    let nodes = live(contacts(buckets));
    let list = addresses(nodes);
    let out = closest(nodes, target, n);
    assert(by_distance(nodes, target) =~= keyed(list, target));
    the_nearest_are_named(list, target, n);
    live_contacts_are_kept(buckets);
    assert forall|c: RoutingNode| #[trigger]
        stands_in(buckets, c) && !(c.liveness is Bad) && !out.contains(
            (c.id, c.addr),
        ) implies out.len() == n && none_farther(out, c.id, target) by {
        assert(list.contains((c.id, c.addr)));
    }
}

/// What asking stale contacts again does: a contact that is asked has gone without a sign for the
/// whole time and falls by one step of trust, every other stays as it is, nobody who is known to be
/// dead is asked, no more than there is room for are, and where there is room left nobody who is
/// stale was passed over.
pub open spec fn ages(before: RoutingNode, after: RoutingNode, now: u64, asked: bool) -> bool {
    if asked {
        &&& !(before.liveness is Bad)
        &&& now - before.last_seen >= 900_000
        &&& after.id == before.id && after.addr == before.addr && after.last_seen == now
        &&& before.liveness is Good ==> after.liveness is Questionable
        &&& before.liveness is Questionable ==> after.liveness is Bad
    } else {
        after == before
    }
}

proof fn lemma_aging(nodes: Seq<RoutingNode>, now: u64, room: nat)
    ensures
        ({
            let (out, asked) = aged(nodes, now, room);
            &&& out.len() == nodes.len()
            &&& asked.len() <= room
            &&& forall|j: int|
                0 <= j < nodes.len() ==> ages(nodes[j], #[trigger] out[j], now, out[j] != nodes[j])
                    || (ages(nodes[j], out[j], now, true) && asked.contains(
                    (nodes[j].id, nodes[j].addr),
                ))
            &&& forall|j: int|
                0 <= j < nodes.len() && out[j] != nodes[j] ==> asked.contains(
                    ((#[trigger] nodes[j]).id, nodes[j].addr),
                )
            &&& asked.len() < room ==> forall|j: int|
                0 <= j < nodes.len() && !((#[trigger] nodes[j]).liveness is Bad) && now
                    - nodes[j].last_seen >= 900_000 ==> asked.contains(
                    (nodes[j].id, nodes[j].addr),
                ) && ages(nodes[j], out[j], now, true)
            &&& forall|x: (Id20, SocketAddr)| #[trigger]
                asked.contains(x) ==> exists|j: int|
                    0 <= j < nodes.len() && (#[trigger] nodes[j]).id == x.0 && nodes[j].addr == x.1
                        && ages(nodes[j], out[j], now, true)
        }),
    decreases nodes.len(),
{
    if nodes.len() > 0 {
        let front = nodes.drop_last();
        lemma_aging(front, now, room);
        let (rest, before) = aged(front, now, room);
        let (out, asked) = aged(nodes, now, room);
        let last = nodes.last();
        let n = front.len() as int;
        let hit = before.len() < room && !(last.liveness is Bad) && now - last.last_seen
            >= ROUTING_STALE_MS;
        assert(nodes[n] == last);
        assert forall|x: (Id20, SocketAddr)| before.contains(x) implies #[trigger] asked.contains(
            x,
        ) by {
            lemma_pushed(before, (last.id, last.addr), x);
        }
        lemma_pushed(before, (last.id, last.addr), (last.id, last.addr));
        assert forall|j: int| 0 <= j < nodes.len() implies ages(
            nodes[j],
            #[trigger] out[j],
            now,
            out[j] != nodes[j],
        ) || (ages(nodes[j], out[j], now, true) && asked.contains(
            (nodes[j].id, nodes[j].addr),
        )) by {
            if j < n {
                assert(out[j] == rest[j] && front[j] == nodes[j]);
            }
        }
        assert forall|j: int| 0 <= j < nodes.len() && out[j] != nodes[j] implies asked.contains(
            ((#[trigger] nodes[j]).id, nodes[j].addr),
        ) by {
            if j < n {
                assert(out[j] == rest[j] && front[j] == nodes[j]);
            }
        }
        if asked.len() < room {
            assert forall|j: int|
                0 <= j < nodes.len() && !((#[trigger] nodes[j]).liveness is Bad) && now
                    - nodes[j].last_seen >= 900_000 implies asked.contains(
                (nodes[j].id, nodes[j].addr),
            ) && ages(nodes[j], out[j], now, true) by {
                if j < n {
                    assert(out[j] == rest[j] && front[j] == nodes[j]);
                }
            }
        }
        assert forall|x: (Id20, SocketAddr)| #[trigger] asked.contains(x) implies exists|j: int|
            0 <= j < nodes.len() && (#[trigger] nodes[j]).id == x.0 && nodes[j].addr == x.1 && ages(
                nodes[j],
                out[j],
                now,
                true,
            ) by {
            lemma_pushed(before, (last.id, last.addr), x);
            if before.contains(x) {
                let j = choose|j: int|
                    0 <= j < front.len() && (#[trigger] front[j]).id == x.0 && front[j].addr == x.1
                        && ages(front[j], rest[j], now, true);
                assert(nodes[j] == front[j] && out[j] == rest[j]);
            } else {
                assert(hit);
                assert(nodes[n].id == x.0);
            }
        }
    }
}

/// Contacts that are stale are asked again, at most `room` of them: each that is asked falls by
/// one step of trust, from good to questionable to dead, and all others stay as they are; a stale
/// contact is passed over only where there is no room, and a dead one is never asked.
pub proof fn stale_contacts_are_asked(buckets: Seq<Bucket>, now: u64, room: nat)
    ensures
        ({
            let (after, asked) = aged_buckets(buckets, now, room);
            &&& asked.len() <= room
            &&& after.len() == buckets.len()
            &&& forall|i: int, j: int|
                #![trigger after[i].nodes[j]]
                0 <= i < buckets.len() && 0 <= j < buckets[i].nodes.len() ==> {
                    let (a, b) = (buckets[i].nodes[j], after[i].nodes[j]);
                    &&& after[i].nodes.len() == buckets[i].nodes.len()
                    &&& b == a || (ages(a, b, now, true) && asked.contains((a.id, a.addr)))
                    &&& asked.len() < room && !(a.liveness is Bad) && now - a.last_seen >= 900_000
                        ==> ages(a, b, now, true)
                }
        }),
    decreases buckets.len(),
{
    if buckets.len() > 0 {
        let front = buckets.drop_last();
        stale_contacts_are_asked(front, now, room);
        lemma_aged_buckets(front, now, room);
        let (rest, before) = aged_buckets(front, now, room);
        let (after, asked) = aged_buckets(buckets, now, room);
        let n = front.len() as int;
        let left = (room - before.len()) as nat;
        let last = buckets.last().nodes;
        lemma_aging(last, now, left);
        let (nodes, more) = aged(last, now, left);
        assert forall|i: int, j: int|
            #![trigger after[i].nodes[j]]
            0 <= i < buckets.len() && 0 <= j < buckets[i].nodes.len() implies {
            let (a, b) = (buckets[i].nodes[j], after[i].nodes[j]);
            &&& after[i].nodes.len() == buckets[i].nodes.len()
            &&& b == a || (ages(a, b, now, true) && asked.contains((a.id, a.addr)))
            &&& asked.len() < room && !(a.liveness is Bad) && now - a.last_seen >= 900_000 ==> ages(
                a,
                b,
                now,
                true,
            )
        } by {
            let a = buckets[i].nodes[j];
            lemma_joined(before, more, (a.id, a.addr));
            if i < n {
                assert(front[i] == buckets[i] && after[i] == rest[i]);
                assert(rest[i].nodes[j] == after[i].nodes[j]);
            } else {
                assert(after[i].nodes == nodes);
                assert(last[j] == a);
                assert(nodes[j] == after[i].nodes[j]);
            }
        }
    }
}

proof fn lemma_split_members(buckets: Seq<Bucket>, ours: Id20, at: int, c: RoutingNode)
    requires
        0 <= at < buckets.len(),
    ensures
        stands_in(split_at(buckets, ours, at), c) <==> stands_in(buckets, c),
{
    let next = split_at(buckets, ours, at);
    let b = buckets[at];
    let n = b.prefix.len() as int;
    lemma_with_bit(b.nodes, ours, n, false);
    lemma_with_bit(b.nodes, ours, n, true);
    if stands_in(buckets, c) {
        let i = choose|i: int| 0 <= i < buckets.len() && (#[trigger] buckets[i]).nodes.contains(c);
        if i < at {
            assert(next[i] == buckets[i]);
            assert(next[i].nodes.contains(c));
        } else if i > at {
            assert(next[i + 1] == buckets[i]);
            assert(next[i + 1].nodes.contains(c));
        } else {
            let k = choose|k: int| 0 <= k < b.nodes.len() && b.nodes[k] == c;
            let bit = id_bit(xor_bytes(ours@, b.nodes[k].id@), n);
            let to = if bit {
                at + 1
            } else {
                at
            };
            assert(next[to] == half(b, ours, bit));
            assert(next[to].nodes.contains(c));
        }
    }
    if stands_in(next, c) {
        let i = choose|i: int| 0 <= i < next.len() && (#[trigger] next[i]).nodes.contains(c);
        let k = choose|k: int| 0 <= k < next[i].nodes.len() && next[i].nodes[k] == c;
        if i < at {
            assert(buckets[i].nodes.contains(c));
        } else if i > at + 1 {
            assert(next[i] == buckets[i - 1]);
            assert(buckets[i - 1].nodes.contains(c));
        } else {
            let bit = i == at + 1;
            assert(next[i] == half(b, ours, bit));
            assert(b.nodes.contains(with_bit(b.nodes, ours, n, bit)[k]));
            assert(buckets[at].nodes.contains(c));
        }
    }
}

proof fn lemma_settled_members(buckets: Seq<Bucket>, ours: Id20, new: Id20, c: RoutingNode)
    requires
        well_placed(buckets, ours),
    ensures
        stands_in(settled(buckets, ours, new), c) <==> stands_in(buckets, c),
    decreases 160 - buckets[home(buckets, xor_bytes(ours@, new@))].prefix.len(),
{
    let d = xor_bytes(ours@, new@);
    let at = home(buckets, d);
    assert(0 <= at < buckets.len());
    if must_split(buckets[at], new) {
        let next = split_at(buckets, ours, at);
        lemma_split_members(buckets, ours, at, c);
        lemma_split_in_place(buckets, ours, at);
        lemma_home_after_split(buckets, ours, at, d);
        assert(next[at].prefix.len() == buckets[at].prefix.len() + 1);
        assert(next[at + 1].prefix.len() == buckets[at].prefix.len() + 1);
        lemma_settled_members(next, ours, new, c);
    }
}

/// True when the distance of a contact begins with the bits of another distance, up to and with
/// place `p`.
pub open spec fn shares_bits(ours: Id20, c: RoutingNode, distance: Seq<u8>, p: int) -> bool {
    forall|q: int|
        0 <= q <= p ==> #[trigger] id_bit(xor_bytes(ours@, c.id@), q) == id_bit(distance, q)
}

/// What hearing of a node does to a table. All other contacts keep their identifiers, endpoints
/// and times, and at most come into doubt. The node itself stands there as it was heard of, or as
/// it was where it is known to be alive and was heard of by hearsay. Its bucket is full where it
/// does not stand there: eight other contacts, none of them known to be dead, begin with the same
/// bits of distance from us, up to one that is set or all of them.
pub proof fn hearing_of_a_node(buckets: Seq<Bucket>, ours: Id20, node: RoutingNode)
    requires
        well_placed(buckets, ours),
        node.id != ours,
    ensures
        ({
            let after = with_node(buckets, ours, node);
            let d = xor_bytes(ours@, node.id@);
            &&& forall|c: RoutingNode| #[trigger]
                stands_in(after, c) && c.id != node.id ==> exists|b: RoutingNode| #[trigger]
                    stands_in(buckets, b) && b.id == c.id && b.addr == c.addr && b.last_seen
                        == c.last_seen && (c.liveness == b.liveness || c.liveness is Questionable)
            &&& forall|c: RoutingNode| #[trigger]
                stands_in(after, c) && c.id == node.id ==> c == node || (stands_in(buckets, c)
                    && c.liveness is Good && !(node.liveness is Good))
            &&& stands_in(after, node) || (exists|c: RoutingNode| #[trigger]
                stands_in(after, c) && c.id == node.id) || exists|i: int, p: int|
                #![trigger after[i], id_bit(d, p)]
                0 <= i < after.len() && after[i].nodes.len() == 8 && 0 <= p < 160 && (id_bit(d, p)
                    || p == 159) && forall|j: int|
                    0 <= j < 8 ==> !((#[trigger] after[i].nodes[j]).liveness is Bad)
                        && shares_bits(ours, after[i].nodes[j], d, p)
        }),
{
    let d = xor_bytes(ours@, node.id@);
    lemma_settled(buckets, ours, node.id);
    let ready = settled(buckets, ours, node.id);
    let at = home(ready, d);
    let nodes = ready[at].nodes;
    let after = with_node(buckets, ours, node);
    let changed = heard_of(nodes, node);
    let k = position(nodes, node.id);
    let bad = first_bad(nodes);
    lemma_position(nodes, node.id);
    lemma_first_bad(nodes);
    if nodes.len() > 0 {
        lemma_stalest(nodes);
    }
    assert(bucket_in_place(ready[at], ours));
    assert forall|c: RoutingNode| #[trigger] stands_in(after, c) && c.id
        != node.id implies exists|b: RoutingNode| #[trigger]
        stands_in(buckets, b) && b.id == c.id && b.addr == c.addr && b.last_seen == c.last_seen && (
        c.liveness == b.liveness || c.liveness is Questionable) by {
        let i = choose|i: int| 0 <= i < after.len() && (#[trigger] after[i]).nodes.contains(c);
        let j = choose|j: int| 0 <= j < after[i].nodes.len() && after[i].nodes[j] == c;
        let b = ready[i].nodes[j];
        if i == at {
            assert(j < nodes.len());
        }
        assert(ready[i].nodes.contains(b));
        assert(stands_in(ready, b));
        lemma_settled_members(buckets, ours, node.id, b);
    }
    assert forall|c: RoutingNode| #[trigger] stands_in(after, c) && c.id == node.id implies c
        == node || (stands_in(buckets, c) && c.liveness is Good && !(node.liveness is Good)) by {
        let i = choose|i: int| 0 <= i < after.len() && (#[trigger] after[i]).nodes.contains(c);
        let j = choose|j: int| 0 <= j < after[i].nodes.len() && after[i].nodes[j] == c;
        if i != at {
            assert(after[i] == ready[i]);
            assert(bucket_in_place(ready[i], ours));
            assert(ready[i].nodes[j].id == node.id);
            assert(has_prefix(ready[i].prefix, d));
            assert(false);
        }
        if k < nodes.len() {
            if j != k {
                assert(nodes[j].id != nodes[k].id);
            }
            if c != node {
                assert(c == nodes[k]);
                assert(ready[at].nodes.contains(c));
                assert(stands_in(ready, c));
                lemma_settled_members(buckets, ours, node.id, c);
            }
        } else if j < nodes.len() {
            assert(nodes[j].id != node.id);
        }
    }
    if k < nodes.len() {
        let c = changed[k];
        assert(after[at].nodes[k] == c);
        assert(after[at].nodes.contains(c));
        assert(stands_in(after, c));
    } else if nodes.len() < K {
        assert(after[at].nodes[nodes.len() as int] == node);
        assert(after[at].nodes.contains(node));
    } else if bad < nodes.len() {
        assert(after[at].nodes[bad] == node);
        assert(after[at].nodes.contains(node));
    } else {
        let prefix = ready[at].prefix;
        let p = if holds_ours(prefix) {
            159
        } else {
            choose|p: int| 0 <= p < prefix.len() && #[trigger] prefix[p]
        };
        assert(0 <= p < prefix.len());
        assert(prefix[p] == id_bit(d, p));
        assert forall|j: int| 0 <= j < 8 implies !((#[trigger] after[at].nodes[j]).liveness is Bad)
            && shares_bits(ours, after[at].nodes[j], d, p) by {
            assert(after[at].nodes[j].id == nodes[j].id);
            assert(has_prefix(prefix, xor_bytes(ours@, nodes[j].id@)));
            assert forall|q: int| 0 <= q <= p implies #[trigger] id_bit(
                xor_bytes(ours@, after[at].nodes[j].id@),
                q,
            ) == id_bit(d, q) by {
                assert(prefix[q] == id_bit(d, q));
            }
        }
        assert(after[at].nodes.len() == 8);
    }
}

} // verus!
