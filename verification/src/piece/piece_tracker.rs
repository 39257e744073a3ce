//! How many peers have each piece, and the choice of the rarest.

use std::collections::HashSet;

use vstd::prelude::*;
use vstd::relations::{sorted_by, total_ordering};
use vstd::seq_lib::lemma_sorted_unique;

use crate::meta::lengths::{Lengths, ValidPieceIndex};

verus! {

/// Bit `k` of a byte, the most significant one first.
pub open spec fn bit_of(b: u8, k: int) -> bool {
    (b >> ((7 - k) as u8)) & 1u8 == 1u8
}

/// True when a bit field holds the bit of piece `i`.
pub open spec fn has_piece(bits: Seq<u8>, i: int) -> bool {
    0 <= i / 8 < bits.len() && bit_of(bits[i / 8], i % 8)
}

fn holds_piece(bits: &[u8], i: usize) -> (r: bool)
    ensures
        r == has_piece(bits@, i as int),
{
    i / 8 < bits.len() && (bits[i / 8] >> ((7 - i % 8) as u8)) & 1 == 1
}

/// A byte with bit `k` set.
pub open spec fn byte_with(b: u8, k: int) -> u8 {
    b | (1u8 << ((7 - k) as u8))
}

/// A bit field with the bit of piece `i` set.
pub open spec fn with_piece(bits: Seq<u8>, i: int) -> Seq<u8> {
    bits.update(i / 8, byte_with(bits[i / 8], i % 8))
}

proof fn lemma_byte_with(b: u8, k: int, j: int)
    requires
        0 <= k < 8,
        0 <= j < 8,
    ensures
        bit_of(byte_with(b, k), j) == (j == k || bit_of(b, j)),
{
    let x = (7 - k) as u8;
    let y = (7 - j) as u8;
    assert(x < 8 && y < 8 ==> (((b | (1u8 << x)) >> y) & 1u8 == 1u8) == (x == y || (b >> y) & 1u8
        == 1u8)) by (bit_vector);
}

/// Setting the bit of one piece leaves those of the others as they are.
pub proof fn setting_a_bit(bits: Seq<u8>, i: int, j: int)
    requires
        0 <= i / 8 < bits.len(),
        0 <= i,
        0 <= j,
    ensures
        has_piece(with_piece(bits, i), j) == (i == j || has_piece(bits, j)),
{
    if i / 8 == j / 8 {
        lemma_byte_with(bits[i / 8], i % 8, j % 8);
    }
}

/// What is known of the pieces: which are on disk, which have been asked for in full, and how
/// many peers have each.
#[verifier::ext_equal]
pub struct TrackerModel {
    pub local: Seq<bool>,
    pub in_flight: Seq<bool>,
    pub availability: Seq<u32>,
}

/// The counts with one more for each piece of a bit field.
pub open spec fn counted_in(availability: Seq<u32>, bits: Seq<u8>) -> Seq<u32> {
    Seq::new(
        availability.len(),
        |i: int|
            if has_piece(bits, i) {
                one_more(availability[i])
            } else {
                availability[i]
            },
    )
}

/// The counts with one less for each piece of a bit field.
pub open spec fn counted_out(availability: Seq<u32>, bits: Seq<u8>) -> Seq<u32> {
    Seq::new(
        availability.len(),
        |i: int|
            if has_piece(bits, i) {
                one_less(availability[i])
            } else {
                availability[i]
            },
    )
}

/// One more, up to the largest number.
pub open spec fn one_more(n: u32) -> u32 {
    if n < u32::MAX {
        (n + 1) as u32
    } else {
        n
    }
}

/// One less, down to zero.
pub open spec fn one_less(n: u32) -> u32 {
    if n > 0 {
        (n - 1) as u32
    } else {
        n
    }
}

/// Counting a peer out undoes counting it in, unless a count is at the largest number.
pub proof fn counting_out_undoes(availability: Seq<u32>, bits: Seq<u8>)
    requires
        forall|i: int| 0 <= i < availability.len() ==> #[trigger] availability[i] < u32::MAX,
    ensures
        counted_out(counted_in(availability, bits), bits) == availability,
{
    assert(counted_out(counted_in(availability, bits), bits) =~= availability);
}

/// The order of the pieces: by how many peers have them, and by their number.
pub open spec fn rarity() -> spec_fn((u32, u32), (u32, u32)) -> bool {
    |a: (u32, u32), b: (u32, u32)| a.0 < b.0 || (a.0 == b.0 && a.1 <= b.1)
}

/// `slice::sort` on pairs of numbers: the same pairs, in ascending order, by the first number and
/// by the second where that is the same.
#[verifier::external_body]
fn sort_pairs(v: &mut Vec<(u32, u32)>)
    ensures
        final(v)@.to_multiset() == old(v)@.to_multiset(),
        sorted_by(final(v)@, rarity()),
{
    v.sort()
}

proof fn lemma_rarity()
    ensures
        total_ordering(rarity()),
{
}

/// The pieces below `k` that satisfy `p`, each with its count.
pub open spec fn those(availability: Seq<u32>, p: spec_fn(int) -> bool, k: nat) -> Seq<(u32, u32)>
    decreases k,
{
    if k == 0 {
        seq![]
    } else {
        let before = those(availability, p, (k - 1) as nat);
        if p(k - 1) {
            before.push((availability[k - 1], (k - 1) as u32))
        } else {
            before
        }
    }
}

/// The pieces that satisfy `p`, the rarest first.
pub open spec fn rarest_first(availability: Seq<u32>, p: spec_fn(int) -> bool) -> Seq<(u32, u32)> {
    those(availability, p, availability.len()).sort_by(rarity())
}

/// The numbers of the pieces.
pub open spec fn numbers(s: Seq<(u32, u32)>) -> Seq<u32> {
    Seq::new(s.len(), |i: int| s[i].1)
}

/// The numbers of the pieces.
pub open spec fn indices(s: Seq<ValidPieceIndex>) -> Seq<u32> {
    Seq::new(s.len(), |i: int| s[i].index())
}

/// The pieces that are still wanted and that some peer has.
pub open spec fn is_candidate(m: TrackerModel, i: int) -> bool {
    !m.local[i] && m.availability[i] > 0
}

/// The pieces of a list that a peer has and that may be asked for.
pub open spec fn offered(
    list: Seq<(u32, u32)>,
    m: TrackerModel,
    bits: Seq<u8>,
    skip_in_flight: bool,
) -> Seq<(u32, u32)>
    decreases list.len(),
{
    if list.len() == 0 {
        seq![]
    } else {
        let before = offered(list.drop_last(), m, bits, skip_in_flight);
        let i = list.last().1 as int;
        if has_piece(bits, i) && !(skip_in_flight && m.in_flight[i]) {
            before.push(list.last())
        } else {
            before
        }
    }
}

/// How many pieces at the front are equally rare.
pub open spec fn bucket(list: Seq<(u32, u32)>) -> int
    decreases list.len(),
{
    if list.len() == 0 {
        0
    } else if list.len() == 1 || list[0].0 != list[1].0 {
        1
    } else {
        1 + bucket(list.drop_first())
    }
}

/// A list that starts `by` places further on.
pub open spec fn turned<T>(s: Seq<T>, by: int) -> Seq<T> {
    s.skip(by) + s.take(by)
}

/// The list with every run of equally rare pieces turned by the hint, so that peers begin at
/// different ones.
pub open spec fn spread(list: Seq<(u32, u32)>, hint: u32) -> Seq<(u32, u32)>
    decreases list.len(),
    via spread_gets_shorter
{
    if list.len() == 0 {
        seq![]
    } else {
        let n = bucket(list);
        turned(list.take(n), hint as int % n) + spread(list.skip(n), hint)
    }
}

#[via_fn]
proof fn spread_gets_shorter(list: Seq<(u32, u32)>, hint: u32) {
    lemma_bucket(list);
}

proof fn lemma_bucket(list: Seq<(u32, u32)>)
    ensures
        0 <= bucket(list) <= list.len(),
        list.len() > 0 ==> bucket(list) > 0,
        forall|i: int| 0 <= i < bucket(list) ==> (#[trigger] list[i]).0 == list[0].0,
        bucket(list) < list.len() ==> list[bucket(list)].0 != list[bucket(list) - 1].0,
    decreases list.len(),
{
    if list.len() > 1 && list[0].0 == list[1].0 {
        let rest = list.drop_first();
        lemma_bucket(rest);
        assert forall|i: int| 0 <= i < bucket(list) implies (#[trigger] list[i]).0
            == list[0].0 by {
            if i > 0 {
                assert(rest[i - 1] == list[i]);
                assert(rest[0] == list[1]);
            }
        }
    }
}

/// The pieces that a peer is asked for, in order.
pub open spec fn chosen(m: TrackerModel, bits: Seq<u8>, skip_in_flight: bool, hint: u32) -> Seq<u32> {
    numbers(
        spread(
            offered(
                rarest_first(m.availability, |i: int| is_candidate(m, i)),
                m,
                bits,
                skip_in_flight,
            ),
            hint,
        ),
    )
}

/// The pieces that are neither on disk nor asked for, the rarest first.
pub open spec fn missing(m: TrackerModel) -> Seq<u32> {
    numbers(rarest_first(m.availability, |i: int| !m.local[i] && !m.in_flight[i]))
}

/// True of the pieces that a peer may be asked for next.
pub open spec fn eligible(m: TrackerModel, bits: Seq<u8>, exclude: Set<u32>, i: int) -> bool {
    has_piece(bits, i) && is_candidate(m, i) && !exclude.contains(i as u32)
}

/// The smallest count among the eligible pieces below `k`.
pub open spec fn rarest(m: TrackerModel, bits: Seq<u8>, exclude: Set<u32>, k: nat) -> Option<u32>
    decreases k,
{
    if k == 0 {
        None
    } else {
        let before = rarest(m, bits, exclude, (k - 1) as nat);
        let n = m.availability[k - 1];
        if !eligible(m, bits, exclude, k - 1) || (before matches Some(r) && r <= n) {
            before
        } else {
            Some(n)
        }
    }
}

/// The eligible pieces below `k` with the given count.
pub open spec fn as_rare(
    m: TrackerModel,
    bits: Seq<u8>,
    exclude: Set<u32>,
    count: u32,
    k: nat,
) -> Seq<u32>
    decreases k,
{
    if k == 0 {
        seq![]
    } else {
        let before = as_rare(m, bits, exclude, count, (k - 1) as nat);
        if eligible(m, bits, exclude, k - 1) && m.availability[k - 1] == count {
            before.push((k - 1) as u32)
        } else {
            before
        }
    }
}

/// The piece that a peer is asked for: one of the rarest that it has and we lack.
pub open spec fn choice(m: TrackerModel, bits: Seq<u8>, exclude: Set<u32>, hint: u32) -> Option<u32> {
    match rarest(m, bits, exclude, m.availability.len()) {
        None => None,
        Some(count) => {
            let all = as_rare(m, bits, exclude, count, m.availability.len());
            Some(all[hint as int % all.len() as int])
        },
    }
}

/// What is known of the pieces of a torrent.
#[derive(Debug)]
pub struct PieceTracker {
    lengths: Lengths,
    have_local: Vec<bool>,
    in_flight: Vec<bool>,
    availability: Vec<u32>,
    sorted: Vec<(u32, u32)>,
    sorted_dirty: bool,
}

impl View for PieceTracker {
    type V = TrackerModel;

    closed spec fn view(&self) -> TrackerModel {
        TrackerModel {
            local: self.have_local@,
            in_flight: self.in_flight@,
            availability: self.availability@,
        }
    }
}

fn zeros(n: usize) -> (r: Vec<bool>)
    ensures
        r@ == Seq::new(n as nat, |i: int| false),
{
    let mut out: Vec<bool> = Vec::new();
    let mut i: usize = 0;
    assert(out@ =~= Seq::new(0nat, |j: int| false));
    while i < n
        invariant
            i <= n,
            out@ == Seq::new(i as nat, |j: int| false),
        decreases n - i,
    {
        out.push(false);
        i += 1;
        assert(out@ =~= Seq::new(i as nat, |j: int| false));
    }
    out
}

proof fn lemma_those(availability: Seq<u32>, p: spec_fn(int) -> bool, k: nat)
    requires
        k <= availability.len() <= u32::MAX,
    ensures
        forall|i: int|
            0 <= i < those(availability, p, k).len() ==> ({
                let e = #[trigger] those(availability, p, k)[i];
                e.1 < k && e.0 == availability[e.1 as int] && p(e.1 as int)
            }),
    decreases k,
{
    if k > 0 {
        lemma_those(availability, p, (k - 1) as nat);
        let before = those(availability, p, (k - 1) as nat);
        let all = those(availability, p, k);
        assert forall|i: int| 0 <= i < all.len() implies ({
            let e = #[trigger] all[i];
            e.1 < k && e.0 == availability[e.1 as int] && p(e.1 as int)
        }) by {
            if i < before.len() {
                assert(all[i] == before[i]);
            }
        }
    }
}

proof fn lemma_rarest_first(availability: Seq<u32>, p: spec_fn(int) -> bool)
    requires
        availability.len() <= u32::MAX,
    ensures
        sorted_by(rarest_first(availability, p), rarity()),
        forall|i: int|
            0 <= i < rarest_first(availability, p).len() ==> ({
                let e = #[trigger] rarest_first(availability, p)[i];
                e.1 < availability.len() && e.0 == availability[e.1 as int] && p(e.1 as int)
            }),
{
    lemma_rarity();
    let all = those(availability, p, availability.len());
    lemma_those(availability, p, availability.len());
    all.lemma_sort_by_ensures(rarity());
    let out = all.sort_by(rarity());
    assert forall|i: int| 0 <= i < out.len() implies ({
        let e = #[trigger] out[i];
        e.1 < availability.len() && e.0 == availability[e.1 as int] && p(e.1 as int)
    }) by {
        assert(out.contains(out[i]));
        assert(all.contains(out[i]));
    }
}

impl PieceTracker {
    /// True of every tracker.
    pub closed spec fn wf(self) -> bool {
        &&& self.have_local@.len() == self.lengths.pieces()
        &&& self.in_flight@.len() == self.lengths.pieces()
        &&& self.availability@.len() == self.lengths.pieces()
        &&& !self.sorted_dirty ==> self.sorted@ == rarest_first(
            self.availability@,
            |i: int| is_candidate(self@, i),
        )
    }

    /// How the torrent is cut into pieces.
    pub closed spec fn shape(self) -> Lengths {
        self.lengths
    }

    /// A tracker has one entry for each piece of the torrent, of each thing that it knows.
    pub proof fn every_piece_has_an_entry(self)
        requires
            self.wf(),
        ensures
            self@.local.len() == self.shape().pieces(),
            self@.in_flight.len() == self.shape().pieces(),
            self@.availability.len() == self.shape().pieces(),
    {
    }

    pub fn new(lengths: Lengths) -> (r: Self)
        ensures
            r.wf(),
            r.shape() == lengths,
            r@ == (TrackerModel {
                local: Seq::new(lengths.pieces() as nat, |i: int| false),
                in_flight: Seq::new(lengths.pieces() as nat, |i: int| false),
                availability: Seq::new(lengths.pieces() as nat, |i: int| 0u32),
            }),
    {
        let n: usize = lengths.total_pieces() as usize;
        let mut availability: Vec<u32> = Vec::new();
        let mut i: usize = 0;
        assert(availability@ =~= Seq::new(0nat, |j: int| 0u32));
        while i < n
            invariant
                i <= n,
                availability@ == Seq::new(i as nat, |j: int| 0u32),
            decreases n - i,
        {
            availability.push(0);
            i += 1;
            assert(availability@ =~= Seq::new(i as nat, |j: int| 0u32));
        }
        PieceTracker {
            lengths,
            have_local: zeros(n),
            in_flight: zeros(n),
            availability,
            sorted: Vec::new(),
            sorted_dirty: true,
        }
    }

    pub fn lengths(&self) -> (r: &Lengths)
        ensures
            *r == self.shape(),
    {
        &self.lengths
    }

    /// How many peers have each piece.
    pub fn availability(&self) -> (r: &Vec<u32>)
        ensures
            r@ == self@.availability,
    {
        &self.availability
    }

    /// A piece is on disk, which ends the wait for it, or is not.
    pub fn set_local(&mut self, idx: ValidPieceIndex, have: bool)
        requires
            old(self).wf(),
            idx.index() < old(self).shape().pieces(),
        ensures
            final(self).wf(),
            final(self).shape() == old(self).shape(),
            final(self)@ == (TrackerModel {
                local: old(self)@.local.update(idx.index() as int, have),
                in_flight: if have {
                    old(self)@.in_flight.update(idx.index() as int, false)
                } else {
                    old(self)@.in_flight
                },
                ..old(self)@
            }),
    {
        let i: usize = idx.get_usize();
        self.sorted_dirty = true;
        self.have_local[i] = have;
        if have {
            self.in_flight[i] = false;
        }
    }

    pub fn has_local(&self, idx: ValidPieceIndex) -> (r: bool)
        requires
            self.wf(),
            idx.index() < self.shape().pieces(),
        ensures
            r == self@.local[idx.index() as int],
    {
        self.have_local[idx.get_usize()]
    }

    /// All of a piece has been asked for.
    pub fn mark_in_flight(&mut self, idx: ValidPieceIndex)
        requires
            old(self).wf(),
            idx.index() < old(self).shape().pieces(),
        ensures
            final(self).wf(),
            final(self).shape() == old(self).shape(),
            final(self)@ == (TrackerModel {
                in_flight: old(self)@.in_flight.update(idx.index() as int, true),
                ..old(self)@
            }),
    {
        self.in_flight[idx.get_usize()] = true;
        proof {
            self.lemma_same_candidates(*old(self));
        }
    }

    /// A piece may be asked for again.
    pub fn clear_in_flight(&mut self, idx: ValidPieceIndex)
        requires
            old(self).wf(),
            idx.index() < old(self).shape().pieces(),
        ensures
            final(self).wf(),
            final(self).shape() == old(self).shape(),
            final(self)@ == (TrackerModel {
                in_flight: old(self)@.in_flight.update(idx.index() as int, false),
                ..old(self)@
            }),
    {
        self.in_flight[idx.get_usize()] = false;
        proof {
            self.lemma_same_candidates(*old(self));
        }
    }

    proof fn lemma_same_candidates(self, other: Self)
        requires
            self@.local == other@.local,
            self@.availability == other@.availability,
        ensures
            rarest_first(self.availability@, |i: int| is_candidate(self@, i)) == rarest_first(
                other.availability@,
                |i: int| is_candidate(other@, i),
            ),
    {
        lemma_those_same(
            self.availability@,
            |i: int| is_candidate(self@, i),
            |i: int| is_candidate(other@, i),
            self.availability@.len(),
        );
    }

    /// The bit field of the pieces on disk; the bits behind the last piece are zero.
    pub fn bitfield(&self) -> (r: Vec<u8>)
        requires
            self.wf(),
        ensures
            r.len() == (self.shape().pieces() + 7) / 8,
            forall|i: int|
                0 <= i < 8 * r.len() ==> #[trigger] has_piece(r@, i) == (i < self@.local.len()
                    && self@.local[i]),
    {
        let n: usize = self.lengths.piece_bitfield_bytes();
        let mut out: Vec<u8> = Vec::new();
        let mut k: usize = 0;
        while k < n
            invariant
                k <= n,
                out.len() == k,
                forall|j: int| 0 <= j < k ==> out@[j] == 0,
            decreases n - k,
        {
            out.push(0);
            k += 1;
        }
        proof {
            assert forall|i: int| 0 <= i < 8 * out.len() implies !#[trigger] has_piece(out@, i) by {
                let y = (7 - i % 8) as u8;
                assert((0u8 >> y) & 1u8 == 0u8) by (bit_vector);
            }
        }
        let mut i: usize = 0;
        while i < self.have_local.len()
            invariant
                i <= self.have_local.len(),
                self.wf(),
                out.len() == n,
                n == (self.shape().pieces() + 7) / 8,
                forall|j: int|
                    0 <= j < 8 * out.len() ==> #[trigger] has_piece(out@, j) == (j < i
                        && self@.local[j]),
            decreases self.have_local.len() - i,
        {
            let ghost before = out@;
            if self.have_local[i] {
                let b: u8 = out[i / 8];
                out[i / 8] = b | (1u8 << ((7 - i % 8) as u8));
                proof {
                    assert(out@ =~= with_piece(before, i as int));
                    assert forall|j: int| 0 <= j < 8 * out.len() implies #[trigger] has_piece(
                        out@,
                        j,
                    ) == (j < i + 1 && self@.local[j]) by {
                        setting_a_bit(before, i as int, j);
                        assert(has_piece(before, j) == (j < i && self@.local[j]));
                    }
                }
            }
            i += 1;
        }
        out
    }

    /// A peer came, with the pieces of a bit field.
    pub fn add_peer_bitfield(&mut self, bitfield: &[u8])
        requires
            old(self).wf(),
        ensures
            final(self).wf(),
            final(self).shape() == old(self).shape(),
            final(self)@ == (TrackerModel {
                availability: counted_in(old(self)@.availability, bitfield@),
                ..old(self)@
            }),
    {
        self.sorted_dirty = true;
        let ghost before = self.availability@;
        let n: usize = self.availability.len();
        let mut i: usize = 0;
        while i < n
            invariant
                i <= n,
                n == before.len(),
                self.availability@.len() == n,
                before == old(self)@.availability,
                self.wf(),
                self.sorted_dirty,
                self.shape() == old(self).shape(),
                self@.local == old(self)@.local,
                self@.in_flight == old(self)@.in_flight,
                forall|j: int| 0 <= j < i ==> self.availability@[j] == counted_in(before, bitfield@)[j],
                forall|j: int| i <= j < n ==> self.availability@[j] == before[j],
            decreases n - i,
        {
            if holds_piece(bitfield, i) {
                let a: u32 = self.availability[i];
                self.availability[i] = a.saturating_add(1);
            }
            i += 1;
        }
        assert(self.availability@ =~= counted_in(before, bitfield@));
    }

    /// A peer left.
    pub fn remove_peer_bitfield(&mut self, bitfield: &[u8])
        requires
            old(self).wf(),
        ensures
            final(self).wf(),
            final(self).shape() == old(self).shape(),
            final(self)@ == (TrackerModel {
                availability: counted_out(old(self)@.availability, bitfield@),
                ..old(self)@
            }),
    {
        self.sorted_dirty = true;
        let ghost before = self.availability@;
        let n: usize = self.availability.len();
        let mut i: usize = 0;
        while i < n
            invariant
                i <= n,
                n == before.len(),
                self.availability@.len() == n,
                before == old(self)@.availability,
                self.wf(),
                self.sorted_dirty,
                self.shape() == old(self).shape(),
                self@.local == old(self)@.local,
                self@.in_flight == old(self)@.in_flight,
                forall|j: int| 0 <= j < i ==> self.availability@[j] == counted_out(before, bitfield@)[j],
                forall|j: int| i <= j < n ==> self.availability@[j] == before[j],
            decreases n - i,
        {
            if holds_piece(bitfield, i) {
                let a: u32 = self.availability[i];
                self.availability[i] = a.saturating_sub(1);
            }
            i += 1;
        }
        assert(self.availability@ =~= counted_out(before, bitfield@));
    }

    /// A peer has one piece more; the result says whether that is news.
    pub fn update_peer_have(&mut self, peer_bitfield: &mut [u8], idx: ValidPieceIndex) -> (r: bool)
        requires
            old(self).wf(),
            idx.index() < old(self).shape().pieces(),
        ensures
            final(self).wf(),
            final(self).shape() == old(self).shape(),
            r == (idx.index() / 8 < old(peer_bitfield)@.len() && !has_piece(
                old(peer_bitfield)@,
                idx.index() as int,
            )),
            final(peer_bitfield)@ == (if r {
                with_piece(old(peer_bitfield)@, idx.index() as int)
            } else {
                old(peer_bitfield)@
            }),
            final(self)@ == (if r {
                TrackerModel {
                    availability: old(self)@.availability.update(
                        idx.index() as int,
                        one_more(old(self)@.availability[idx.index() as int]),
                    ),
                    ..old(self)@
                }
            } else {
                old(self)@
            }),
    {
        let piece: usize = idx.get_usize();
        if piece / 8 >= peer_bitfield.len() || holds_piece(peer_bitfield, piece) {
            return false;
        }
        let b: u8 = peer_bitfield[piece / 8];
        peer_bitfield[piece / 8] = b | (1u8 << ((7 - piece % 8) as u8));
        self.sorted_dirty = true;
        let a: u32 = self.availability[piece];
        self.availability[piece] = a.saturating_add(1);
        true
    }

    /// A peer sent another bit field: the pieces of the former one no longer count.
    pub fn replace_peer_bitfield(&mut self, peer_bitfield: &mut [u8], replacement: &[u8])
        requires
            old(self).wf(),
        ensures
            final(self).wf(),
            final(self).shape() == old(self).shape(),
            final(peer_bitfield)@ == fitted_to(replacement@, old(peer_bitfield)@.len()),
            final(self)@ == (TrackerModel {
                availability: counted_in(
                    counted_out(old(self)@.availability, old(peer_bitfield)@),
                    final(peer_bitfield)@,
                ),
                ..old(self)@
            }),
    {
        self.remove_peer_bitfield(peer_bitfield);
        let n: usize = peer_bitfield.len();
        let mut i: usize = 0;
        while i < n
            invariant
                i <= n,
                n == old(peer_bitfield)@.len(),
                peer_bitfield@.len() == n,
                forall|j: int|
                    0 <= j < i ==> peer_bitfield@[j] == fitted_to(replacement@, n as nat)[j],
            decreases n - i,
        {
            peer_bitfield[i] = if i < replacement.len() {
                replacement[i]
            } else {
                0
            };
            i += 1;
        }
        assert(peer_bitfield@ =~= fitted_to(replacement@, n as nat));
        self.add_peer_bitfield(peer_bitfield);
    }

    /// A peer has a piece.
    pub fn note_peer_has(&mut self, idx: ValidPieceIndex)
        requires
            old(self).wf(),
            idx.index() < old(self).shape().pieces(),
        ensures
            final(self).wf(),
            final(self).shape() == old(self).shape(),
            final(self)@ == (TrackerModel {
                availability: old(self)@.availability.update(
                    idx.index() as int,
                    one_more(old(self)@.availability[idx.index() as int]),
                ),
                ..old(self)@
            }),
    {
        let i: usize = idx.get_usize();
        self.sorted_dirty = true;
        let a: u32 = self.availability[i];
        self.availability[i] = a.saturating_add(1);
    }

    pub fn is_complete(&self) -> (r: bool)
        ensures
            r == (forall|i: int| 0 <= i < self@.local.len() ==> #[trigger] self@.local[i]),
    {
        let mut i: usize = 0;
        while i < self.have_local.len()
            invariant
                i <= self.have_local.len(),
                forall|j: int| 0 <= j < i ==> #[trigger] self@.local[j],
            decreases self.have_local.len() - i,
        {
            if !self.have_local[i] {
                assert(!self@.local[i as int]);
                return false;
            }
            i += 1;
        }
        true
    }

    fn to_indices(&self, pieces: &Vec<(u32, u32)>) -> (r: Vec<ValidPieceIndex>)
        requires
            forall|i: int|
                0 <= i < pieces@.len() ==> (#[trigger] pieces@[i]).1 < self.shape().pieces(),
        ensures
            indices(r@) == numbers(pieces@),
    {
        let mut out: Vec<ValidPieceIndex> = Vec::new();
        let mut i: usize = 0;
        assert(indices(out@) =~= numbers(pieces@).take(0));
        while i < pieces.len()
            invariant
                i <= pieces.len(),
                forall|i: int|
                    0 <= i < pieces@.len() ==> (#[trigger] pieces@[i]).1 < self.shape().pieces(),
                indices(out@) == numbers(pieces@).take(i as int),
            decreases pieces.len() - i,
        {
            let ghost before = out@;
            match self.lengths.validate_piece(pieces[i].1) {
                Ok(v) => {
                    out.push(v);
                    assert(indices(out@) =~= indices(before).push(v.index()));
                },
                Err(_) => {
                    assert(false);
                },
            }
            assert(indices(out@) =~= numbers(pieces@).take(i + 1));
            i += 1;
        }
        assert(indices(out@) =~= numbers(pieces@));
        out
    }

    fn sort_by_rarity(&self, pieces: &mut Vec<(u32, u32)>)
        ensures
            final(pieces)@ == old(pieces)@.sort_by(rarity()),
    {
        sort_pairs(pieces);
        proof {
            lemma_rarity();
            old(pieces)@.lemma_sort_by_ensures(rarity());
            lemma_sorted_unique(pieces@, old(pieces)@.sort_by(rarity()), rarity());
        }
    }

    /// The pieces that are neither on disk nor asked for, the rarest first; whether a peer has
    /// them does not matter.
    pub fn choose_missing_pieces(&self) -> (r: Vec<ValidPieceIndex>)
        requires
            self.wf(),
        ensures
            indices(r@) == missing(self@),
    {
        let ghost p = |i: int| !self@.local[i] && !self@.in_flight[i];
        let mut list: Vec<(u32, u32)> = Vec::new();
        let n: u32 = self.lengths.total_pieces();
        let mut i: u32 = 0;
        while i < n
            invariant
                i <= n,
                n == self.shape().pieces(),
                self.wf(),
                p == (|i: int| !self@.local[i] && !self@.in_flight[i]),
                list@ == those(self@.availability, p, i as nat),
            decreases n - i,
        {
            let k: usize = i as usize;
            if !self.have_local[k] && !self.in_flight[k] {
                list.push((self.availability[k], i));
            }
            i += 1;
        }
        self.sort_by_rarity(&mut list);
        proof {
            lemma_rarest_first(self@.availability, p);
        }
        self.to_indices(&list)
    }

    fn rebuild_sorted(&mut self)
        requires
            old(self).wf(),
        ensures
            final(self).wf(),
            final(self).shape() == old(self).shape(),
            final(self)@ == old(self)@,
            !final(self).sorted_dirty,
    {
        let ghost p = |i: int| is_candidate(self@, i);
        let mut list: Vec<(u32, u32)> = Vec::new();
        let n: u32 = self.lengths.total_pieces();
        let mut i: u32 = 0;
        while i < n
            invariant
                i <= n,
                n == self.shape().pieces(),
                *self == *old(self),
                self.wf(),
                p == (|i: int| is_candidate(self@, i)),
                list@ == those(self@.availability, p, i as nat),
            decreases n - i,
        {
            let k: usize = i as usize;
            if !self.have_local[k] && self.availability[k] > 0 {
                list.push((self.availability[k], i));
            }
            i += 1;
        }
        self.sort_by_rarity(&mut list);
        self.sorted = list;
        self.sorted_dirty = false;
        proof {
            self.lemma_same_candidates(*old(self));
        }
    }

    fn choose_many_impl(&mut self, bitfield: &[u8], skip_in_flight: bool, hint: u32) -> (r: Vec<
        ValidPieceIndex,
    >)
        requires
            old(self).wf(),
        ensures
            final(self).wf(),
            final(self).shape() == old(self).shape(),
            final(self)@ == old(self)@,
            indices(r@) == chosen(old(self)@, bitfield@, skip_in_flight, hint),
    {
        if self.sorted_dirty {
            self.rebuild_sorted();
        }
        let ghost m = self@;
        let ghost all = self.sorted@;
        let ghost p = |i: int| is_candidate(m, i);
        proof {
            lemma_rarest_first(m.availability, p);
            assert(all == rarest_first(m.availability, p));
        }
        let mut list: Vec<(u32, u32)> = Vec::new();
        let mut i: usize = 0;
        assert(all.take(0) =~= seq![]);
        while i < self.sorted.len()
            invariant
                i <= self.sorted.len(),
                self.wf(),
                self.sorted@ == all,
                self@ == m,
                forall|i: int|
                    0 <= i < all.len() ==> (#[trigger] all[i]).1 < self.shape().pieces(),
                list@ == offered(all.take(i as int), m, bitfield@, skip_in_flight),
                forall|i: int|
                    0 <= i < list@.len() ==> (#[trigger] list@[i]).1 < self.shape().pieces(),
            decreases self.sorted.len() - i,
        {
            let (a, k) = self.sorted[i];
            proof {
                assert(all.take(i + 1).drop_last() =~= all.take(i as int));
                assert(all[i as int].1 < self.shape().pieces());
            }
            if holds_piece(bitfield, k as usize) && !(skip_in_flight
                && self.in_flight[k as usize]) {
                list.push((a, k));
            }
            i += 1;
        }
        assert(all.take(i as int) =~= all);
        let ghost offer = list@;
        let mut out: Vec<(u32, u32)> = Vec::new();
        let mut start: usize = 0;
        proof {
            assert(offer.skip(0) =~= offer);
            assert(out@ + spread(offer, hint) =~= spread(offer, hint));
        }
        while start < list.len()
            invariant
                start <= list.len(),
                list@ == offer,
                out@ + spread(offer.skip(start as int), hint) == spread(offer, hint),
                forall|i: int|
                    0 <= i < list@.len() ==> (#[trigger] list@[i]).1 < self.shape().pieces(),
                forall|i: int|
                    0 <= i < out@.len() ==> (#[trigger] out@[i]).1 < self.shape().pieces(),
            decreases list.len() - start,
        {
            let ghost rest = offer.skip(start as int);
            let mut end: usize = start + 1;
            proof {
                lemma_bucket(rest);
            }
            while end < list.len() && list[end].0 == list[start].0
                invariant
                    start < end <= list.len(),
                    list@ == offer,
                    rest == offer.skip(start as int),
                    end - start <= bucket(rest),
                    0 <= bucket(rest) <= rest.len(),
                    forall|i: int| 0 <= i < bucket(rest) ==> (#[trigger] rest[i]).0 == rest[0].0,
                    bucket(rest) < rest.len() ==> rest[bucket(rest)].0 != rest[bucket(rest) - 1].0,
                decreases list.len() - end,
            {
                proof {
                    let n = bucket(rest);
                    if end - start == n {
                        assert(rest[n].0 == offer[end as int].0);
                        assert(rest[n - 1].0 == rest[0].0);
                    }
                }
                end += 1;
            }
            let len: usize = end - start;
            proof {
                let n = bucket(rest);
                if len < n {
                    assert(rest[len as int].0 == rest[0].0);
                    assert(rest[len as int] == offer[end as int]);
                }
                assert(len == n);
            }
            let by: usize = hint as usize % len;
            let ghost before = out@;
            let ghost run = rest.take(len as int);
            let mut k: usize = 0;
            assert(out@ =~= before + turned(run, by as int).take(0));
            while k < len
                invariant
                    k <= len,
                    by < len,
                    len == end - start,
                    start < end <= list.len(),
                    list@ == offer,
                    rest == offer.skip(start as int),
                    run == rest.take(len as int),
                    out@ == before + turned(run, by as int).take(k as int),
                    forall|i: int|
                        0 <= i < list@.len() ==> (#[trigger] list@[i]).1 < self.shape().pieces(),
                    forall|i: int|
                        0 <= i < out@.len() ==> (#[trigger] out@[i]).1 < self.shape().pieces(),
                decreases len - k,
            {
                let at: usize = if by < len - k {
                    start + k + by
                } else {
                    start + (k - (len - by))
                };
                let ghost held = out@;
                out.push(list[at]);
                proof {
                    let t = turned(run, by as int);
                    assert(t[k as int] == offer[at as int]);
                    assert(out@ =~= before + t.take(k + 1));
                }
                k += 1;
            }
            proof {
                let t = turned(run, by as int);
                assert(t.take(k as int) =~= t);
                assert(rest.skip(len as int) =~= offer.skip(end as int));
                assert(out@ + spread(offer.skip(end as int), hint) =~= before + spread(rest, hint));
            }
            start = end;
        }
        proof {
            assert(offer.skip(start as int) =~= seq![]);
            assert(out@ =~= spread(offer, hint));
        }
        self.to_indices(&out)
    }

    /// The pieces that a peer may be asked for, the rarest first; the hint turns each run of
    /// equally rare ones.
    pub fn choose_requestable_pieces(&mut self, peer_bitfield: &[u8], hint: u32) -> (r: Vec<
        ValidPieceIndex,
    >)
        requires
            old(self).wf(),
        ensures
            final(self).wf(),
            final(self).shape() == old(self).shape(),
            final(self)@ == old(self)@,
            indices(r@) == chosen(old(self)@, peer_bitfield@, true, hint),
    {
        self.choose_many_impl(peer_bitfield, true, hint)
    }

    /// The pieces that a peer may be asked for at the end of a download, when those that others
    /// were asked for count as well.
    pub fn choose_pieces(&mut self, peer_bitfield: &[u8], hint: u32) -> (r: Vec<ValidPieceIndex>)
        requires
            old(self).wf(),
        ensures
            final(self).wf(),
            final(self).shape() == old(self).shape(),
            final(self)@ == old(self)@,
            indices(r@) == chosen(old(self)@, peer_bitfield@, false, hint),
    {
        self.choose_many_impl(peer_bitfield, false, hint)
    }

    fn choose_impl(&self, bitfield: &[u8], hint: u32, exclude: &HashSet<u32>) -> (r: Option<
        ValidPieceIndex,
    >)
        requires
            self.wf(),
        ensures
            match choice(self@, bitfield@, exclude@, hint) {
                Some(i) => r matches Some(v) && v.index() == i,
                None => r is None,
            },
    {
        broadcast use vstd::std_specs::hash::group_hash_axioms;

        let ghost m = self@;
        let mut best: Option<u32> = None;
        let mut list: Vec<u32> = Vec::new();
        let n: u32 = self.lengths.total_pieces();
        let mut i: u32 = 0;
        while i < n
            invariant
                i <= n,
                n == self.shape().pieces(),
                self.wf(),
                m == self@,
                best == rarest(m, bitfield@, exclude@, i as nat),
                best matches Some(c) ==> list@ == as_rare(m, bitfield@, exclude@, c, i as nat)
                    && list@.len() > 0 && forall|j: int|
                    0 <= j < i && eligible(m, bitfield@, exclude@, j) ==> c <= m.availability[j],
                best is None ==> list@.len() == 0 && forall|j: int|
                    0 <= j < i ==> !eligible(m, bitfield@, exclude@, j),
                forall|j: int| 0 <= j < list@.len() ==> #[trigger] list@[j] < i,
            decreases n - i,
        {
            let k: usize = i as usize;
            let a: u32 = self.availability[k];
            let skipped = exclude.contains(&i);
            if holds_piece(bitfield, k) && !self.have_local[k] && a > 0 && !skipped {
                assert(eligible(m, bitfield@, exclude@, i as int));
                let better = match best {
                    None => true,
                    Some(c) => a < c,
                };
                let equal = match best {
                    None => false,
                    Some(c) => a == c,
                };
                if better {
                    proof {
                        lemma_none_as_rare(m, bitfield@, exclude@, a, i as nat);
                    }
                    best = Some(a);
                    list = Vec::new();
                    list.push(i);
                    assert(list@ =~= as_rare(m, bitfield@, exclude@, a, (i + 1) as nat));
                } else if equal {
                    list.push(i);
                }
            } else {
                assert(!eligible(m, bitfield@, exclude@, i as int));
            }
            i += 1;
        }
        if list.len() == 0 {
            return None;
        }
        let at: usize = hint as usize % list.len();
        match self.lengths.validate_piece(list[at]) {
            Ok(v) => Some(v),
            Err(_) => {
                assert(false);
                None
            },
        }
    }

    /// The rarest piece that a peer has and we lack, the first of those; whether it has been
    /// asked for does not matter.
    pub fn choose_piece(&mut self, peer_bitfield: &[u8]) -> (r: Option<ValidPieceIndex>)
        requires
            old(self).wf(),
        ensures
            final(self).wf(),
            final(self).shape() == old(self).shape(),
            final(self)@ == old(self)@,
            match choice(old(self)@, peer_bitfield@, Set::empty(), 0) {
                Some(i) => r matches Some(v) && v.index() == i,
                None => r is None,
            },
    {
        let none: HashSet<u32> = HashSet::new();
        self.choose_impl(peer_bitfield, 0, &none)
    }

    /// One of the rarest pieces that a peer has and we lack, but for those that are excluded; the
    /// hint decides which.
    pub fn choose_piece_excluding(
        &mut self,
        peer_bitfield: &[u8],
        hint: u32,
        exclude: &HashSet<u32>,
    ) -> (r: Option<ValidPieceIndex>)
        requires
            old(self).wf(),
        ensures
            final(self).wf(),
            final(self).shape() == old(self).shape(),
            final(self)@ == old(self)@,
            match choice(old(self)@, peer_bitfield@, exclude@, hint) {
                Some(i) => r matches Some(v) && v.index() == i,
                None => r is None,
            },
    {
        self.choose_impl(peer_bitfield, hint, exclude)
    }
}

proof fn lemma_none_as_rare(
    m: TrackerModel,
    bits: Seq<u8>,
    exclude: Set<u32>,
    count: u32,
    k: nat,
)
    requires
        forall|j: int| 0 <= j < k && eligible(m, bits, exclude, j) ==> count < m.availability[j],
    ensures
        as_rare(m, bits, exclude, count, k) == Seq::<u32>::empty(),
    decreases k,
{
    if k > 0 {
        lemma_none_as_rare(m, bits, exclude, count, (k - 1) as nat);
    }
}

/// A bit field cut or filled with zeros to a length.
pub open spec fn fitted_to(bits: Seq<u8>, n: nat) -> Seq<u8> {
    Seq::new(
        n,
        |i: int|
            if i < bits.len() {
                bits[i]
            } else {
                0
            },
    )
}

proof fn lemma_those_same(
    availability: Seq<u32>,
    p: spec_fn(int) -> bool,
    q: spec_fn(int) -> bool,
    k: nat,
)
    requires
        forall|i: int| 0 <= i < k ==> #[trigger] p(i) == q(i),
    ensures
        those(availability, p, k) == those(availability, q, k),
    decreases k,
{
    if k > 0 {
        lemma_those_same(availability, p, q, (k - 1) as nat);
    }
}

proof fn lemma_rarest(m: TrackerModel, bits: Seq<u8>, exclude: Set<u32>, k: nat)
    ensures
        match rarest(m, bits, exclude, k) {
            Some(c) => (forall|j: int|
                0 <= j < k && eligible(m, bits, exclude, j) ==> c <= #[trigger] m.availability[j])
                && as_rare(m, bits, exclude, c, k).len() > 0,
            None => forall|j: int| 0 <= j < k ==> !#[trigger] eligible(m, bits, exclude, j),
        },
    decreases k,
{
    if k > 0 {
        lemma_rarest(m, bits, exclude, (k - 1) as nat);
    }
}

proof fn lemma_as_rare(m: TrackerModel, bits: Seq<u8>, exclude: Set<u32>, count: u32, k: nat)
    requires
        k <= u32::MAX,
    ensures
        forall|i: int|
            0 <= i < as_rare(m, bits, exclude, count, k).len() ==> ({
                let e = #[trigger] as_rare(m, bits, exclude, count, k)[i];
                e < k && eligible(m, bits, exclude, e as int) && m.availability[e as int] == count
            }),
    decreases k,
{
    if k > 0 {
        lemma_as_rare(m, bits, exclude, count, (k - 1) as nat);
        let before = as_rare(m, bits, exclude, count, (k - 1) as nat);
        let all = as_rare(m, bits, exclude, count, k);
        assert forall|i: int| 0 <= i < all.len() implies ({
            let e = #[trigger] all[i];
            e < k && eligible(m, bits, exclude, e as int) && m.availability[e as int] == count
        }) by {
            if i < before.len() {
                assert(all[i] == before[i]);
            }
        }
    }
}

/// The choice is rarest first: the piece that is chosen is one that the peer has and we lack, no
/// such piece is rarer, and one is chosen wherever there is one.
pub proof fn choices_are_rarest_first(m: TrackerModel, bits: Seq<u8>, exclude: Set<u32>, hint: u32)
    requires
        m.availability.len() <= u32::MAX,
    ensures
        match choice(m, bits, exclude, hint) {
            Some(i) => i < m.availability.len() && eligible(m, bits, exclude, i as int) && forall|
                j: int,
            |
                0 <= j < m.availability.len() && eligible(m, bits, exclude, j)
                    ==> m.availability[i as int] <= #[trigger] m.availability[j],
            None => forall|j: int|
                0 <= j < m.availability.len() ==> !#[trigger] eligible(m, bits, exclude, j),
        },
{
    let n = m.availability.len();
    lemma_rarest(m, bits, exclude, n);
    match rarest(m, bits, exclude, n) {
        Some(c) => {
            lemma_as_rare(m, bits, exclude, c, n);
            let all = as_rare(m, bits, exclude, c, n);
            let at = hint as int % all.len() as int;
            assert(0 <= at < all.len());
            let e = all[at];
        },
        None => {},
    }
}

proof fn lemma_those_members(availability: Seq<u32>, p: spec_fn(int) -> bool, k: nat)
    requires
        k <= availability.len() <= u32::MAX,
    ensures
        those(availability, p, k).no_duplicates(),
        forall|i: int|
            0 <= i < k && p(i) ==> #[trigger] those(availability, p, k).contains(
                (availability[i], i as u32),
            ),
    decreases k,
{
    if k > 0 {
        let before = those(availability, p, (k - 1) as nat);
        let all = those(availability, p, k);
        lemma_those_members(availability, p, (k - 1) as nat);
        lemma_those(availability, p, (k - 1) as nat);
        assert forall|i: int| 0 <= i < k && p(i) implies #[trigger] all.contains(
            (availability[i], i as u32),
        ) by {
            let e = (availability[i], i as u32);
            if i < k - 1 {
                assert(before.contains(e));
                let at = choose|at: int| 0 <= at < before.len() && before[at] == e;
                assert(all[at] == e);
            } else {
                assert(all[before.len() as int] == e);
            }
        }
    }
}

proof fn lemma_same_items<T>(a: Seq<T>, b: Seq<T>)
    requires
        a.to_multiset() == b.to_multiset(),
    ensures
        a.len() == b.len(),
        a.no_duplicates() ==> b.no_duplicates(),
        forall|x: T|
            #![trigger a.contains(x)]
            #![trigger b.contains(x)]
            a.contains(x) <==> b.contains(x),
{
    a.to_multiset_ensures();
    b.to_multiset_ensures();
    assert forall|x: T| #[trigger] a.contains(x) <==> b.contains(x) by {
        assert(a.contains(x) <==> a.to_multiset().count(x) > 0);
        assert(b.contains(x) <==> b.to_multiset().count(x) > 0);
    }
    if a.no_duplicates() {
        a.lemma_multiset_has_no_duplicates();
        b.lemma_multiset_has_no_duplicates_conv();
    }
}

proof fn lemma_offered(list: Seq<(u32, u32)>, m: TrackerModel, bits: Seq<u8>, skip_in_flight: bool)
    requires
        sorted_by(list, rarity()),
        list.no_duplicates(),
    ensures
        sorted_by(offered(list, m, bits, skip_in_flight), rarity()),
        offered(list, m, bits, skip_in_flight).no_duplicates(),
        forall|e: (u32, u32)| #[trigger]
            offered(list, m, bits, skip_in_flight).contains(e) <==> list.contains(e) && has_piece(
                bits,
                e.1 as int,
            ) && !(skip_in_flight && m.in_flight[e.1 as int]),
    decreases list.len(),
{
    if list.len() > 0 {
        let front = list.drop_last();
        let before = offered(front, m, bits, skip_in_flight);
        let out = offered(list, m, bits, skip_in_flight);
        lemma_offered(front, m, bits, skip_in_flight);
        assert forall|i: int| 0 <= i < before.len() implies rarity()(
            #[trigger] before[i],
            list.last(),
        ) && before[i] != list.last() by {
            assert(before.contains(before[i]));
            let j = choose|j: int| 0 <= j < front.len() && front[j] == before[i];
            assert(list[j] == before[i]);
        }
        assert forall|e: (u32, u32)| #[trigger] out.contains(e) <==> list.contains(e) && has_piece(
            bits,
            e.1 as int,
        ) && !(skip_in_flight && m.in_flight[e.1 as int]) by {
            assert(before.contains(e) <==> front.contains(e) && has_piece(bits, e.1 as int) && !(
            skip_in_flight && m.in_flight[e.1 as int]));
            assert(list =~= front.push(list.last()));
            if front.contains(e) {
                let j = choose|j: int| 0 <= j < front.len() && front[j] == e;
                assert(list[j] == e);
            }
            assert(list[list.len() - 1] == list.last());
            if before.contains(e) {
                let j = choose|j: int| 0 <= j < before.len() && before[j] == e;
                assert(out[j] == e);
            }
            if out.len() > before.len() {
                assert(out[before.len() as int] == list.last());
            }
            if out.contains(e) {
                let j = choose|j: int| 0 <= j < out.len() && out[j] == e;
                if j < before.len() {
                    assert(before[j] == e);
                }
            }
            if list.contains(e) && e != list.last() {
                let j = choose|j: int| 0 <= j < list.len() && list[j] == e;
                assert(front[j] == e);
            }
        }
    }
}

/// True where the places from `a` up to `b` hold all the pieces that are as rare as one of them.
pub open spec fn equally_rare(counts: Seq<u32>, a: int, b: int) -> bool {
    &&& 0 <= a < b <= counts.len()
    &&& forall|i: int| a <= i < b ==> #[trigger] counts[i] == counts[a]
    &&& a > 0 ==> counts[a - 1] != counts[a]
    &&& b < counts.len() ==> counts[b] != counts[a]
}

spec fn counts(list: Seq<(u32, u32)>) -> Seq<u32> {
    Seq::new(list.len(), |i: int| list[i].0)
}

/// True where `later` is `first` with the places from `a` up to `b` turned by the hint.
pub open spec fn begins_further_on<T>(
    first: Seq<T>,
    later: Seq<T>,
    hint: u32,
    a: int,
    b: int,
) -> bool {
    forall|i: int|
        a <= i < b ==> #[trigger] later[i] == first[a + (i - a + hint as int) % (b - a)]
}

proof fn lemma_turned<T>(s: Seq<T>, hint: u32)
    requires
        s.len() > 0,
    ensures
        turned(s, hint as int % s.len() as int).len() == s.len(),
        turned(s, hint as int % s.len() as int).to_multiset() == s.to_multiset(),
        begins_further_on(s, turned(s, hint as int % s.len() as int), hint, 0, s.len() as int),
{
    let n = s.len() as int;
    let by = hint as int % n;
    assert(0 <= by < n);
    vstd::seq_lib::lemma_multiset_commutative(s.skip(by), s.take(by));
    vstd::seq_lib::lemma_multiset_commutative(s.take(by), s.skip(by));
    assert(s.take(by) + s.skip(by) =~= s);
    let t = turned(s, by);
    assert(t.to_multiset() =~= s.to_multiset());
    assert forall|i: int| 0 <= i < n implies #[trigger] t[i] == s[(i + hint as int) % n] by {
        let q = hint as int / n;
        assert(hint as int == n * q + by) by (nonlinear_arith)
            requires
                n > 0,
                q == hint as int / n,
                by == hint as int % n,
        ;
        vstd::arithmetic::div_mod::lemma_mod_multiples_vanish(q, i + by, n);
        assert((n * q + (i + by)) % n == (i + by) % n);
        if i + by < n {
            vstd::arithmetic::div_mod::lemma_small_mod((i + by) as nat, n as nat);
        } else {
            vstd::arithmetic::div_mod::lemma_mod_multiples_vanish(1, i + by - n, n);
            vstd::arithmetic::div_mod::lemma_small_mod((i + by - n) as nat, n as nat);
        }
    }
}

proof fn lemma_spread_items(list: Seq<(u32, u32)>, hint: u32)
    ensures
        spread(list, hint).to_multiset() == list.to_multiset(),
        counts(spread(list, hint)) == counts(list),
    decreases list.len(),
{
    if list.len() > 0 {
        let n = bucket(list);
        lemma_bucket(list);
        let head = list.take(n);
        let rest = list.skip(n);
        lemma_spread_items(rest, hint);
        lemma_turned(head, hint);
        let turn = turned(head, hint as int % n);
        let out = spread(list, hint);
        assert(out == turn + spread(rest, hint));
        vstd::seq_lib::lemma_multiset_commutative(turn, spread(rest, hint));
        vstd::seq_lib::lemma_multiset_commutative(head, rest);
        assert(head + rest =~= list);
        assert(out.to_multiset() =~= list.to_multiset());
        assert(counts(spread(rest, hint)).len() == counts(rest).len());
        assert forall|i: int| 0 <= i < list.len() implies (#[trigger] out[i]).0 == list[i].0 by {
            if i < n {
                assert(out[i] == turn[i]);
                let at = (i + hint as int) % n;
                assert(0 <= at < n);
                assert(turn[i] == head[0 + (i - 0 + hint as int) % (n - 0)]);
                assert(head[at] == list[at]);
            } else {
                assert(counts(spread(rest, hint))[i - n] == counts(rest)[i - n]);
            }
        }
        assert(counts(out) =~= counts(list));
    } else {
        assert(spread(list, hint) =~= list);
    }
}

proof fn lemma_spread(list: Seq<(u32, u32)>, hint: u32, a: int, b: int)
    requires
        equally_rare(counts(list), a, b),
        forall|i: int, j: int|
            0 <= i < j < list.len() ==> (#[trigger] list[i]).0 <= (#[trigger] list[j]).0,
    ensures
        begins_further_on(list, spread(list, hint), hint, a, b),
    decreases list.len(),
{
    let n = bucket(list);
    lemma_bucket(list);
    let head = list.take(n);
    let rest = list.skip(n);
    let turn = turned(head, hint as int % n);
    let out = spread(list, hint);
    let all = counts(list);
    lemma_turned(head, hint);
    assert(out == turn + spread(rest, hint));
    if a < n {
        assert(all[a] == all[0]);
        assert(a == 0) by {
            if a > 0 {
                assert(all[a - 1] == list[a - 1].0);
            }
        }
        assert(b == n) by {
            if b < n {
                assert(all[b] == list[b].0);
            }
            if n < b {
                assert(all[n] == list[n].0);
                assert(all[n - 1] == list[n - 1].0);
            }
        }
        assert forall|i: int| a <= i < b implies #[trigger] out[i] == list[a + (i - a
            + hint as int) % (b - a)] by {
            assert(out[i] == turn[i]);
            assert(turn[i] == head[0 + (i - 0 + hint as int) % (n - 0)]);
            assert(0 <= (i + hint as int) % n < n);
        }
    } else {
        let less = counts(rest);
        assert forall|i: int| a - n <= i < b - n implies #[trigger] less[i] == less[a - n] by {
            assert(less[i] == all[i + n]);
        }
        assert(less[a - n] == all[a]);
        if a > n {
            assert(less[a - n - 1] == all[a - 1]);
        }
        if b < all.len() {
            assert(less[b - n] == all[b]);
        }
        assert forall|i: int, j: int| 0 <= i < j < rest.len() implies (#[trigger] rest[i]).0 <= (
        #[trigger] rest[j]).0 by {
            assert(rest[i] == list[i + n] && rest[j] == list[j + n]);
        }
        lemma_spread(rest, hint, a - n, b - n);
        lemma_spread_items(rest, hint);
        assert(counts(spread(rest, hint)).len() == counts(rest).len());
        assert forall|i: int| a <= i < b implies #[trigger] out[i] == list[a + (i - a
            + hint as int) % (b - a)] by {
            let x = i - n;
            assert(out[i] == spread(rest, hint)[x]);
            let at = (i - a + hint as int) % (b - a);
            assert(0 <= at < b - a);
            assert(spread(rest, hint)[x] == rest[(a - n) + (x - (a - n) + hint as int) % ((b - n)
                - (a - n))]);
            assert(x - (a - n) + hint as int == i - a + hint as int);
            assert((b - n) - (a - n) == b - a);
            assert(rest[a - n + at] == list[a + at]);
        }
    }
}

/// How rare each piece of a list is.
pub open spec fn counts_of(m: TrackerModel, list: Seq<u32>) -> Seq<u32> {
    Seq::new(list.len(), |i: int| m.availability[list[i] as int])
}

proof fn lemma_numbered(m: TrackerModel, list: Seq<(u32, u32)>)
    requires
        list.no_duplicates(),
        forall|e: (u32, u32)| #[trigger]
            list.contains(e) ==> e.1 < m.availability.len() && e.0 == m.availability[e.1 as int],
    ensures
        numbers(list).no_duplicates(),
        counts_of(m, numbers(list)) == counts(list),
        forall|i: int|
            0 <= i < m.availability.len() <= u32::MAX ==> (#[trigger] numbers(list).contains(
                i as u32,
            ) <==> list.contains((m.availability[i], i as u32))),
        forall|k: u32| #[trigger] numbers(list).contains(k) ==> k < m.availability.len(),
{
    let out = numbers(list);
    assert forall|k: int| 0 <= k < list.len() implies (#[trigger] list[k]).1
        < m.availability.len() && list[k].0 == m.availability[list[k].1 as int] by {
        assert(list.contains(list[k]));
    }
    assert forall|k: u32| #[trigger] out.contains(k) implies k < m.availability.len() by {
        let at = choose|at: int| 0 <= at < out.len() && out[at] == k;
        assert(list[at].1 == k);
    }
    assert(counts_of(m, out) =~= counts(list));
    assert forall|i: int, j: int| 0 <= i < out.len() && 0 <= j < out.len() && i != j implies out[i]
        != out[j] by {
        assert(list[i] != list[j]);
    }
    assert forall|i: int| 0 <= i < m.availability.len() <= u32::MAX implies (
    #[trigger] out.contains(i as u32) <==> list.contains((m.availability[i], i as u32))) by {
        if out.contains(i as u32) {
            let at = choose|at: int| 0 <= at < out.len() && out[at] == i as u32;
            assert(list[at] == (m.availability[i], i as u32));
        }
        if list.contains((m.availability[i], i as u32)) {
            let at = choose|at: int|
                0 <= at < list.len() && list[at] == (m.availability[i], i as u32);
            assert(out[at] == i as u32);
        }
    }
}

proof fn lemma_sorted_those(m: TrackerModel, p: spec_fn(int) -> bool)
    requires
        m.availability.len() <= u32::MAX,
    ensures
        sorted_by(rarest_first(m.availability, p), rarity()),
        rarest_first(m.availability, p).no_duplicates(),
        forall|e: (u32, u32)| #[trigger]
            rarest_first(m.availability, p).contains(e) <==> e.1 < m.availability.len() && e.0
                == m.availability[e.1 as int] && p(e.1 as int),
{
    let availability = m.availability;
    let all = those(availability, p, availability.len());
    let list = rarest_first(availability, p);
    lemma_rarity();
    lemma_those_members(availability, p, availability.len());
    lemma_rarest_first(availability, p);
    all.lemma_sort_by_ensures(rarity());
    lemma_same_items(all, list);
    assert forall|e: (u32, u32)| #[trigger] list.contains(e) <==> e.1 < availability.len() && e.0
        == availability[e.1 as int] && p(e.1 as int) by {
        if list.contains(e) {
            let at = choose|at: int| 0 <= at < list.len() && list[at] == e;
        }
        if e.1 < availability.len() && e.0 == availability[e.1 as int] && p(e.1 as int) {
            assert(all.contains((availability[e.1 as int], (e.1 as int) as u32)));
            assert(all.contains(e));
        }
    }
}

/// A peer is asked for exactly the pieces that it has and we lack, and, where that matters, that
/// nobody has been asked for yet; each once, and none before a rarer one. With no hint pieces that
/// are equally rare stand in the order of their numbers, and a hint begins further on among them.
pub proof fn what_a_peer_is_asked_for(
    m: TrackerModel,
    bits: Seq<u8>,
    skip_in_flight: bool,
    hint: u32,
)
    requires
        m.availability.len() <= u32::MAX,
    ensures
        ({
            let asked = chosen(m, bits, skip_in_flight, hint);
            let plain = chosen(m, bits, skip_in_flight, 0);
            &&& forall|i: u32| #[trigger]
                asked.contains(i) <==> i < m.availability.len() && has_piece(bits, i as int)
                    && !m.local[i as int] && m.availability[i as int] > 0 && !(skip_in_flight
                    && m.in_flight[i as int])
            &&& asked.no_duplicates()
            &&& forall|i: int, j: int|
                0 <= i < j < asked.len() ==> m.availability[#[trigger] asked[i] as int]
                    <= m.availability[#[trigger] asked[j] as int]
            &&& forall|i: int, j: int|
                0 <= i < j < plain.len() && m.availability[#[trigger] plain[i] as int]
                    == m.availability[#[trigger] plain[j] as int] ==> plain[i] < plain[j]
            &&& asked.len() == plain.len()
            &&& forall|a: int, b: int| #[trigger]
                equally_rare(counts_of(m, plain), a, b) ==> begins_further_on(
                    plain,
                    asked,
                    hint,
                    a,
                    b,
                )
        }),
{
    let p = |i: int| is_candidate(m, i);
    let list = rarest_first(m.availability, p);
    let able = offered(list, m, bits, skip_in_flight);
    let turn = spread(able, hint);
    let still = spread(able, 0);
    let asked = chosen(m, bits, skip_in_flight, hint);
    let plain = chosen(m, bits, skip_in_flight, 0);
    lemma_sorted_those(m, p);
    lemma_offered(list, m, bits, skip_in_flight);
    lemma_spread_items(able, hint);
    lemma_spread_items(able, 0);
    lemma_same_items(able, turn);
    lemma_same_items(able, still);
    lemma_numbered(m, turn);
    lemma_numbered(m, able);
    lemma_numbered(m, still);
    assert forall|i: int, j: int| 0 <= i < j < able.len() implies (#[trigger] able[i]).0 <= (
    #[trigger] able[j]).0 by {
        assert(rarity()(able[i], able[j]));
    }
    assert forall|a: int, b: int| #[trigger] equally_rare(counts(able), a, b) implies (forall|i: int|
        a <= i < b ==> #[trigger] still[i] == able[i]) by {
        lemma_spread(able, 0, a, b);
        assert forall|i: int| a <= i < b implies #[trigger] still[i] == able[i] by {
            vstd::arithmetic::div_mod::lemma_small_mod((i - a) as nat, (b - a) as nat);
        }
    }
    lemma_same_list(able, still);
    assert forall|i: u32| #[trigger] asked.contains(i) <==> i < m.availability.len() && has_piece(
        bits,
        i as int,
    ) && !m.local[i as int] && m.availability[i as int] > 0 && !(skip_in_flight
        && m.in_flight[i as int]) by {
        if i < m.availability.len() {
            assert((i as int) as u32 == i);
            let e = (m.availability[i as int], i);
            assert(asked.contains((i as int) as u32) <==> turn.contains(e));
            assert(able.contains(e) <==> turn.contains(e));
            assert(list.contains(e) <==> p(i as int));
        }
    }
    assert forall|i: int, j: int| 0 <= i < j < asked.len() implies m.availability[#[trigger]
    asked[i] as int] <= m.availability[#[trigger] asked[j] as int] by {
        assert(counts_of(m, asked)[i] == counts(able)[i]);
        assert(counts_of(m, asked)[j] == counts(able)[j]);
        assert(able[i].0 <= able[j].0);
    }
    assert forall|i: int, j: int|
        0 <= i < j < plain.len() && m.availability[#[trigger] plain[i] as int]
            == m.availability[#[trigger] plain[j] as int] implies plain[i] < plain[j] by {
        assert(counts_of(m, plain)[i] == counts(able)[i]);
        assert(counts_of(m, plain)[j] == counts(able)[j]);
        assert(rarity()(able[i], able[j]));
        assert(able[i] != able[j]);
    }
    assert forall|a: int, b: int| #[trigger]
        equally_rare(counts_of(m, plain), a, b) implies begins_further_on(
        plain,
        asked,
        hint,
        a,
        b,
    ) by {
        assert(equally_rare(counts(able), a, b));
        lemma_spread(able, hint, a, b);
        assert forall|i: int| a <= i < b implies #[trigger] asked[i] == plain[a + (i - a
            + hint as int) % (b - a)] by {
            assert(0 <= (i - a + hint as int) % (b - a) < b - a);
            assert(turn[i] == able[a + (i - a + hint as int) % (b - a)]);
        }
    }
}

proof fn lemma_run_around(all: Seq<u32>, at: int) -> (run: (int, int))
    requires
        0 <= at < all.len(),
        forall|i: int, j: int| 0 <= i < j < all.len() ==> #[trigger] all[i] <= #[trigger] all[j],
    ensures
        equally_rare(all, run.0, run.1),
        run.0 <= at < run.1,
{
    let a = lemma_run_start(all, at);
    let b = lemma_run_end(all, at);
    assert forall|i: int| a <= i < b implies #[trigger] all[i] == all[a] by {
        assert(all[i] == all[at]);
    }
    (a, b)
}

proof fn lemma_run_start(all: Seq<u32>, at: int) -> (a: int)
    requires
        0 <= at < all.len(),
    ensures
        0 <= a <= at,
        forall|i: int| a <= i <= at ==> #[trigger] all[i] == all[at],
        a > 0 ==> all[a - 1] != all[a],
    decreases at,
{
    if at > 0 && all[at - 1] == all[at] {
        lemma_run_start(all, at - 1)
    } else {
        at
    }
}

proof fn lemma_run_end(all: Seq<u32>, at: int) -> (b: int)
    requires
        0 <= at < all.len(),
    ensures
        at < b <= all.len(),
        forall|i: int| at <= i < b ==> #[trigger] all[i] == all[at],
        b < all.len() ==> all[b] != all[at],
    decreases all.len() - at,
{
    if at + 1 < all.len() && all[at + 1] == all[at] {
        lemma_run_end(all, at + 1)
    } else {
        at + 1
    }
}

proof fn lemma_same_list(list: Seq<(u32, u32)>, out: Seq<(u32, u32)>)
    requires
        out.len() == list.len(),
        forall|i: int, j: int|
            0 <= i < j < list.len() ==> (#[trigger] list[i]).0 <= (#[trigger] list[j]).0,
        forall|a: int, b: int| #[trigger]
            equally_rare(counts(list), a, b) ==> (forall|i: int|
                a <= i < b ==> #[trigger] out[i] == list[i]),
    ensures
        out == list,
{
    let all = counts(list);
    assert forall|i: int| 0 <= i < list.len() implies #[trigger] out[i] == list[i] by {
        assert forall|x: int, y: int| 0 <= x < y < all.len() implies #[trigger] all[x]
            <= #[trigger] all[y] by {
            assert(list[x].0 <= list[y].0);
        }
        let run = lemma_run_around(all, i);
        assert(equally_rare(counts(list), run.0, run.1));
    }
    assert(out =~= list);
}

/// The pieces that are missing are exactly those neither on disk nor asked for; each once, the
/// rarer ones first, and equally rare ones in the order of their numbers.
pub proof fn what_is_missing(m: TrackerModel)
    requires
        m.availability.len() <= u32::MAX,
    ensures
        forall|i: u32| #[trigger]
            missing(m).contains(i) <==> i < m.availability.len() && !m.local[i as int]
                && !m.in_flight[i as int],
        missing(m).no_duplicates(),
        forall|i: int, j: int|
            0 <= i < j < missing(m).len() ==> {
                let (x, y) = (#[trigger] missing(m)[i], #[trigger] missing(m)[j]);
                m.availability[x as int] < m.availability[y as int] || (m.availability[x as int]
                    == m.availability[y as int] && x < y)
            },
{
    let p = |i: int| !m.local[i] && !m.in_flight[i];
    let list = rarest_first(m.availability, p);
    lemma_sorted_those(m, p);
    lemma_numbered(m, list);
    assert forall|i: u32| #[trigger] missing(m).contains(i) <==> i < m.availability.len()
        && !m.local[i as int] && !m.in_flight[i as int] by {
        if i < m.availability.len() {
            assert((i as int) as u32 == i);
            let e = (m.availability[i as int], i);
            assert(missing(m).contains((i as int) as u32) <==> list.contains(e));
            assert(list.contains(e) <==> p(i as int));
        }
    }
    assert forall|i: int, j: int| 0 <= i < j < missing(m).len() implies {
        let (x, y) = (#[trigger] missing(m)[i], #[trigger] missing(m)[j]);
        m.availability[x as int] < m.availability[y as int] || (m.availability[x as int]
            == m.availability[y as int] && x < y)
    } by {
        assert(counts_of(m, numbers(list))[i] == counts(list)[i]);
        assert(counts_of(m, numbers(list))[j] == counts(list)[j]);
        assert(rarity()(list[i], list[j]));
        assert(list[i] != list[j]);
    }
}

/// True of the pieces that a peer has, that we lack, and that are not excluded.
pub open spec fn may_be_asked(m: TrackerModel, bits: Seq<u8>, exclude: Set<u32>, i: int) -> bool {
    &&& 0 <= i < m.availability.len()
    &&& has_piece(bits, i)
    &&& !m.local[i]
    &&& m.availability[i] > 0
    &&& !exclude.contains(i as u32)
}

/// The piece that a peer is asked for next is one that it has, that we lack and that is not
/// excluded; no such piece is rarer. With no hint it is the first such piece, and hints that
/// follow one another go through all that are as rare.
pub proof fn the_next_piece(m: TrackerModel, bits: Seq<u8>, exclude: Set<u32>, hint: u32)
    requires
        m.availability.len() <= u32::MAX,
    ensures
        choice(m, bits, exclude, hint) is Some <==> (exists|i: int| #[trigger]
            may_be_asked(m, bits, exclude, i)),
        choice(m, bits, exclude, hint) matches Some(c) ==> may_be_asked(m, bits, exclude, c as int)
            && forall|i: int| #[trigger]
            may_be_asked(m, bits, exclude, i) ==> m.availability[c as int] <= m.availability[i],
        choice(m, bits, exclude, 0) matches Some(c) ==> forall|i: int| #[trigger]
            may_be_asked(m, bits, exclude, i) && m.availability[i] == m.availability[c as int]
                ==> c <= i,
        choice(m, bits, exclude, hint) matches Some(c) ==> forall|i: int| #[trigger]
            may_be_asked(m, bits, exclude, i) && m.availability[i] == m.availability[c as int]
                ==> exists|h: u32| #[trigger] choice(m, bits, exclude, h) == Some(i as u32),
{
    let n = m.availability.len();
    choices_are_rarest_first(m, bits, exclude, hint);
    choices_are_rarest_first(m, bits, exclude, 0);
    assert forall|i: int| 0 <= i < n implies may_be_asked(m, bits, exclude, i) == #[trigger] eligible(
        m,
        bits,
        exclude,
        i,
    ) by {}
    assert forall|i: int| #[trigger] may_be_asked(m, bits, exclude, i) implies eligible(
        m,
        bits,
        exclude,
        i,
    ) by {}
    lemma_rarest(m, bits, exclude, n);
    match rarest(m, bits, exclude, n) {
        Some(c) => {
            let all = as_rare(m, bits, exclude, c, n);
            lemma_as_rare(m, bits, exclude, c, n);
            lemma_all_as_rare(m, bits, exclude, c, n);
            assert(0 <= hint as int % all.len() as int);
            assert(0int % all.len() as int == 0) by {
                vstd::arithmetic::div_mod::lemma_small_mod(0, all.len());
            }
            let first = choice(m, bits, exclude, 0)->0;
            let got = choice(m, bits, exclude, hint)->0;
            assert(first == all[0]);
            assert(may_be_asked(m, bits, exclude, first as int));
            assert(all.contains(first));
            assert(may_be_asked(m, bits, exclude, got as int));
            assert forall|i: int| #[trigger] may_be_asked(m, bits, exclude, i) && m.availability[i]
                == m.availability[first as int] implies first <= i by {
                assert(eligible(m, bits, exclude, i));
                assert(all.contains(i as u32));
                let at = choose|at: int| 0 <= at < all.len() && all[at] == i as u32;
                if at > 0 {
                    assert(all[0] < all[at]);
                }
            }
            assert forall|i: int| #[trigger] may_be_asked(m, bits, exclude, i) && m.availability[i]
                == m.availability[got as int] implies exists|h: u32|
                choice(m, bits, exclude, h) == Some(i as u32) by {
                assert(eligible(m, bits, exclude, i));
                let g = all[hint as int % all.len() as int];
                assert(got == g);
                assert(all.contains(i as u32));
                let at = choose|at: int| 0 <= at < all.len() && all[at] == i as u32;
                vstd::arithmetic::div_mod::lemma_small_mod(at as nat, all.len());
                assert(choice(m, bits, exclude, at as u32) == Some(i as u32));
            }
        },
        None => {},
    }
}

proof fn lemma_all_as_rare(m: TrackerModel, bits: Seq<u8>, exclude: Set<u32>, count: u32, k: nat)
    requires
        k <= m.availability.len() <= u32::MAX,
    ensures
        as_rare(m, bits, exclude, count, k).len() <= k,
        forall|i: int|
            0 <= i < as_rare(m, bits, exclude, count, k).len() ==> #[trigger] as_rare(
                m,
                bits,
                exclude,
                count,
                k,
            )[i] < k && m.availability[as_rare(m, bits, exclude, count, k)[i] as int] == count,
        forall|i: int, j: int|
            0 <= i < j < as_rare(m, bits, exclude, count, k).len() ==> #[trigger] as_rare(
                m,
                bits,
                exclude,
                count,
                k,
            )[i] < #[trigger] as_rare(m, bits, exclude, count, k)[j],
        forall|i: int|
            0 <= i < k && #[trigger] eligible(m, bits, exclude, i) && m.availability[i] == count
                ==> as_rare(m, bits, exclude, count, k).contains(i as u32),
    decreases k,
{
    if k > 0 {
        lemma_all_as_rare(m, bits, exclude, count, (k - 1) as nat);
        let before = as_rare(m, bits, exclude, count, (k - 1) as nat);
        let all = as_rare(m, bits, exclude, count, k);
        assert forall|i: int|
            0 <= i < k && #[trigger] eligible(m, bits, exclude, i) && m.availability[i]
                == count implies all.contains(i as u32) by {
            if i < k - 1 {
                assert(before.contains(i as u32));
                let at = choose|at: int| 0 <= at < before.len() && before[at] == i as u32;
                assert(all[at] == i as u32);
            } else {
                assert(all[before.len() as int] == i as u32);
            }
        }
    }
}

/// Every piece has its own bit of the field, from the highest bit of the first byte on: that of
/// piece `i` is worth 128, 64, 32, 16, 8, 4, 2 or 1 in byte `i / 8`.
pub proof fn where_a_bit_stands(bits: Seq<u8>, i: int)
    requires
        0 <= i,
        i / 8 < bits.len(),
    ensures
        ({
            let b = bits[i / 8];
            &&& i % 8 == 0 ==> (has_piece(bits, i) <==> b / 128 == 1)
            &&& i % 8 == 1 ==> (has_piece(bits, i) <==> b / 64 % 2 == 1)
            &&& i % 8 == 2 ==> (has_piece(bits, i) <==> b / 32 % 2 == 1)
            &&& i % 8 == 3 ==> (has_piece(bits, i) <==> b / 16 % 2 == 1)
            &&& i % 8 == 4 ==> (has_piece(bits, i) <==> b / 8 % 2 == 1)
            &&& i % 8 == 5 ==> (has_piece(bits, i) <==> b / 4 % 2 == 1)
            &&& i % 8 == 6 ==> (has_piece(bits, i) <==> b / 2 % 2 == 1)
            &&& i % 8 == 7 ==> (has_piece(bits, i) <==> b % 2 == 1)
        }),
{
    let b = bits[i / 8];
    assert((b >> 7u8) & 1u8 == (b / 128) % 2 && (b >> 6u8) & 1u8 == (b / 64) % 2 && (b >> 5u8) & 1u8
        == (b / 32) % 2 && (b >> 4u8) & 1u8 == (b / 16) % 2 && (b >> 3u8) & 1u8 == (b / 8) % 2 && (b
        >> 2u8) & 1u8 == (b / 4) % 2 && (b >> 1u8) & 1u8 == (b / 2) % 2 && (b >> 0u8) & 1u8 == b
        % 2) by (bit_vector);
}

/// A peer that comes counts once for each piece that it has, and for no other, and one that goes
/// no longer counts; no count runs over at either end.
pub proof fn how_peers_are_counted(availability: Seq<u32>, bits: Seq<u8>, i: int)
    requires
        0 <= i < availability.len(),
    ensures
        counted_in(availability, bits).len() == availability.len(),
        counted_out(availability, bits).len() == availability.len(),
        !has_piece(bits, i) ==> counted_in(availability, bits)[i] == availability[i] && counted_out(
            availability,
            bits,
        )[i] == availability[i],
        has_piece(bits, i) && availability[i] < 4_294_967_295 ==> counted_in(availability, bits)[i]
            == availability[i] + 1,
        has_piece(bits, i) && availability[i] > 0 ==> counted_out(availability, bits)[i]
            == availability[i] - 1,
        availability[i] == 4_294_967_295 ==> counted_in(availability, bits)[i] == availability[i],
        availability[i] == 0 ==> counted_out(availability, bits)[i] == 0,
{
}

/// A peer that gets one piece more counts as if it had had it from the start.
pub proof fn a_piece_more_counts(availability: Seq<u32>, bits: Seq<u8>, i: int)
    requires
        0 <= i < availability.len(),
        i / 8 < bits.len(),
        !has_piece(bits, i),
    ensures
        counted_in(availability, with_piece(bits, i)) == counted_in(availability, bits).update(
            i,
            one_more(counted_in(availability, bits)[i]),
        ),
{
    let more = with_piece(bits, i);
    assert forall|j: int| 0 <= j < availability.len() implies has_piece(more, j) == (i == j
        || has_piece(bits, j)) by {
        setting_a_bit(bits, i, j);
    }
    assert(counted_in(availability, more) =~= counted_in(availability, bits).update(
        i,
        one_more(counted_in(availability, bits)[i]),
    ));
}

/// A field of bits that is brought to a length says of every piece that it still has room for what
/// it said before, and of no other that it is there.
pub proof fn what_a_fitted_field_says(bits: Seq<u8>, n: nat, i: int)
    requires
        0 <= i,
    ensures
        fitted_to(bits, n).len() == n,
        has_piece(fitted_to(bits, n), i) <==> i < 8 * n && has_piece(bits, i),
{
    let k = i % 8;
    let y = (7 - k) as u8;
    assert(!((0u8 >> y) & 1u8 == 1u8)) by (bit_vector);
}

} // verus!
