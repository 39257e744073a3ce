//! Questions that wait for an answer.

use vstd::prelude::*;

use crate::bencode::same_bytes;
use crate::dht::krpc::{dht_targets_match, may_answer, DhtTarget, TargetModel};
use crate::meta::hash::{array_from, Id20};
use crate::net::SocketAddr;
use crate::wire::mse::random_bytes;

verus! {

/// A transaction id that nobody can guess.
pub fn random_transaction_id() -> (r: [u8; 8])
{
    array_from::<8>(random_bytes(8).as_slice())
}

/// An identifier that nobody can guess.
pub fn random_id() -> (r: Id20)
{
    Id20(array_from::<20>(random_bytes(20).as_slice()))
}

#[derive(Debug)]
struct PendingEntry {
    txn: Vec<u8>,
    target: DhtTarget,
    resolved_addrs: Option<Vec<SocketAddr>>,
    token: u64,
}

/// A question that waits: whom it went to, the addresses that may answer where the name was
/// looked up, and the number of whoever waits.
pub struct PendingModel {
    pub target: TargetModel,
    pub resolved: Option<Seq<SocketAddr>>,
    pub token: u64,
}

/// The questions that wait, by transaction id.
#[derive(Debug)]
pub struct PendingMap {
    entries: Vec<PendingEntry>,
    next_token: u64,
}

impl View for PendingEntry {
    type V = PendingModel;

    closed spec fn view(&self) -> PendingModel {
        PendingModel {
            target: self.target@,
            resolved: match self.resolved_addrs {
                Some(v) => Some(v@),
                None => None,
            },
            token: self.token,
        }
    }
}

spec fn place(entries: Seq<PendingEntry>, txn: Seq<u8>) -> int
    decreases entries.len(),
{
    if entries.len() == 0 {
        0
    } else if entries[0].txn@ == txn {
        0
    } else {
        1 + place(entries.drop_first(), txn)
    }
}

proof fn lemma_place(entries: Seq<PendingEntry>, txn: Seq<u8>)
    ensures
        0 <= place(entries, txn) <= entries.len(),
        place(entries, txn) < entries.len() ==> entries[place(entries, txn)].txn@ == txn,
        forall|j: int| 0 <= j < place(entries, txn) ==> (#[trigger] entries[j]).txn@ != txn,
    decreases entries.len(),
{
    if entries.len() > 0 && entries[0].txn@ != txn {
        let rest = entries.drop_first();
        lemma_place(rest, txn);
        assert forall|j: int| 0 <= j < place(entries, txn) implies (#[trigger] entries[j]).txn@
            != txn by {
            if j > 0 {
                assert(rest[j - 1] == entries[j]);
            }
        }
    }
}

spec fn single(entries: Seq<PendingEntry>) -> bool {
    forall|i: int, j: int|
        0 <= i < j < entries.len() ==> (#[trigger] entries[i]).txn@ != (#[trigger] entries[j]).txn@
}

proof fn lemma_place_is(entries: Seq<PendingEntry>, i: int)
    requires
        single(entries),
        0 <= i < entries.len(),
    ensures
        place(entries, entries[i].txn@) == i,
{
    lemma_place(entries, entries[i].txn@);
}

spec fn questions(entries: Seq<PendingEntry>) -> Map<Seq<u8>, PendingModel> {
    Map::new(
        |txn: Seq<u8>| place(entries, txn) < entries.len(),
        |txn: Seq<u8>| entries[place(entries, txn)]@,
    )
}

proof fn lemma_push(entries: Seq<PendingEntry>, e: PendingEntry)
    requires
        single(entries),
        place(entries, e.txn@) == entries.len(),
    ensures
        single(entries.push(e)),
        questions(entries.push(e)) == questions(entries).insert(e.txn@, e@),
{
    let all = entries.push(e);
    lemma_place(entries, e.txn@);
    assert forall|t: Seq<u8>| #[trigger] place(all, t) == (if t == e.txn@ {
        entries.len() as int
    } else if place(entries, t) < entries.len() {
        place(entries, t)
    } else {
        all.len() as int
    }) by {
        lemma_place(all, t);
        lemma_place(entries, t);
        let p = place(all, t);
        assert(all[entries.len() as int] == e);
        if p < entries.len() {
            assert(entries[p] == all[p]);
        }
        if place(entries, t) < entries.len() {
            assert(all[place(entries, t)] == entries[place(entries, t)]);
        }
    }
    let after = questions(entries).insert(e.txn@, e@);
    assert forall|t: Seq<u8>| #[trigger] questions(all).dom().contains(t) implies questions(all)[t]
        == after[t] by {
        lemma_place(entries, t);
        assert(place(all, t) == place(all, t));
    }
    assert(questions(all) =~= after);
}

proof fn lemma_remove(entries: Seq<PendingEntry>, i: int)
    requires
        single(entries),
        0 <= i < entries.len(),
    ensures
        single(entries.remove(i)),
        questions(entries.remove(i)) == questions(entries).remove(entries[i].txn@),
{
    let all = entries.remove(i);
    let gone = entries[i].txn@;
    assert forall|a: int| 0 <= a < all.len() implies #[trigger] all[a] == entries[if a < i {
        a
    } else {
        a + 1
    }] by {}
    assert forall|t: Seq<u8>| t != gone implies ({
        let p = #[trigger] place(entries, t);
        place(all, t) == (if p < i {
            p
        } else {
            p - 1
        })
    }) by {
        lemma_place(entries, t);
        lemma_place(all, t);
        let p = place(entries, t);
        let q = place(all, t);
        if p < entries.len() {
            let k = if p < i {
                p
            } else {
                p - 1
            };
            assert(all[k] == entries[p]);
            lemma_place_is(all, k);
        } else if q < all.len() {
            let k = if q < i {
                q
            } else {
                q + 1
            };
            assert(entries[k].txn@ == t);
        }
    }
    assert(place(all, gone) == all.len()) by {
        lemma_place(all, gone);
        let q = place(all, gone);
        if q < all.len() {
            let k = if q < i {
                q
            } else {
                q + 1
            };
            assert(entries[k].txn@ == gone);
        }
    }
    lemma_place_is(entries, i);
    assert forall|t: Seq<u8>| #[trigger]
        questions(all).dom().contains(t) == questions(entries).remove(gone).dom().contains(t) by {
        lemma_place(entries, t);
        lemma_place(all, t);
        assert(place(entries, t) == place(entries, t));
    }
    assert forall|t: Seq<u8>| #[trigger] questions(all).dom().contains(t) implies questions(all)[t]
        == questions(entries)[t] by {
        lemma_place(entries, t);
        lemma_place(all, t);
        let p = place(entries, t);
        assert(all[if p < i {
            p
        } else {
            p - 1
        }] == entries[p]);
    }
    assert(questions(all) =~= questions(entries).remove(gone));
}

/// True when an answer from `from` is the one that the question waits for.
pub open spec fn comes_from(e: PendingModel, from: SocketAddr) -> bool {
    match e.resolved {
        Some(addrs) => addrs.contains(from),
        None => may_answer(e.target, TargetModel::Addr(from)),
    }
}

/// True when an answer through a proxy is the one that the question waits for. Where the proxy
/// names the sender although the question went to an address, `host_matches` says whether the
/// name stands for that address.
pub open spec fn comes_through(e: PendingModel, from: TargetModel, host_matches: bool) -> bool {
    if e.target is Addr && from is Host {
        host_matches
    } else {
        may_answer(e.target, from)
    }
}

fn has_address(addrs: &Vec<SocketAddr>, addr: &SocketAddr) -> (r: bool)
    ensures
        r == addrs@.contains(*addr),
{
    let mut i: usize = 0;
    while i < addrs.len()
        invariant
            i <= addrs.len(),
            forall|j: int| 0 <= j < i ==> addrs@[j] != *addr,
        decreases addrs.len() - i,
    {
        if addrs[i] == *addr {
            return true;
        }
        i += 1;
    }
    false
}

impl View for PendingMap {
    type V = Map<Seq<u8>, PendingModel>;

    closed spec fn view(&self) -> Map<Seq<u8>, PendingModel> {
        questions(self.entries@)
    }
}

impl PendingMap {
    /// True of every such map: no number is used twice.
    pub closed spec fn wf(self) -> bool {
        &&& single(self.entries@)
        &&& forall|i: int|
            0 <= i < self.entries@.len() ==> (#[trigger] self.entries@[i]).token < self.next_token
    }

    /// The number that the next question gets.
    pub closed spec fn next(self) -> u64 {
        self.next_token
    }

    /// No question that waits has the number that the next one gets, or a later one.
    pub proof fn numbers_are_new(self, txn: Seq<u8>)
        requires
            self.wf(),
            self@.contains_key(txn),
        ensures
            self@[txn].token < self.next(),
    {
        lemma_place(self.entries@, txn);
    }

    pub fn new() -> (r: Self)
        ensures
            r.wf(),
            r@ == Map::<Seq<u8>, PendingModel>::empty(),
            r.next() == 0,
    {
        let r = PendingMap { entries: Vec::new(), next_token: 0 };
        assert(r@ =~= Map::<Seq<u8>, PendingModel>::empty());
        r
    }

    /// The number that the next question gets.
    pub fn next_number(&self) -> (r: u64)
        ensures
            r == self.next(),
    {
        self.next_token
    }

    fn index_of(&self, txn: &[u8]) -> (r: usize)
        ensures
            r == place(self.entries@, txn@),
            r <= self.entries.len(),
            r < self.entries.len() ==> self.entries@[r as int].txn@ == txn@,
    {
        proof {
            lemma_place(self.entries@, txn@);
        }
        let mut i: usize = 0;
        while i < self.entries.len()
            invariant
                i <= self.entries.len(),
                0 <= place(self.entries@, txn@) <= self.entries@.len(),
                place(self.entries@, txn@) < self.entries@.len() ==> self.entries@[place(
                    self.entries@,
                    txn@,
                )].txn@ == txn@,
                forall|j: int|
                    0 <= j < place(self.entries@, txn@) ==> (#[trigger] self.entries@[j]).txn@
                        != txn@,
                forall|j: int| 0 <= j < i ==> (#[trigger] self.entries@[j]).txn@ != txn@,
            decreases self.entries.len() - i,
        {
            if same_bytes(self.entries[i].txn.as_slice(), txn) {
                return i;
            }
            i += 1;
        }
        i
    }

    pub fn contains(&self, txn: &[u8]) -> (r: bool)
        ensures
            r == self@.dom().contains(txn@),
    {
        self.index_of(txn) < self.entries.len()
    }

    /// Wait for the answer to a question, unless its transaction id is in use: the result is the
    /// number of whoever waits.
    pub fn register(
        &mut self,
        txn: Vec<u8>,
        target: DhtTarget,
        resolved_addrs: Option<Vec<SocketAddr>>,
    ) -> (r: Option<u64>)
        requires
            old(self).wf(),
            old(self).next() < u64::MAX,
        ensures
            final(self).wf(),
            old(self)@.dom().contains(txn@) ==> r is None && *final(self) == *old(self),
            !old(self)@.dom().contains(txn@) ==> r == Some(old(self).next()) && final(self).next()
                == old(self).next() + 1 && final(self)@ == old(self)@.insert(
                txn@,
                PendingModel {
                    target: target@,
                    resolved: match resolved_addrs {
                        Some(v) => Some(v@),
                        None => None,
                    },
                    token: old(self).next(),
                },
            ),
            forall|t: Seq<u8>| #[trigger]
                old(self)@.dom().contains(t) ==> old(self)@[t].token < old(self).next(),
    {
        proof {
            assert forall|t: Seq<u8>| #[trigger] self@.dom().contains(t) implies self@[t].token
                < self.next() by {
                lemma_place(self.entries@, t);
                assert(self.entries@[place(self.entries@, t)].token < self.next_token);
            }
        }
        if self.contains(txn.as_slice()) {
            return None;
        }
        let token: u64 = self.next_token;
        let entry = PendingEntry { txn, target, resolved_addrs, token };
        proof {
            lemma_place(self.entries@, txn@);
            lemma_push(self.entries@, entry);
        }
        self.entries.push(entry);
        self.next_token = token + 1;
        Some(token)
    }

    fn take_at(&mut self, i: usize) -> (r: u64)
        requires
            old(self).wf(),
            i < old(self).entries.len(),
        ensures
            final(self).wf(),
            final(self).next() == old(self).next(),
            r == old(self).entries@[i as int].token,
            final(self)@ == old(self)@.remove(old(self).entries@[i as int].txn@),
    {
        proof {
            lemma_remove(self.entries@, i as int);
        }
        let e = self.entries.remove(i);
        e.token
    }

    /// An answer came from an address: the number of whoever waits for it. An answer that comes
    /// from elsewhere is left for the real one.
    pub fn deliver(&mut self, txn: &[u8], from: &SocketAddr) -> (r: Option<u64>)
        requires
            old(self).wf(),
        ensures
            final(self).wf(),
            final(self).next() == old(self).next(),
            if old(self)@.dom().contains(txn@) && comes_from(old(self)@[txn@], *from) {
                r == Some(old(self)@[txn@].token) && final(self)@ == old(self)@.remove(txn@)
            } else {
                r is None && final(self)@ == old(self)@
            },
    {
        let i: usize = self.index_of(txn);
        if i == self.entries.len() {
            return None;
        }
        let e = &self.entries[i];
        let wanted = match &e.resolved_addrs {
            Some(addrs) => has_address(addrs, from),
            None => dht_targets_match(&e.target, &DhtTarget::Addr(*from)),
        };
        if wanted {
            Some(self.take_at(i))
        } else {
            None
        }
    }

    /// Whom a question went to.
    pub fn target_of(&self, txn: &[u8]) -> (r: Option<&DhtTarget>)
        ensures
            if self@.dom().contains(txn@) {
                r matches Some(t) && t@ == self@[txn@].target
            } else {
                r is None
            },
    {
        let i: usize = self.index_of(txn);
        if i == self.entries.len() {
            return None;
        }
        Some(&self.entries[i].target)
    }

    /// An answer came through a proxy: the number of whoever waits for it.
    pub fn deliver_proxied(&mut self, txn: &[u8], from: &DhtTarget, host_matches: bool) -> (r:
        Option<u64>)
        requires
            old(self).wf(),
        ensures
            final(self).wf(),
            final(self).next() == old(self).next(),
            if old(self)@.dom().contains(txn@) && comes_through(
                old(self)@[txn@],
                from@,
                host_matches,
            ) {
                r == Some(old(self)@[txn@].token) && final(self)@ == old(self)@.remove(txn@)
            } else {
                r is None && final(self)@ == old(self)@
            },
    {
        let i: usize = self.index_of(txn);
        if i == self.entries.len() {
            return None;
        }
        let wanted = match (&self.entries[i].target, from) {
            (DhtTarget::Addr(_), DhtTarget::Host(_, _)) => host_matches,
            (target, _) => dht_targets_match(target, from),
        };
        if wanted {
            Some(self.take_at(i))
        } else {
            None
        }
    }

    /// Give up waiting. A transaction id that has been used again since belongs to somebody else,
    /// and stays.
    pub fn cancel(&mut self, txn: &[u8], token: u64)
        requires
            old(self).wf(),
        ensures
            final(self).wf(),
            final(self).next() == old(self).next(),
            final(self)@ == (if old(self)@.dom().contains(txn@) && old(self)@[txn@].token
                == token {
                old(self)@.remove(txn@)
            } else {
                old(self)@
            }),
    {
        let i: usize = self.index_of(txn);
        if i < self.entries.len() && self.entries[i].token == token {
            let _ = self.take_at(i);
        }
    }
}

/// An answer counts where it comes from one of the addresses that the question went to; where the
/// name was looked up by a proxy, wherever that name may answer from.
pub proof fn which_answers_count(e: PendingModel, from: SocketAddr, told: TargetModel, same: bool)
    ensures
        e.resolved matches Some(addrs) ==> (comes_from(e, from) <==> addrs.contains(from)),
        e.resolved is None ==> (e.target matches TargetModel::Addr(a) ==> (comes_from(e, from) <==> a
            == from)),
        e.resolved is None && e.target is Host ==> comes_from(e, from),
        e.target is Addr && told is Host ==> comes_through(e, told, same) == same,
        e.target is Addr && told is Addr ==> (comes_through(e, told, same) <==> e.target == told),
        e.target is Host && told is Addr ==> comes_through(e, told, same),
{
}

} // verus!
