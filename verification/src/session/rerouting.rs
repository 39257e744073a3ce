//! How all torrents are moved to another route, or back where one of them cannot be moved.

use vstd::prelude::*;

use crate::meta::hash::Id20;
use crate::proxy::{copy_route, route_model, P2pRoute, RouteModel};
use crate::session::registry::{RegistryModel, TorrentIdOrHash};
use crate::session::{Session, SessionModel};

verus! {

/// Why a torrent could not be moved.
#[derive(Debug, Clone, Copy, PartialEq, Eq, Structural)]
pub enum SwapFault {
    /// The torrent with this number could not be told.
    NotSent(usize),
    /// The torrent with this number did not answer.
    Interrupted(usize),
}

/// What is to be done next.
#[derive(Debug, Clone, Copy, PartialEq, Eq, Structural)]
pub enum SwapStep {
    /// Tell a torrent of the route: the new one, or the old one again. A torrent with a route of
    /// its own keeps it, and is told of the overlay node only.
    Tell { id: usize, replace_proxy: bool, restore: bool },
    /// Every torrent was moved.
    Moved,
    /// One torrent could not be moved, and all were told of the old route again.
    Restored(SwapFault),
}

/// A move to another route that is under way.
#[derive(Debug)]
pub struct RouteSwap {
    /// The torrents, each with whether it has a route of its own.
    torrents: Vec<(usize, bool)>,
    next: usize,
    fault: Option<SwapFault>,
    old_proxy: Option<P2pRoute>,
    old_dht: Option<u64>,
}

/// The mathematical value of a [`RouteSwap`].
#[verifier::ext_equal]
pub struct SwapModel {
    pub torrents: Seq<(usize, bool)>,
    pub next: int,
    pub fault: Option<SwapFault>,
    pub old_proxy: Option<RouteModel>,
    pub old_dht: Option<u64>,
}

impl View for RouteSwap {
    type V = SwapModel;

    closed spec fn view(&self) -> SwapModel {
        SwapModel {
            torrents: self.torrents@,
            next: self.next as int,
            fault: self.fault,
            old_proxy: route_model(self.old_proxy),
            old_dht: self.old_dht,
        }
    }
}

/// What a move does next.
pub open spec fn swap_step(m: SwapModel) -> SwapStep {
    if 0 <= m.next < m.torrents.len() {
        SwapStep::Tell {
            id: m.torrents[m.next].0,
            replace_proxy: !m.torrents[m.next].1,
            restore: m.fault is Some,
        }
    } else {
        match m.fault {
            None => SwapStep::Moved,
            Some(f) => SwapStep::Restored(f),
        }
    }
}

/// The move after a torrent has answered.
pub open spec fn after_answer(m: SwapModel) -> SwapModel {
    SwapModel { next: m.next + 1, ..m }
}

/// The move after a torrent could not be moved: all torrents are told of the old route; on the
/// way back nothing stops it.
pub open spec fn after_fault(m: SwapModel, fault: SwapFault) -> SwapModel {
    match m.fault {
        None => SwapModel { next: 0, fault: Some(fault), ..m },
        Some(_) => SwapModel { next: m.next + 1, ..m },
    }
}

/// True when `ids` are the digests of the private torrents among those with these numbers.
pub open spec fn private_digests(m: RegistryModel, ids: Seq<usize>) -> Seq<Id20>
    decreases ids.len(),
{
    if ids.len() == 0 {
        seq![]
    } else {
        let front = private_digests(m, ids.drop_last());
        match m.torrents[ids.last()].metadata {
            Some(f) => if f.private {
                front + f.announced@
            } else {
                front
            },
            None => front,
        }
    }
}

/// The torrents with these numbers, each with whether it has a route of its own.
pub open spec fn with_overrides(m: RegistryModel, ids: Seq<usize>) -> Seq<(usize, bool)> {
    Seq::new(ids.len(), |i: int| (ids[i], m.torrents[ids[i]].p2p_proxy_is_task_override))
}

/// True when `swap` is the start of a move of every torrent, and `hashes` what the new overlay
/// node is to keep to itself.
pub open spec fn swap_begins(
    s: SessionModel,
    dht: Option<u64>,
    swap: SwapModel,
    hashes: Seq<Id20>,
) -> bool {
    exists|ids: Seq<usize>|
        #![trigger with_overrides(s.registry, ids)]
        {
            &&& ids.no_duplicates()
            &&& forall|id: usize| #[trigger]
                ids.contains(id) <==> s.registry.torrents.contains_key(id)
            &&& swap == (SwapModel {
                torrents: with_overrides(s.registry, ids),
                next: 0,
                fault: None,
                old_proxy: s.p2p_proxy,
                old_dht: s.dht,
            })
            &&& hashes == (if dht is Some {
                private_digests(s.registry, ids)
            } else {
                seq![]
            })
        }
}

impl RouteSwap {
    /// True of every move.
    pub open spec fn wf(self) -> bool {
        0 <= self@.next <= self@.torrents.len()
    }

    pub fn step(&self) -> (r: SwapStep)
        ensures
            r == swap_step(self@),
    {
        if self.next < self.torrents.len() {
            let (id, own) = self.torrents[self.next];
            SwapStep::Tell { id, replace_proxy: !own, restore: self.fault.is_some() }
        } else {
            match self.fault {
                None => SwapStep::Moved,
                Some(f) => SwapStep::Restored(f),
            }
        }
    }

    /// The torrent that was told has answered.
    pub fn on_answer(&mut self)
        requires
            old(self).wf(),
            swap_step(old(self)@) is Tell,
        ensures
            final(self).wf(),
            final(self)@ == after_answer(old(self)@),
    {
        assert(self.next < self.torrents.len());
        self.next = self.next + 1;
    }

    /// The torrent that was to be told could not be, or did not answer.
    pub fn on_fault(&mut self, fault: SwapFault)
        requires
            old(self).wf(),
            swap_step(old(self)@) is Tell,
        ensures
            final(self).wf(),
            final(self)@ == after_fault(old(self)@, fault),
    {
        if self.fault.is_none() {
            self.fault = Some(fault);
            self.next = 0;
        } else {
            assert(self.next < self.torrents.len());
            self.next = self.next + 1;
        }
    }
}

impl Session {
    /// Begin to move every torrent to another route. The session takes the route at once; what is
    /// returned with the move are the digests that the new overlay node is to keep to itself.
    pub fn reconfigure_p2p_proxy(&mut self, proxy: Option<P2pRoute>, dht: Option<u64>) -> (r: (
        RouteSwap,
        Vec<Id20>,
    ))
        ensures
            final(self)@ == (SessionModel { p2p_proxy: route_model(proxy), dht, ..old(self)@ }),
            r.0.wf(),
            swap_begins(old(self)@, dht, r.0@, r.1@),
    {
        let ids = self.registry.ids();
        let ghost m = self.registry@;
        let mut torrents: Vec<(usize, bool)> = Vec::new();
        let mut hashes: Vec<Id20> = Vec::new();
        let mut i: usize = 0;
        assert(ids@.take(0) =~= seq![]);
        while i < ids.len()
            invariant
                i <= ids.len(),
                m == self.registry@,
                forall|id: usize| #[trigger] ids@.contains(id) <==> m.torrents.contains_key(id),
                torrents@ == with_overrides(m, ids@).take(i as int),
                hashes@ == (if dht is Some {
                    private_digests(m, ids@.take(i as int))
                } else {
                    seq![]
                }),
                *self == *old(self),
            decreases ids.len() - i,
        {
            assert(ids@.contains(ids@[i as int]));
            assert(ids@.take(i + 1).drop_last() =~= ids@.take(i as int));
            if let Some(t) = self.registry.get(TorrentIdOrHash::Id(ids[i])) {
                torrents.push((ids[i], t.p2p_proxy_is_task_override));
                if let Some(f) = &t.metadata {
                    if f.private && dht.is_some() {
                        let ghost before = hashes@;
                        hashes.extend_from_slice(f.announced.as_slice());
                        assert(hashes@ =~= before + f.announced@);
                    }
                }
            }
            assert(torrents@ =~= with_overrides(m, ids@).take(i + 1));
            i += 1;
        }
        proof {
            assert(ids@.take(i as int) =~= ids@);
            assert(with_overrides(m, ids@).take(i as int) =~= with_overrides(m, ids@));
        }
        let old_proxy = copy_route(&self.p2p_proxy);
        let swap = RouteSwap { torrents, next: 0, fault: None, old_proxy, old_dht: self.dht };
        self.p2p_proxy = proxy;
        self.dht = dht;
        proof {
            assert(swap@ =~= (SwapModel {
                torrents: with_overrides(m, ids@),
                next: 0,
                fault: None,
                old_proxy: old(self)@.p2p_proxy,
                old_dht: old(self)@.dht,
            }));
            assert(swap_begins(old(self)@, dht, swap@, hashes@));
        }
        (swap, hashes)
    }

    /// End a move: where a torrent could not be moved, the session has its old route again.
    pub fn rollback_p2p_route(&mut self, swap: &RouteSwap)
        ensures
            final(self)@ == (match swap_step(swap@) {
                SwapStep::Restored(_) => SessionModel {
                    p2p_proxy: swap@.old_proxy,
                    dht: swap@.old_dht,
                    ..old(self)@
                },
                _ => old(self)@,
            }),
    {
        if let SwapStep::Restored(_) = swap.step() {
            self.p2p_proxy = copy_route(&swap.old_proxy);
            self.dht = swap.old_dht;
        }
    }
}

/// How many torrents a move can still tell.
pub open spec fn tells_left(m: SwapModel) -> int {
    m.torrents.len() - m.next + (if m.fault is None {
        m.torrents.len() as int
    } else {
        0
    })
}

/// Every torrent that is told brings a move nearer to its end, whether it answers or not.
pub proof fn moves_end(m: SwapModel, fault: SwapFault)
    requires
        swap_step(m) is Tell,
    ensures
        0 <= tells_left(after_answer(m)) < tells_left(m),
        0 <= tells_left(after_fault(m, fault)) < tells_left(m),
{
}

/// A move that fails, wherever it has come to, tells every torrent of the old route from the first
/// one on, and ends with the session as it was, whatever happens on the way back.
pub proof fn failed_moves_restore(
    s: SessionModel,
    m: SwapModel,
    fault: SwapFault,
    now: SessionModel,
)
    requires
        m.fault is None,
        m.old_proxy == s.p2p_proxy,
        m.old_dht == s.dht,
        now == (SessionModel { p2p_proxy: now.p2p_proxy, dht: now.dht, ..s }),
    ensures
        ({
            let back = after_fault(m, fault);
            &&& back.next == 0
            &&& back.torrents == m.torrents
            &&& forall|i: int|
                0 <= i < m.torrents.len() ==> #[trigger] swap_step(SwapModel { next: i, ..back })
                    == (SwapStep::Tell {
                    id: m.torrents[i].0,
                    replace_proxy: !m.torrents[i].1,
                    restore: true,
                })
            &&& swap_step(SwapModel { next: m.torrents.len() as int, ..back })
                == SwapStep::Restored(fault)
            &&& (SessionModel { p2p_proxy: back.old_proxy, dht: back.old_dht, ..now }) == s
        }),
{
}

/// A move tells the torrents one after the other, those with a route of their own of the overlay
/// node only, and of the old route again once one of them could not be moved; it ends when all were
/// told, and says which fault there was.
pub proof fn what_a_move_does_next(m: SwapModel)
    ensures
        swap_step(m) is Tell <==> 0 <= m.next < m.torrents.len(),
        swap_step(m) matches SwapStep::Tell { id, replace_proxy, restore } ==> id
            == m.torrents[m.next].0 && replace_proxy == !m.torrents[m.next].1 && restore
            == m.fault is Some,
        !(swap_step(m) is Tell) && m.fault is None ==> swap_step(m) is Moved,
        !(swap_step(m) is Tell) && m.fault is Some ==> swap_step(m) == SwapStep::Restored(
            m.fault->0,
        ),
        after_answer(m).next == m.next + 1,
        after_answer(m).torrents == m.torrents && after_answer(m).fault == m.fault,
{
}

/// A new overlay node is told of exactly the digests of the private torrents, and of none where
/// there is no new node; the move begins with every torrent of the session.
pub proof fn what_a_move_begins_with(
    s: SessionModel,
    dht: Option<u64>,
    swap: SwapModel,
    hashes: Seq<Id20>,
)
    requires
        swap_begins(s, dht, swap, hashes),
    ensures
        swap.next == 0,
        swap.fault is None,
        swap.old_proxy == s.p2p_proxy,
        swap.old_dht == s.dht,
        forall|id: usize, own: bool| #[trigger]
            swap.torrents.contains((id, own)) <==> s.registry.torrents.contains_key(id) && own
                == s.registry.torrents[id].p2p_proxy_is_task_override,
        dht is None ==> hashes.len() == 0,
        dht is Some ==> forall|h: Id20| #[trigger]
            hashes.contains(h) <==> exists|id: usize| #[trigger]
                s.registry.torrents.contains_key(id) && (
                s.registry.torrents[id].metadata matches Some(f) && f.private
                    && f.announced@.contains(h)),
{
    let ids = choose|ids: Seq<usize>|
        #![trigger with_overrides(s.registry, ids)]
        {
            &&& ids.no_duplicates()
            &&& forall|id: usize| #[trigger]
                ids.contains(id) <==> s.registry.torrents.contains_key(id)
            &&& swap == (SwapModel {
                torrents: with_overrides(s.registry, ids),
                next: 0,
                fault: None,
                old_proxy: s.p2p_proxy,
                old_dht: s.dht,
            })
            &&& hashes == (if dht is Some {
                private_digests(s.registry, ids)
            } else {
                seq![]
            })
        };
    let all = with_overrides(s.registry, ids);
    assert forall|id: usize, own: bool| #[trigger] swap.torrents.contains((id, own)) <==>
        s.registry.torrents.contains_key(id) && own
        == s.registry.torrents[id].p2p_proxy_is_task_override by {
        if all.contains((id, own)) {
            let i = choose|i: int| 0 <= i < all.len() && all[i] == (id, own);
            assert(ids[i] == id);
            assert(ids.contains(id));
        }
        if s.registry.torrents.contains_key(id) && own
            == s.registry.torrents[id].p2p_proxy_is_task_override {
            assert(ids.contains(id));
            let i = choose|i: int| 0 <= i < ids.len() && ids[i] == id;
            assert(all[i] == (id, own));
        }
    }
    if dht is Some {
        lemma_private_digests(s.registry, ids);
        assert forall|h: Id20| #[trigger] hashes.contains(h) <==> exists|id: usize| #[trigger]
            s.registry.torrents.contains_key(id) && (
            s.registry.torrents[id].metadata matches Some(f) && f.private && f.announced@.contains(
                h,
            )) by {
            if hashes.contains(h) {
                let i = choose|i: int|
                    0 <= i < ids.len() && (s.registry.torrents[#[trigger] ids[i]].metadata matches Some(
                        f,
                    ) && f.private && f.announced@.contains(h));
                assert(ids.contains(ids[i]));
            }
            if exists|id: usize| #[trigger]
                s.registry.torrents.contains_key(id) && (
                s.registry.torrents[id].metadata matches Some(f) && f.private
                    && f.announced@.contains(h)) {
                let id = choose|id: usize| #[trigger]
                    s.registry.torrents.contains_key(id) && (
                    s.registry.torrents[id].metadata matches Some(f) && f.private
                        && f.announced@.contains(h));
                assert(ids.contains(id));
                let i = choose|i: int| 0 <= i < ids.len() && ids[i] == id;
            }
        }
    }
}

proof fn lemma_private_digests(m: RegistryModel, ids: Seq<usize>)
    ensures
        forall|h: Id20| #[trigger]
            private_digests(m, ids).contains(h) <==> exists|i: int|
                0 <= i < ids.len() && (m.torrents[#[trigger] ids[i]].metadata matches Some(f)
                    && f.private && f.announced@.contains(h)),
    decreases ids.len(),
{
    if ids.len() > 0 {
        let front = ids.drop_last();
        lemma_private_digests(m, front);
        let before = private_digests(m, front);
        let out = private_digests(m, ids);
        let last = ids.len() - 1;
        assert(ids[last] == ids.last());
        assert forall|h: Id20| #[trigger] out.contains(h) <==> exists|i: int|
            0 <= i < ids.len() && (m.torrents[#[trigger] ids[i]].metadata matches Some(f)
                && f.private && f.announced@.contains(h)) by {
            if before.contains(h) {
                let k = choose|k: int| 0 <= k < before.len() && before[k] == h;
                assert(out[k] == h);
                let i = choose|i: int|
                    0 <= i < front.len() && (m.torrents[#[trigger] front[i]].metadata matches Some(f)
                        && f.private && f.announced@.contains(h));
                assert(ids[i] == front[i]);
            }
            if exists|i: int|
                0 <= i < ids.len() && (m.torrents[#[trigger] ids[i]].metadata matches Some(f)
                    && f.private && f.announced@.contains(h)) {
                let i = choose|i: int|
                    0 <= i < ids.len() && (m.torrents[#[trigger] ids[i]].metadata matches Some(f)
                        && f.private && f.announced@.contains(h));
                if i < last {
                    assert(ids[i] == front[i]);
                    assert(before.contains(h));
                } else {
                    let a = m.torrents[ids[last]].metadata->0.announced@;
                    let k = choose|k: int| 0 <= k < a.len() && a[k] == h;
                    assert(out[before.len() + k] == h);
                }
            }
            if out.contains(h) && !before.contains(h) {
                let k = choose|k: int| 0 <= k < out.len() && out[k] == h;
                if k < before.len() {
                    assert(before[k] == h);
                }
                let a = m.torrents[ids[last]].metadata->0.announced@;
                assert(a[k - before.len()] == h);
                assert(a.contains(h));
            }
        }
    } else {
        assert forall|h: Id20| !#[trigger] private_digests(m, ids).contains(h) by {}
    }
}

/// The digests of the private torrents are exactly those under which a torrent that is known to be
/// private was announced.
pub proof fn which_digests_are_private(m: RegistryModel, ids: Seq<usize>, h: Id20)
    ensures
        private_digests(m, ids).contains(h) <==> exists|i: int|
            0 <= i < ids.len() && #[trigger] announced_in_private(m, ids[i], h),
    decreases ids.len(),
{
    if ids.len() > 0 {
        let front = ids.drop_last();
        let last = ids.last();
        let n = ids.len() - 1;
        which_digests_are_private(m, front, h);
        let before = private_digests(m, front);
        let all = private_digests(m, ids);
        assert(ids[n] == last);
        if before.contains(h) {
            let i = choose|i: int|
                0 <= i < front.len() && #[trigger] announced_in_private(m, front[i], h);
            assert(ids[i] == front[i]);
            assert(announced_in_private(m, ids[i], h));
            let k = choose|k: int| 0 <= k < before.len() && before[k] == h;
            assert(all[k] == h);
        }
        if announced_in_private(m, last, h) {
            let more = m.torrents[last].metadata->Some_0.announced@;
            let k = choose|k: int| 0 <= k < more.len() && more[k] == h;
            assert(all[before.len() + k] == h);
            assert(announced_in_private(m, ids[n], h));
        }
        if all.contains(h) && !before.contains(h) {
            let k = choose|k: int| 0 <= k < all.len() && all[k] == h;
            if k < before.len() {
                assert(before[k] == h);
            }
            let more = m.torrents[last].metadata->Some_0.announced@;
            assert(more[k - before.len()] == h);
            assert(announced_in_private(m, ids[n], h));
        }
        if exists|i: int| 0 <= i < ids.len() && #[trigger] announced_in_private(m, ids[i], h) {
            let i = choose|i: int|
                0 <= i < ids.len() && #[trigger] announced_in_private(m, ids[i], h);
            if i < n {
                assert(front[i] == ids[i]);
                assert(announced_in_private(m, front[i], h));
            }
        }
    }
}

/// True when the torrent with a number is known to be private and was announced under a digest.
pub open spec fn announced_in_private(m: RegistryModel, id: usize, h: Id20) -> bool {
    m.torrents[id].metadata matches Some(f) && f.private && f.announced@.contains(h)
}

} // verus!
