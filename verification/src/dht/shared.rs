//! Which node the whole process shares, and how one takes the place of another.

use vstd::prelude::*;

verus! {

/// The node that the process shares, by its number; whether it was asked to go through a proxy;
/// and why the last attempt failed.
#[derive(Debug)]
pub struct SharedDhtState {
    pub dht: Option<u64>,
    pub proxy_requested: Option<bool>,
    pub last_error: Option<String>,
}

/// The mathematical value of the shared state.
#[verifier::ext_equal]
pub struct SharedModel {
    pub dht: Option<u64>,
    pub proxy_requested: Option<bool>,
    pub last_error: Option<Seq<char>>,
}

/// The characters of a string that may be absent.
pub open spec fn text_view(s: Option<String>) -> Option<Seq<char>> {
    match s {
        Some(t) => Some(t@),
        None => None,
    }
}

impl View for SharedDhtState {
    type V = SharedModel;

    open spec fn view(&self) -> SharedModel {
        SharedModel {
            dht: self.dht,
            proxy_requested: self.proxy_requested,
            last_error: text_view(self.last_error),
        }
    }
}

/// What was shared when a new node began to start: what it takes the place of.
#[derive(Clone, Copy, Debug, PartialEq, Eq, Structural)]
pub struct Replaced {
    pub dht: Option<u64>,
    pub proxy_requested: Option<bool>,
}

/// What to do when a node is wanted.
#[derive(Clone, Copy, Debug, PartialEq, Eq, Structural)]
pub enum Install {
    /// The node that is there will do.
    Reuse(u64),
    /// There is none, and a direct one may not take the place of a proxied one that failed.
    Refuse,
    /// A new one has to be started, in the place of what is shared now.
    Spawn(Replaced),
}

/// What to do when a node is wanted.
pub open spec fn install_choice(s: SharedModel, requested_proxy: bool, force: bool) -> Install {
    if !force && s.proxy_requested == Some(requested_proxy) && s.dht is Some {
        Install::Reuse(s.dht->0)
    } else if !force && s.proxy_requested == Some(true) && !requested_proxy && s.dht is None {
        Install::Refuse
    } else {
        Install::Spawn(Replaced { dht: s.dht, proxy_requested: s.proxy_requested })
    }
}

/// What was shared before a change of route, and the node that came.
#[derive(Debug)]
pub struct DhtRouteSwap {
    pub previous: Option<u64>,
    pub previous_proxy_requested: Option<bool>,
    pub previous_error: Option<String>,
    pub next: Option<u64>,
}

impl DhtRouteSwap {
    /// The node that the change brought.
    pub fn next(&self) -> (r: Option<u64>)
        ensures
            r == self.next,
    {
        self.next
    }
}

/// Which nodes are to be stopped, and which one is shared from here on.
#[derive(Clone, Copy, Debug, PartialEq, Eq, Structural)]
pub struct Outcome {
    pub shared: Option<u64>,
    pub stop: Option<u64>,
}

/// What remains requested when a node could not be started.
pub open spec fn still_requested(previous: Option<bool>, requested_proxy: bool) -> Option<bool> {
    match previous {
        Some(p) => Some(p),
        None => Some(requested_proxy),
    }
}

fn same_node(a: Option<u64>, b: Option<u64>) -> (r: bool)
    ensures
        r == (a == b),
{
    match (a, b) {
        (None, None) => true,
        (Some(x), Some(y)) => x == y,
        _ => false,
    }
}

impl SharedDhtState {
    pub fn new() -> (r: Self)
        ensures
            r@ == (SharedModel { dht: None, proxy_requested: None, last_error: None }),
    {
        SharedDhtState { dht: None, proxy_requested: None, last_error: None }
    }

    /// A direct node may be shared implicitly unless a proxy was asked for and has none.
    pub fn may_start_directly(&self) -> (r: bool)
        ensures
            r == (self@.dht is None && self@.proxy_requested != Some(true)),
    {
        self.dht.is_none() && match self.proxy_requested {
            Some(p) => !p,
            None => true,
        }
    }

    /// A node is wanted.
    pub fn begin_install(&mut self, requested_proxy: bool, force: bool) -> (r: Install)
        ensures
            r == install_choice(old(self)@, requested_proxy, force),
            final(self)@ == (if r is Spawn {
                SharedModel { last_error: None, ..old(self)@ }
            } else {
                old(self)@
            }),
    {
        let same = match self.proxy_requested {
            Some(p) => p == requested_proxy,
            None => false,
        };
        let proxied = match self.proxy_requested {
            Some(p) => p,
            None => false,
        };
        match self.dht {
            Some(dht) => {
                if !force && same {
                    return Install::Reuse(dht);
                }
            },
            None => {
                if !force && proxied && !requested_proxy {
                    return Install::Refuse;
                }
            },
        }
        self.last_error = None;
        Install::Spawn(Replaced { dht: self.dht, proxy_requested: self.proxy_requested })
    }

    /// The new node has started: the one whose place it takes is to be stopped.
    pub fn installed(&mut self, replaced: Replaced, dht: u64, requested_proxy: bool) -> (r: Outcome)
        ensures
            final(self)@ == (SharedModel {
                dht: Some(dht),
                proxy_requested: Some(requested_proxy),
                ..old(self)@
            }),
            r == (Outcome { shared: Some(dht), stop: replaced.dht }),
    {
        self.dht = Some(dht);
        self.proxy_requested = Some(requested_proxy);
        Outcome { shared: Some(dht), stop: replaced.dht }
    }

    /// The new node could not be started: the one whose place it would have taken is put back.
    pub fn install_failed(&mut self, replaced: Replaced, requested_proxy: bool, error: String)
        ensures
            final(self)@ == (SharedModel {
                dht: replaced.dht,
                proxy_requested: still_requested(replaced.proxy_requested, requested_proxy),
                last_error: Some(error@),
            }),
    {
        self.dht = replaced.dht;
        self.proxy_requested = match replaced.proxy_requested {
            Some(p) => Some(p),
            None => Some(requested_proxy),
        };
        self.last_error = Some(error);
    }

    /// Prepare a change of route: what was shared before is remembered.
    pub fn begin_swap(&mut self, requested_proxy: bool) -> (r: DhtRouteSwap)
        ensures
            final(self)@ == preparing(old(self)@, requested_proxy),
            r@ == (SwapModel { before: old(self)@, next: None }),
    {
        let mut previous_error: Option<String> = None;
        std::mem::swap(&mut previous_error, &mut self.last_error);
        let previous_proxy_requested = self.proxy_requested;
        self.proxy_requested = Some(requested_proxy);
        DhtRouteSwap {
            previous: self.dht,
            previous_proxy_requested,
            previous_error,
            next: None,
        }
    }

    /// The node of a change of route has started: it is shared, and the searches of the previous
    /// one stop.
    pub fn swap_started(&mut self, swap: DhtRouteSwap, dht: u64) -> (r: DhtRouteSwap)
        ensures
            final(self)@ == (SharedModel { dht: Some(dht), ..old(self)@ }),
            r@ == (SwapModel { before: swap@.before, next: Some(dht) }),
    {
        self.dht = Some(dht);
        DhtRouteSwap {
            previous: swap.previous,
            previous_proxy_requested: swap.previous_proxy_requested,
            previous_error: swap.previous_error,
            next: Some(dht),
        }
    }

    /// The node of a change of route could not be started.
    pub fn swap_failed(&mut self, swap: &DhtRouteSwap, requested_proxy: bool, error: String)
        ensures
            final(self)@ == (SharedModel {
                dht: swap.previous,
                proxy_requested: still_requested(swap.previous_proxy_requested, requested_proxy),
                last_error: Some(error@),
            }),
    {
        self.dht = swap.previous;
        self.proxy_requested = match swap.previous_proxy_requested {
            Some(p) => Some(p),
            None => Some(requested_proxy),
        };
        self.last_error = Some(error);
    }
}

impl DhtRouteSwap {
    /// Finish a change of route: the previous node is to be stopped, or the new one where another
    /// change has come in between.
    pub fn commit(&self, shared: &SharedDhtState) -> (r: Outcome)
        ensures
            r.shared == shared@.dht,
            r.stop == (if shared@.dht == self.next {
                self.previous
            } else {
                self.next
            }),
    {
        if same_node(shared.dht, self.next) {
            Outcome { shared: shared.dht, stop: self.previous }
        } else {
            Outcome { shared: shared.dht, stop: self.next }
        }
    }

    /// Take a change of route back, unless another change has come in between: either way its
    /// node is to be stopped, where it is not the one that stays.
    pub fn rollback(self, shared: &mut SharedDhtState) -> (r: Outcome)
        ensures
            final(shared)@ == rolled_back(old(shared)@, self@),
            r.shared == final(shared)@.dht,
            r.stop == (if r.shared == self.next {
                None
            } else {
                self.next
            }),
    {
        if !same_node(shared.dht, self.next) {
            return Outcome { shared: shared.dht, stop: self.next };
        }
        let current = shared.dht;
        shared.dht = self.previous;
        shared.proxy_requested = self.previous_proxy_requested;
        shared.last_error = self.previous_error;
        let stop = if same_node(current, self.previous) {
            None
        } else {
            current
        };
        Outcome { shared: shared.dht, stop }
    }
}

/// The shared state while a change of route is prepared.
pub open spec fn preparing(s: SharedModel, requested_proxy: bool) -> SharedModel {
    SharedModel { dht: s.dht, proxy_requested: Some(requested_proxy), last_error: None }
}

/// What a change of route remembers.
#[verifier::ext_equal]
pub struct SwapModel {
    pub before: SharedModel,
    pub next: Option<u64>,
}

impl View for DhtRouteSwap {
    type V = SwapModel;

    open spec fn view(&self) -> SwapModel {
        SwapModel {
            before: SharedModel {
                dht: self.previous,
                proxy_requested: self.previous_proxy_requested,
                last_error: text_view(self.previous_error),
            },
            next: self.next,
        }
    }
}

/// The shared state after a change of route was taken back.
pub open spec fn rolled_back(s: SharedModel, swap: SwapModel) -> SharedModel {
    if s.dht == swap.next {
        swap.before
    } else {
        s
    }
}

/// Taking back a change of route restores what was shared before it; where another node has been
/// shared in between, that one stays.
pub proof fn rollback_restores(before: SharedModel, requested_proxy: bool, next: u64, other: SharedModel)
    requires
        other.dht != Some(next),
    ensures
        ({
            let swap = SwapModel { before, next: Some(next) };
            let during = SharedModel { dht: Some(next), ..preparing(before, requested_proxy) };
            rolled_back(during, swap) == before && rolled_back(other, swap) == other
        }),
{
}

/// A node that runs by the route that is asked for is used again. While a proxied node is asked for
/// and there is none, no other is started beside it. In every other case, and whenever it is
/// forced, a new node takes the place of the old one.
pub proof fn when_a_node_is_started(s: SharedModel, requested_proxy: bool, force: bool)
    ensures
        install_choice(s, requested_proxy, force) is Reuse <==> !force && s.dht is Some
            && s.proxy_requested == Some(requested_proxy),
        install_choice(s, requested_proxy, force) is Refuse <==> !force && s.dht is None
            && s.proxy_requested == Some(true) && !requested_proxy,
        install_choice(s, requested_proxy, force) matches Install::Reuse(n) ==> s.dht == Some(n),
        install_choice(s, requested_proxy, force) matches Install::Spawn(old) ==> old.dht == s.dht
            && old.proxy_requested == s.proxy_requested,
        force ==> install_choice(s, requested_proxy, force) is Spawn,
{
}

/// While a route is prepared the node that runs stays, the new route is what is asked for, and the
/// last error is forgotten. A route that was asked for before stays asked for where a node could
/// not be started.
pub proof fn what_a_change_of_route_keeps(s: SharedModel, p: Option<bool>, requested_proxy: bool)
    ensures
        preparing(s, requested_proxy).dht == s.dht,
        preparing(s, requested_proxy).proxy_requested == Some(requested_proxy),
        preparing(s, requested_proxy).last_error is None,
        p is Some ==> still_requested(p, requested_proxy) == p,
        p is None ==> still_requested(p, requested_proxy) == Some(requested_proxy),
{
}

} // verus!
