//! A node: its server, the questions that it waits for, and the hosts that introduce others.

use vstd::prelude::*;

use crate::bencode::{field, Value};
use crate::dht::endpoint::{public_dht_endpoint, public_endpoint};
use crate::dht::krpc::{id_at, id_field, pseudo_id, DhtTarget, TargetModel};
use crate::dht::lookup::{has_target, seeds, target_views, Lookup, LookupModel};
use crate::dht::pending::{PendingMap, PendingModel};
use crate::dht::routing::{addresses, at_most, contacts, live, RoutingLiveness, K};
use crate::dht::server::{
    closest_of, is_fresh, learned, refreshed, without_hash, InboundDhtState, ServerModel,
};
use crate::meta::hash::{id20_is_its_bytes, id20_of, sha1_digest, Id20};
use crate::net::{compact, IpAddr, SocketAddr};
use crate::words;
use crate::words::{w_id, w_r};

verus! {

/// The hosts that introduce a node that knows nobody.
pub open spec fn bootstrap_hosts() -> Seq<TargetModel> {
    seq![
        TargetModel::Host("router.bittorrent.com"@, 6881),
        TargetModel::Host("router.utorrent.com"@, 6881),
        TargetModel::Host("dht.transmissionbt.com"@, 6881),
        TargetModel::Host("dht.libtorrent.org"@, 25401),
        TargetModel::Host("router.bitcomet.com"@, 6881),
    ]
}

/// The hosts that introduce a node that knows nobody; their names are looked up only when a
/// question is sent.
pub fn bootstrap_targets() -> (r: Vec<DhtTarget>)
    ensures
        target_views(r@) == bootstrap_hosts(),
{
    let mut out: Vec<DhtTarget> = Vec::new();
    out.push(DhtTarget::Host("router.bittorrent.com".to_owned(), 6881));
    out.push(DhtTarget::Host("router.utorrent.com".to_owned(), 6881));
    out.push(DhtTarget::Host("dht.transmissionbt.com".to_owned(), 6881));
    out.push(DhtTarget::Host("dht.libtorrent.org".to_owned(), 25401));
    out.push(DhtTarget::Host("router.bitcomet.com".to_owned(), 6881));
    assert(target_views(out@) =~= bootstrap_hosts());
    out
}

/// Where a datagram can go.
#[derive(Clone, Copy, Debug, PartialEq, Eq, Structural)]
pub struct Sockets {
    pub proxied: bool,
    pub ipv4: bool,
    pub ipv6: bool,
}

/// How a datagram goes out.
#[derive(Clone, Copy, Debug, PartialEq, Eq, Structural)]
pub enum SendVia {
    Proxy,
    Ipv4,
    Ipv6,
}

/// Why a datagram cannot go out.
#[derive(Clone, Copy, Debug, PartialEq, Eq, Structural)]
pub enum SendFault {
    /// The node was replaced.
    Reconfigured,
    /// There is no socket for the address family.
    NoIpv4,
    NoIpv6,
    /// No address of the host is public.
    NoPublicAddress,
    /// The host has an address that is not public, and a proxy might pick it.
    NonPublicAddress,
}

/// How a datagram to an address goes out.
pub open spec fn send_route(s: Sockets, shutdown: bool, target: SocketAddr) -> Result<
    SendVia,
    SendFault,
> {
    if shutdown {
        Err(SendFault::Reconfigured)
    } else if s.proxied {
        Ok(SendVia::Proxy)
    } else if target.ip is V4 {
        if s.ipv4 {
            Ok(SendVia::Ipv4)
        } else {
            Err(SendFault::NoIpv4)
        }
    } else if s.ipv6 {
        Ok(SendVia::Ipv6)
    } else {
        Err(SendFault::NoIpv6)
    }
}

/// How a datagram to an address goes out.
pub fn send_packet_route(s: &Sockets, shutdown: bool, target: &SocketAddr) -> (r: Result<
    SendVia,
    SendFault,
>)
    ensures
        r == send_route(*s, shutdown, *target),
{
    if shutdown {
        return Err(SendFault::Reconfigured);
    }
    if s.proxied {
        return Ok(SendVia::Proxy);
    }
    match target.ip {
        IpAddr::V4(_) => if s.ipv4 {
            Ok(SendVia::Ipv4)
        } else {
            Err(SendFault::NoIpv4)
        },
        IpAddr::V6(_) => if s.ipv6 {
            Ok(SendVia::Ipv6)
        } else {
            Err(SendFault::NoIpv6)
        },
    }
}

/// The public addresses among those that a name was looked up to, in their order.
pub open spec fn public_of(addrs: Seq<SocketAddr>) -> Seq<SocketAddr>
    decreases addrs.len(),
{
    if addrs.len() == 0 {
        seq![]
    } else if public_endpoint(addrs.last()) {
        public_of(addrs.drop_last()).push(addrs.last())
    } else {
        public_of(addrs.drop_last())
    }
}

fn public_addresses(addrs: &Vec<SocketAddr>) -> (r: Vec<SocketAddr>)
    ensures
        r@ == public_of(addrs@),
        r.len() <= addrs.len(),
{
    let mut out: Vec<SocketAddr> = Vec::new();
    let mut i: usize = 0;
    assert(addrs@.take(0) =~= seq![]);
    while i < addrs.len()
        invariant
            i <= addrs.len(),
            out@ == public_of(addrs@.take(i as int)),
            out.len() <= i,
        decreases addrs.len() - i,
    {
        assert(addrs@.take(i + 1).drop_last() =~= addrs@.take(i as int));
        if public_dht_endpoint(&addrs[i]) {
            out.push(addrs[i]);
        }
        i += 1;
    }
    assert(addrs@.take(i as int) =~= addrs@);
    out
}

/// Where a datagram to a host may go: only to its public addresses, and through a proxy, which
/// looks the name up again, only where all of them are public.
pub open spec fn host_targets(s: Sockets, shutdown: bool, resolved: Seq<SocketAddr>) -> Result<
    Seq<SocketAddr>,
    SendFault,
> {
    let targets = public_of(resolved);
    if shutdown {
        Err(SendFault::Reconfigured)
    } else if targets.len() == 0 {
        Err(SendFault::NoPublicAddress)
    } else if s.proxied && targets.len() != resolved.len() {
        Err(SendFault::NonPublicAddress)
    } else {
        Ok(targets)
    }
}

/// Where a datagram to a host may go.
pub fn send_packet_host_targets(s: &Sockets, shutdown: bool, resolved: &Vec<SocketAddr>) -> (r:
    Result<Vec<SocketAddr>, SendFault>)
    ensures
        match host_targets(*s, shutdown, resolved@) {
            Ok(t) => r matches Ok(v) && v@ == t,
            Err(e) => r == Err::<Vec<SocketAddr>, SendFault>(e),
        },
{
    if shutdown {
        return Err(SendFault::Reconfigured);
    }
    let targets = public_addresses(resolved);
    if targets.len() == 0 {
        return Err(SendFault::NoPublicAddress);
    }
    if s.proxied && targets.len() != resolved.len() {
        return Err(SendFault::NonPublicAddress);
    }
    Ok(targets)
}

/// The addresses that a datagram to a host is tried at, in order: those that there is a socket
/// for, up to the first that needs the missing socket of the older address family.
pub open spec fn attempts(s: Sockets, targets: Seq<SocketAddr>) -> Seq<SocketAddr>
    decreases targets.len(),
{
    if targets.len() == 0 {
        seq![]
    } else if targets[0].ip is V4 {
        if s.ipv4 {
            seq![targets[0]] + attempts(s, targets.drop_first())
        } else {
            seq![]
        }
    } else if s.ipv6 {
        seq![targets[0]] + attempts(s, targets.drop_first())
    } else {
        attempts(s, targets.drop_first())
    }
}

/// The addresses that a datagram to a host is tried at, in order.
pub fn send_attempts(s: &Sockets, targets: &Vec<SocketAddr>) -> (r: Vec<SocketAddr>)
    ensures
        r@ == attempts(*s, targets@),
{
    let mut out: Vec<SocketAddr> = Vec::new();
    let mut i: usize = 0;
    proof {
        assert(targets@.skip(0) =~= targets@);
        assert(out@ + attempts(*s, targets@) =~= attempts(*s, targets@));
    }
    while i < targets.len()
        invariant
            i <= targets.len(),
            out@ + attempts(*s, targets@.skip(i as int)) == attempts(*s, targets@),
        decreases targets.len() - i,
    {
        let ghost rest = targets@.skip(i as int);
        let ghost before = out@;
        assert(rest.drop_first() =~= targets@.skip(i + 1));
        assert(rest[0] == targets@[i as int]);
        let via6 = targets[i].is_ipv6();
        if !via6 && !s.ipv4 {
            assert(out@ =~= attempts(*s, targets@));
            return out;
        }
        if !via6 || s.ipv6 {
            out.push(targets[i]);
            assert(out@ + attempts(*s, targets@.skip(i + 1)) =~= before + attempts(*s, rest));
        }
        i += 1;
    }
    assert(targets@.skip(i as int) =~= seq![]);
    assert(out@ =~= attempts(*s, targets@));
    out
}

/// The public addresses that can be asked.
pub open spec fn askable(s: Sockets, addrs: Seq<SocketAddr>) -> Seq<SocketAddr>
    decreases addrs.len(),
{
    if addrs.len() == 0 {
        seq![]
    } else {
        let front = askable(s, addrs.drop_last());
        let last = addrs.last();
        if public_endpoint(last) && (s.proxied || (if last.ip is V4 {
            s.ipv4
        } else {
            s.ipv6
        })) {
            front.push(last)
        } else {
            front
        }
    }
}

/// Whom a question to a host goes to: the first of its public addresses, and all of them may
/// answer. Nobody where there is none.
pub fn query_addresses(s: &Sockets, resolved: &Vec<SocketAddr>) -> (r: Option<
    (SocketAddr, Vec<SocketAddr>),
>)
    ensures
        match r {
            Some((first, all)) => all@ == askable(*s, resolved@) && all@.len() > 0 && first
                == all@[0],
            None => askable(*s, resolved@).len() == 0,
        },
{
    let mut out: Vec<SocketAddr> = Vec::new();
    let mut i: usize = 0;
    assert(resolved@.take(0) =~= seq![]);
    while i < resolved.len()
        invariant
            i <= resolved.len(),
            out@ == askable(*s, resolved@.take(i as int)),
        decreases resolved.len() - i,
    {
        assert(resolved@.take(i + 1).drop_last() =~= resolved@.take(i as int));
        let reached = s.proxied || (if resolved[i].is_ipv4() {
            s.ipv4
        } else {
            s.ipv6
        });
        if public_dht_endpoint(&resolved[i]) && reached {
            out.push(resolved[i]);
        }
        i += 1;
    }
    assert(resolved@.take(i as int) =~= resolved@);
    if out.len() == 0 {
        return None;
    }
    Some((out[0], out))
}

/// The hosts after further ones were named: those with a name and a port, each once.
pub open spec fn with_hosts(
    known: Seq<TargetModel>,
    hosts: Seq<(Id20, String, u16)>,
) -> Seq<TargetModel>
    decreases hosts.len(),
{
    if hosts.len() == 0 {
        known
    } else {
        let front = with_hosts(known, hosts.drop_last());
        let (_, host, port) = hosts.last();
        let target = TargetModel::Host(host@, port);
        if host@.len() == 0 || port == 0 || front.contains(target) {
            front
        } else {
            front.push(target)
        }
    }
}

/// The server after it learned of nodes that others told of.
pub open spec fn learned_all(
    s: ServerModel,
    nodes: Seq<(Id20, SocketAddr)>,
    now: u64,
) -> ServerModel
    decreases nodes.len(),
{
    if nodes.len() == 0 {
        s
    } else {
        learned(
            learned_all(s, nodes.drop_last(), now),
            nodes.last().0,
            nodes.last().1,
            RoutingLiveness::Questionable,
            now,
        )
    }
}

/// The server after a step of a search: the third part says whether the node has answered.
pub open spec fn learned_routes(
    s: ServerModel,
    routes: Seq<(Id20, SocketAddr, bool)>,
    now: u64,
) -> ServerModel
    decreases routes.len(),
{
    if routes.len() == 0 {
        s
    } else {
        learned(
            learned_routes(s, routes.drop_last(), now),
            routes.last().0,
            routes.last().1,
            if routes.last().2 {
                RoutingLiveness::Good
            } else {
                RoutingLiveness::Questionable
            },
            now,
        )
    }
}

/// A node of the table.
#[derive(Debug)]
pub struct Dht {
    pub server: InboundDhtState,
    pub pending: PendingMap,
    pub bootstrap_hosts: Vec<DhtTarget>,
}

/// The endpoints of contacts.
pub open spec fn endpoints(nodes: Seq<(Id20, SocketAddr)>) -> Seq<SocketAddr> {
    Seq::new(nodes.len(), |i: int| nodes[i].1)
}

impl Dht {
    /// True of every node.
    pub open spec fn wf(self) -> bool {
        &&& self.server.wf()
        &&& self.pending.wf()
    }

    /// A node that knows the contacts of an earlier run.
    pub fn new(our_id: Id20, secret: [u8; 16], routes: &Vec<(Id20, SocketAddr)>, now: u64) -> (r:
        Self)
        ensures
            r.wf(),
            r.bootstrap_hosts@.len() == 0,
            r.pending@ == Map::<Seq<u8>, PendingModel>::empty(),
            exists|s: ServerModel| #[trigger]
                is_fresh(s, our_id, secret, now) && r.server@ == learned_all(
                    s,
                    routes@,
                    now,
                ),
    {
        let server = InboundDhtState::new(our_id, secret, now);
        assert(is_fresh(server@, our_id, secret, now));
        let mut r = Dht { server, pending: PendingMap::new(), bootstrap_hosts: Vec::new() };
        r.add_bootstrap_nodes(routes, now);
        r
    }

    /// How many contacts the node holds.
    pub fn routing_table_len(&self) -> (r: usize)
        requires
            self.wf(),
        ensures
            r == contacts(self.server@.routing).len()
                + contacts(self.server@.routing6).len(),
    {
        self.server.table_len()
    }

    /// A node has answered.
    pub fn add_routing(&mut self, id: Id20, addr: SocketAddr, now: u64)
        requires
            old(self).wf(),
        ensures
            final(self).wf(),
            *final(self) == (Dht { server: final(self).server, ..*old(self) }),
            final(self).server@ == learned(
                old(self).server@,
                id,
                addr,
                RoutingLiveness::Good,
                now,
            ),
    {
        self.server.learn(id, addr, RoutingLiveness::Good, now);
    }

    /// A node was told of.
    pub fn add_routing_questionable(&mut self, id: Id20, addr: SocketAddr, now: u64)
        requires
            old(self).wf(),
        ensures
            final(self).wf(),
            *final(self) == (Dht { server: final(self).server, ..*old(self) }),
            final(self).server@ == learned(
                old(self).server@,
                id,
                addr,
                RoutingLiveness::Questionable,
                now,
            ),
    {
        self.server.learn(id, addr, RoutingLiveness::Questionable, now);
    }

    /// The endpoints of the contacts closest to the target.
    pub fn closest_routing(&self, target: &Id20, n: usize) -> (r: Vec<SocketAddr>)
        ensures
            r@ == endpoints(closest_of(self.server@, *target, n as nat)),
    {
        let nodes = self.server.closest_nodes(target, n);
        let mut out: Vec<SocketAddr> = Vec::new();
        let mut i: usize = 0;
        while i < nodes.len()
            invariant
                i <= nodes.len(),
                out@ == endpoints(nodes@).take(i as int),
            decreases nodes.len() - i,
        {
            out.push(nodes[i].1);
            assert(out@ =~= endpoints(nodes@).take(i + 1));
            i += 1;
        }
        assert(out@ =~= endpoints(nodes@));
        out
    }

    /// The contacts that are worth keeping.
    pub fn routing_snapshot(&self) -> (r: Vec<(Id20, SocketAddr)>)
        ensures
            r@ == addresses(
                live(contacts(self.server@.routing)),
            ) + addresses(
                live(contacts(self.server@.routing6)),
            ),
    {
        self.server.snapshot()
    }

    /// Ask stale contacts again, at most `limit` at a time.
    pub fn refresh_routing(&mut self, now: u64, limit: usize) -> (r: Vec<(Id20, SocketAddr)>)
        requires
            old(self).wf(),
        ensures
            final(self).wf(),
            *final(self) == (Dht { server: final(self).server, ..*old(self) }),
            (final(self).server@, r@) == refreshed(
                old(self).server@,
                now,
                limit as nat,
            ),
    {
        self.server.refresh(now, limit)
    }

    /// How many announced peers are stored.
    pub fn peer_store_len(&self) -> (r: usize)
        ensures
            r == self.server@.peers.len(),
    {
        self.server.peer_count()
    }

    /// Mark a torrent as private, which forgets its peers, or as public again.
    pub fn set_private(&mut self, info_hash: Id20, private: bool)
        requires
            old(self).wf(),
        ensures
            final(self).wf(),
            *final(self) == (Dht { server: final(self).server, ..*old(self) }),
            final(self).server@ == (if private {
                ServerModel {
                    private_hashes: old(self).server@.private_hashes.insert(info_hash),
                    peers: without_hash(old(self).server@.peers, info_hash),
                    ..old(self).server@
                }
            } else {
                ServerModel {
                    private_hashes: old(self).server@.private_hashes.remove(info_hash),
                    ..old(self).server@
                }
            }),
    {
        self.server.set_private(info_hash, private);
    }

    /// Learn of nodes that others told of.
    pub fn add_bootstrap_nodes(&mut self, nodes: &Vec<(Id20, SocketAddr)>, now: u64)
        requires
            old(self).wf(),
        ensures
            final(self).wf(),
            *final(self) == (Dht { server: final(self).server, ..*old(self) }),
            final(self).server@ == learned_all(old(self).server@, nodes@, now),
    {
        let mut i: usize = 0;
        assert(nodes@.take(0) =~= seq![]);
        while i < nodes.len()
            invariant
                i <= nodes.len(),
                self.wf(),
                *self == (Dht { server: self.server, ..*old(self) }),
                self.server@ == learned_all(old(self).server@, nodes@.take(i as int), now),
            decreases nodes.len() - i,
        {
            assert(nodes@.take(i + 1).drop_last() =~= nodes@.take(i as int));
            self.add_routing_questionable(nodes[i].0, nodes[i].1, now);
            i += 1;
        }
        assert(nodes@.take(i as int) =~= nodes@);
    }

    /// Learn of the nodes of a step of a search.
    pub fn add_routes(&mut self, routes: &Vec<(Id20, SocketAddr, bool)>, now: u64)
        requires
            old(self).wf(),
        ensures
            final(self).wf(),
            *final(self) == (Dht { server: final(self).server, ..*old(self) }),
            final(self).server@ == learned_routes(old(self).server@, routes@, now),
    {
        let mut i: usize = 0;
        assert(routes@.take(0) =~= seq![]);
        while i < routes.len()
            invariant
                i <= routes.len(),
                self.wf(),
                *self == (Dht { server: self.server, ..*old(self) }),
                self.server@ == learned_routes(old(self).server@, routes@.take(i as int), now),
            decreases routes.len() - i,
        {
            assert(routes@.take(i + 1).drop_last() =~= routes@.take(i as int));
            let (id, addr, good) = routes[i];
            if good {
                self.add_routing(id, addr, now);
            } else {
                self.add_routing_questionable(id, addr, now);
            }
            i += 1;
        }
        assert(routes@.take(i as int) =~= routes@);
    }

    /// Remember hosts that introduce others, up to as many as a search starts with.
    pub fn add_bootstrap_hosts(&mut self, hosts: &Vec<(Id20, String, u16)>)
        requires
            old(self).wf(),
        ensures
            final(self).wf(),
            final(self).server == old(self).server,
            final(self).pending == old(self).pending,
            target_views(final(self).bootstrap_hosts@) == at_most(
                with_hosts(target_views(old(self).bootstrap_hosts@), hosts@),
                50,
            ),
    {
        let ghost known = target_views(self.bootstrap_hosts@);
        let mut i: usize = 0;
        assert(hosts@.take(0) =~= seq![]);
        while i < hosts.len()
            invariant
                i <= hosts.len(),
                self.wf(),
                self.server == old(self).server,
                self.pending == old(self).pending,
                known == target_views(old(self).bootstrap_hosts@),
                target_views(self.bootstrap_hosts@) == with_hosts(known, hosts@.take(i as int)),
            decreases hosts.len() - i,
        {
            assert(hosts@.take(i + 1).drop_last() =~= hosts@.take(i as int));
            assert(hosts@.take(i + 1).last() == hosts@[i as int]);
            let named = crate::text::to_chars(hosts[i].1.as_str()).len() > 0;
            if named && hosts[i].2 != 0 {
                let target = DhtTarget::Host(hosts[i].1.clone(), hosts[i].2);
                let ghost before = self.bootstrap_hosts@;
                if !has_target(&self.bootstrap_hosts, &target) {
                    self.bootstrap_hosts.push(target);
                    assert(target_views(self.bootstrap_hosts@) =~= target_views(before).push(
                        target@,
                    ));
                }
            }
            i += 1;
        }
        assert(hosts@.take(i as int) =~= hosts@);
        let ghost whole = self.bootstrap_hosts@;
        if self.bootstrap_hosts.len() > 50 {
            self.bootstrap_hosts.truncate(50);
        }
        assert(target_views(self.bootstrap_hosts@) =~= at_most(target_views(whole), 50));
    }

    /// Learn of a node whose identifier is not known.
    pub fn add_node(&mut self, addr: SocketAddr, now: u64)
        requires
            old(self).wf(),
        ensures
            final(self).wf(),
            *final(self) == (Dht { server: final(self).server, ..*old(self) }),
            final(self).server@ == learned(
                old(self).server@,
                id20_of(sha1_digest(compact(addr))),
                addr,
                RoutingLiveness::Questionable,
                now,
            ),
            id20_of(sha1_digest(compact(addr)))@ == sha1_digest(compact(addr)),
    {
        let id = pseudo_id(&addr);
        proof {
            id20_is_its_bytes(id);
        }
        self.add_routing_questionable(id, addr, now);
    }

    /// Start a search for the peers of a torrent: at the closest contacts, the hosts that
    /// introduce others, and those that torrents named. Private torrents are not searched for.
    pub fn begin_lookup(&self, info_hash: &Id20) -> (r: Option<(Lookup, Vec<DhtTarget>)>)
        ensures
            self.server@.private_hashes.contains(*info_hash) ==> r is None,
            !self.server@.private_hashes.contains(*info_hash) ==> (r matches Some(p) && p.0.wf()
                && target_views(p.1@) == seeds(
                endpoints(closest_of(self.server@, *info_hash, 16)),
                bootstrap_hosts() + target_views(self.bootstrap_hosts@),
            ) && p.0@ == (LookupModel {
                info_hash: *info_hash,
                shortlist: seq![],
                queried: target_views(p.1@),
                peers_seen: seq![],
                announce: seq![],
                idle: 0,
                outstanding: p.1@.len(),
            })),
    {
        if self.server.is_private(info_hash) {
            return None;
        }
        let known = self.closest_routing(info_hash, K * 2);
        let mut hosts = bootstrap_targets();
        let mut i: usize = 0;
        let ghost own = target_views(self.bootstrap_hosts@);
        assert(target_views(hosts@) =~= bootstrap_hosts() + own.take(0));
        while i < self.bootstrap_hosts.len()
            invariant
                i <= self.bootstrap_hosts.len(),
                own == target_views(self.bootstrap_hosts@),
                target_views(hosts@) == bootstrap_hosts() + own.take(i as int),
            decreases self.bootstrap_hosts.len() - i,
        {
            let ghost before = hosts@;
            let target = self.bootstrap_hosts[i].clone();
            hosts.push(target);
            proof {
                assert(target_views(hosts@) =~= target_views(before).push(target@));
                assert(target@ == own[i as int]);
                assert(target_views(hosts@) =~= bootstrap_hosts() + own.take(i + 1));
            }
            i += 1;
        }
        assert(target_views(hosts@) =~= bootstrap_hosts() + own);
        let (lookup, targets) = Lookup::begin(*info_hash, &known, &hosts);
        assert(targets@.len() == target_views(targets@).len());
        Some((lookup, targets))
    }

    /// A contact answered a ping: where it is the one that was asked, it is alive.
    pub fn on_pong(&mut self, target: SocketAddr, expected_id: Id20, body: &Value, now: u64) -> (r:
        bool)
        requires
            old(self).wf(),
        ensures
            final(self).wf(),
            r == (field(body@, w_r()) matches Some(results) && id_field(results, w_id()) == Some(
                expected_id,
            )),
            *final(self) == (Dht { server: final(self).server, ..*old(self) }),
            final(self).server@ == (if r {
                learned(old(self).server@, expected_id, target, RoutingLiveness::Good, now)
            } else {
                old(self).server@
            }),
    {
        let id = match body.get(words::r().as_slice()) {
            Some(results) => id_at(results, words::id().as_slice()),
            None => None,
        };
        match id {
            Some(id) => {
                if id == expected_id {
                    self.add_routing(id, target, now);
                    return true;
                }
            },
            None => {},
        }
        false
    }
}

proof fn lemma_pushed_item<T>(s: Seq<T>, last: T, x: T)
    ensures
        s.push(last).contains(x) <==> s.contains(x) || x == last,
{
    let t = s.push(last);
    assert(t[s.len() as int] == last);
    if s.contains(x) {
        let i = choose|i: int| 0 <= i < s.len() && s[i] == x;
        assert(t[i] == x);
    }
    if t.contains(x) {
        let i = choose|i: int| 0 <= i < t.len() && t[i] == x;
        if i < s.len() {
            assert(s[i] == x);
        }
    }
}

/// How a datagram goes out: never while the routes change; through the proxy where there is one;
/// and else by the socket of its address family, where there is one.
pub proof fn how_a_datagram_goes_out(s: Sockets, shutdown: bool, target: SocketAddr)
    ensures
        shutdown ==> send_route(s, shutdown, target) == Err::<SendVia, SendFault>(
            SendFault::Reconfigured,
        ),
        !shutdown && s.proxied ==> send_route(s, shutdown, target) == Ok::<SendVia, SendFault>(
            SendVia::Proxy,
        ),
        !shutdown && !s.proxied && target.ip is V4 ==> send_route(s, shutdown, target) == (
        if s.ipv4 {
            Ok::<SendVia, SendFault>(SendVia::Ipv4)
        } else {
            Err::<SendVia, SendFault>(SendFault::NoIpv4)
        }),
        !shutdown && !s.proxied && target.ip is V6 ==> send_route(s, shutdown, target) == (
        if s.ipv6 {
            Ok::<SendVia, SendFault>(SendVia::Ipv6)
        } else {
            Err::<SendVia, SendFault>(SendFault::NoIpv6)
        }),
{
}

proof fn lemma_public(addrs: Seq<SocketAddr>)
    ensures
        forall|a: SocketAddr| #[trigger]
            public_of(addrs).contains(a) <==> addrs.contains(a) && public_endpoint(a),
        public_of(addrs).len() <= addrs.len(),
        public_of(addrs).len() == addrs.len() <==> (forall|i: int|
            0 <= i < addrs.len() ==> public_endpoint(#[trigger] addrs[i])),
        public_of(addrs).len() == addrs.len() ==> public_of(addrs) == addrs,
    decreases addrs.len(),
{
    if addrs.len() > 0 {
        let front = addrs.drop_last();
        lemma_public(front);
        assert(addrs =~= front.push(addrs.last()));
        assert(addrs[addrs.len() - 1] == addrs.last());
        assert forall|a: SocketAddr| #[trigger] public_of(addrs).contains(a) <==> addrs.contains(a)
            && public_endpoint(a) by {
            lemma_pushed_item(front, addrs.last(), a);
            lemma_pushed_item(public_of(front), addrs.last(), a);
            assert(public_of(front).contains(a) <==> front.contains(a) && public_endpoint(a));
        }
        assert((forall|i: int| 0 <= i < addrs.len() ==> public_endpoint(#[trigger] addrs[i])) <==> (
        public_endpoint(addrs.last()) && forall|i: int|
            0 <= i < front.len() ==> public_endpoint(#[trigger] front[i]))) by {
            if forall|i: int| 0 <= i < addrs.len() ==> public_endpoint(#[trigger] addrs[i]) {
                assert forall|i: int| 0 <= i < front.len() implies public_endpoint(
                    #[trigger] front[i],
                ) by {
                    assert(front[i] == addrs[i]);
                }
            }
            if public_endpoint(addrs.last()) && forall|i: int|
                0 <= i < front.len() ==> public_endpoint(#[trigger] front[i]) {
                assert forall|i: int| 0 <= i < addrs.len() implies public_endpoint(
                    #[trigger] addrs[i],
                ) by {
                    if i < front.len() {
                        assert(front[i] == addrs[i]);
                    }
                }
            }
        }
    } else {
        assert(public_of(addrs) =~= addrs);
    }
}

/// A datagram to a host goes to exactly those of its addresses that are public, and through a proxy
/// only where all of them are; a host without a public address is refused.
pub proof fn where_a_host_is_reached(s: Sockets, shutdown: bool, resolved: Seq<SocketAddr>)
    ensures
        ({
            let out = host_targets(s, shutdown, resolved);
            let some = exists|a: SocketAddr| #[trigger] resolved.contains(a) && public_endpoint(a);
            let all = forall|i: int|
                0 <= i < resolved.len() ==> public_endpoint(#[trigger] resolved[i]);
            &&& out is Ok <==> !shutdown && some && (s.proxied ==> all)
            &&& out matches Ok(t) ==> forall|a: SocketAddr| #[trigger]
                t.contains(a) <==> resolved.contains(a) && public_endpoint(a)
            &&& shutdown ==> out == Err::<Seq<SocketAddr>, SendFault>(SendFault::Reconfigured)
            &&& !shutdown && !some ==> out == Err::<Seq<SocketAddr>, SendFault>(
                SendFault::NoPublicAddress,
            )
            &&& !shutdown && some && s.proxied && !all ==> out == Err::<
                Seq<SocketAddr>,
                SendFault,
            >(SendFault::NonPublicAddress)
        }),
{
    lemma_public(resolved);
    let targets = public_of(resolved);
    if targets.len() > 0 {
        assert(targets.contains(targets[0]));
    }
    if exists|a: SocketAddr| #[trigger] resolved.contains(a) && public_endpoint(a) {
        let a = choose|a: SocketAddr| #[trigger] resolved.contains(a) && public_endpoint(a);
        assert(targets.contains(a));
    }
}

/// A host is tried at its addresses in their order, by the sockets that there are; with both
/// sockets at all of them.
pub proof fn which_addresses_are_tried(s: Sockets, targets: Seq<SocketAddr>)
    ensures
        s.ipv4 && s.ipv6 ==> attempts(s, targets) == targets,
        forall|a: SocketAddr| #[trigger]
            attempts(s, targets).contains(a) ==> targets.contains(a) && (a.ip is V4 ==> s.ipv4) && (
            a.ip is V6 ==> s.ipv6),
        s.ipv4 ==> forall|a: SocketAddr|
            targets.contains(a) && (a.ip is V4 || s.ipv6) ==> #[trigger] attempts(
                s,
                targets,
            ).contains(a),
    decreases targets.len(),
{
    if targets.len() > 0 {
        let rest = targets.drop_first();
        which_addresses_are_tried(s, rest);
        let out = attempts(s, targets);
        assert(targets =~= seq![targets[0]] + rest);
        assert forall|a: SocketAddr| #[trigger] out.contains(a) implies targets.contains(a) && (
        a.ip is V4 ==> s.ipv4) && (a.ip is V6 ==> s.ipv6) by {
            let i = choose|i: int| 0 <= i < out.len() && out[i] == a;
            if out.len() > 0 && out[0] == targets[0] && i == 0 && !(attempts(s, rest).contains(a)) {
                assert(targets.contains(targets[0]));
            } else {
                if attempts(s, rest).contains(a) {
                } else {
                    assert(out == seq![targets[0]] + attempts(s, rest));
                    if i > 0 {
                        assert(attempts(s, rest)[i - 1] == a);
                    }
                    assert(targets.contains(targets[0]));
                }
                if attempts(s, rest).contains(a) {
                    assert(rest.contains(a));
                    let j = choose|j: int| 0 <= j < rest.len() && rest[j] == a;
                    assert(targets[j + 1] == a);
                }
            }
        }
        if s.ipv4 {
            assert forall|a: SocketAddr|
                targets.contains(a) && (a.ip is V4 || s.ipv6) implies #[trigger] out.contains(a) by {
                let j = choose|j: int| 0 <= j < targets.len() && targets[j] == a;
                if j == 0 {
                    assert(out[0] == a);
                } else {
                    assert(rest[j - 1] == a);
                    assert(rest.contains(a));
                    assert(attempts(s, rest).contains(a));
                    let i = choose|i: int|
                        0 <= i < attempts(s, rest).len() && attempts(s, rest)[i] == a;
                    if out == seq![targets[0]] + attempts(s, rest) {
                        assert(out[i + 1] == a);
                    }
                }
            }
        }
    } else {
        assert(attempts(s, targets) =~= targets);
    }
}

/// The addresses that can be asked are exactly the public ones that there is a way to.
pub proof fn which_addresses_can_be_asked(s: Sockets, addrs: Seq<SocketAddr>)
    ensures
        forall|a: SocketAddr| #[trigger]
            askable(s, addrs).contains(a) <==> addrs.contains(a) && public_endpoint(a) && (s.proxied
                || (a.ip is V4 && s.ipv4) || (a.ip is V6 && s.ipv6)),
    decreases addrs.len(),
{
    if addrs.len() > 0 {
        let front = addrs.drop_last();
        which_addresses_can_be_asked(s, front);
        assert(addrs =~= front.push(addrs.last()));
        assert forall|a: SocketAddr| #[trigger] askable(s, addrs).contains(a) <==> addrs.contains(a)
            && public_endpoint(a) && (s.proxied || (a.ip is V4 && s.ipv4) || (a.ip is V6
            && s.ipv6)) by {
            lemma_pushed_item(front, addrs.last(), a);
            lemma_pushed_item(askable(s, front), addrs.last(), a);
            assert(askable(s, front).contains(a) <==> front.contains(a) && public_endpoint(a) && (
            s.proxied || (a.ip is V4 && s.ipv4) || (a.ip is V6 && s.ipv6)));
        }
    }
}

/// Every host with a name and a port becomes known, and those that were stay known, in front.
pub proof fn which_hosts_are_known(known: Seq<TargetModel>, hosts: Seq<(Id20, String, u16)>)
    ensures
        known.is_prefix_of(with_hosts(known, hosts)),
        forall|i: int|
            0 <= i < hosts.len() && (#[trigger] hosts[i]).1@.len() > 0 && hosts[i].2 != 0
                ==> with_hosts(known, hosts).contains(
                TargetModel::Host(hosts[i].1@, hosts[i].2),
            ),
        known.no_duplicates() ==> with_hosts(known, hosts).no_duplicates(),
    decreases hosts.len(),
{
    if hosts.len() > 0 {
        let front = hosts.drop_last();
        which_hosts_are_known(known, front);
        let before = with_hosts(known, front);
        let out = with_hosts(known, hosts);
        let target = TargetModel::Host(hosts.last().1@, hosts.last().2);
        assert forall|i: int|
            0 <= i < hosts.len() && (#[trigger] hosts[i]).1@.len() > 0 && hosts[i].2
                != 0 implies out.contains(TargetModel::Host(hosts[i].1@, hosts[i].2)) by {
            let t = TargetModel::Host(hosts[i].1@, hosts[i].2);
            lemma_pushed_item(before, target, t);
            if i < front.len() {
                assert(front[i] == hosts[i]);
                assert(before.contains(t));
            }
        }
    }
}

/// A node that knows nobody is introduced by these hosts.
pub proof fn who_introduces_a_node()
    ensures
        bootstrap_hosts().len() == 5,
        bootstrap_hosts().contains(TargetModel::Host("router.bittorrent.com"@, 6881)),
        bootstrap_hosts().contains(TargetModel::Host("router.utorrent.com"@, 6881)),
        bootstrap_hosts().contains(TargetModel::Host("dht.transmissionbt.com"@, 6881)),
        bootstrap_hosts().contains(TargetModel::Host("dht.libtorrent.org"@, 25401)),
        bootstrap_hosts().contains(TargetModel::Host("router.bitcomet.com"@, 6881)),
{
    let b = bootstrap_hosts();
    assert(b[0] == TargetModel::Host("router.bittorrent.com"@, 6881));
    assert(b[1] == TargetModel::Host("router.utorrent.com"@, 6881));
    assert(b[2] == TargetModel::Host("dht.transmissionbt.com"@, 6881));
    assert(b[3] == TargetModel::Host("dht.libtorrent.org"@, 25401));
    assert(b[4] == TargetModel::Host("router.bitcomet.com"@, 6881));
}

/// Every node that others told of is learned, one after the other, and none is trusted until it
/// has answered itself.
pub proof fn every_node_is_learned(
    s: ServerModel,
    first: Seq<(Id20, SocketAddr)>,
    more: Seq<(Id20, SocketAddr)>,
    node: (Id20, SocketAddr),
    now: u64,
)
    ensures
        learned_all(s, seq![node], now) == learned(
            s,
            node.0,
            node.1,
            RoutingLiveness::Questionable,
            now,
        ),
        learned_all(s, first + more, now) == learned_all(learned_all(s, first, now), more, now),
    decreases more.len(),
{
    reveal_with_fuel(learned_all, 2);
    assert(seq![node].drop_last() =~= Seq::<(Id20, SocketAddr)>::empty());
    if more.len() == 0 {
        assert(first + more =~= first);
    } else {
        every_node_is_learned(s, first, more.drop_last(), node, now);
        assert((first + more).drop_last() =~= first + more.drop_last());
        assert((first + more).last() == more.last());
    }
}

/// Every node of a step of a search is learned, one after the other: the one that answered is good,
/// and one that was only told of is questionable.
pub proof fn every_route_is_learned(
    s: ServerModel,
    first: Seq<(Id20, SocketAddr, bool)>,
    more: Seq<(Id20, SocketAddr, bool)>,
    id: Id20,
    addr: SocketAddr,
    now: u64,
)
    ensures
        learned_routes(s, seq![(id, addr, true)], now) == learned(
            s,
            id,
            addr,
            RoutingLiveness::Good,
            now,
        ),
        learned_routes(s, seq![(id, addr, false)], now) == learned(
            s,
            id,
            addr,
            RoutingLiveness::Questionable,
            now,
        ),
        learned_routes(s, first + more, now) == learned_routes(
            learned_routes(s, first, now),
            more,
            now,
        ),
    decreases more.len(),
{
    reveal_with_fuel(learned_routes, 2);
    assert(seq![(id, addr, true)].drop_last() =~= Seq::<(Id20, SocketAddr, bool)>::empty());
    assert(seq![(id, addr, false)].drop_last() =~= Seq::<(Id20, SocketAddr, bool)>::empty());
    if more.len() == 0 {
        assert(first + more =~= first);
    } else {
        every_route_is_learned(s, first, more.drop_last(), id, addr, now);
        assert((first + more).drop_last() =~= first + more.drop_last());
        assert((first + more).last() == more.last());
    }
}

} // verus!
