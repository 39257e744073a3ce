//! The nodes that a torrent names to enter the distributed hash table through.

use vstd::prelude::*;

use crate::be::{be16, write_u16};
use crate::bencode::{
    field, lemma_model_list, model, model_list, text_in, Bencode, Value,
};
use crate::dht::krpc::node_width;
use crate::meta::hash::{array_from, id20_is_its_bytes, id20_of, sha1, sha1_digest, Id20};
use crate::net::literal::{ipv4_bytes, ipv6_bytes, parse_ip, writes_ip};
use crate::net::{address_of, read_compact, IpAddr, SocketAddr};
use crate::text::{same_text, to_chars, trim, trimmed};
use crate::words;
use crate::words::{w_nodes, w_nodes6};

verus! {

/// How many nodes of a torrent are taken.
pub const MAX_BOOTSTRAP_NODES: usize = 4096;

/// The nodes that a torrent names: by address, and by host.
#[verifier::ext_equal]
pub struct BootModel {
    pub nodes: Seq<(Id20, SocketAddr)>,
    pub hosts: Seq<(Id20, Seq<char>, u16)>,
}

/// True when the address is among the nodes.
pub open spec fn lists_address(nodes: Seq<(Id20, SocketAddr)>, addr: SocketAddr) -> bool {
    exists|i: int| 0 <= i < nodes.len() && (#[trigger] nodes[i]).1 == addr
}

/// True when the host is among the hosts.
pub open spec fn lists_host(hosts: Seq<(Id20, Seq<char>, u16)>, host: Seq<char>, port: u16) -> bool {
    exists|i: int| 0 <= i < hosts.len() && (#[trigger] hosts[i]).1 == host && hosts[i].2 == port
}

/// The nodes with those of the first `k` compact forms in `s`.
pub open spec fn with_compact(b: BootModel, s: Seq<u8>, v6: bool, k: nat) -> BootModel
    decreases k,
{
    if k == 0 {
        b
    } else {
        let before = with_compact(b, s, v6, (k - 1) as nat);
        let at = (k - 1) * node_width(v6);
        let id = id20_of(s.subrange(at, at + 20));
        let addr = address_of(s.skip(at + 20), v6);
        if before.nodes.len() + before.hosts.len() >= MAX_BOOTSTRAP_NODES
            || addr.ip.spec_unspecified() || addr.port == 0 || lists_address(before.nodes, addr) {
            before
        } else {
            BootModel { nodes: before.nodes.push((id, addr)), hosts: before.hosts }
        }
    }
}

/// The host and port of an entry of a list of nodes: a name or an address in text, and a port.
/// Under the key for the newer address family, addresses of the older one do not count.
pub open spec fn host_of(entry: Bencode, v6: bool) -> Option<(Seq<char>, u16)> {
    match entry {
        Bencode::List(pair) => if pair.len() < 2 {
            None
        } else {
            match (text_in(pair[0]), pair[1]) {
                (Some(text), Bencode::Int(port)) => {
                    let host = trimmed(text);
                    if !(1 <= port <= 65535) || host.len() == 0 || host.contains('\0') {
                        None
                    } else if ipv4_bytes(host) matches Some(b) && (v6 || all_zero(b)) {
                        None
                    } else if ipv4_bytes(host) is None && (ipv6_bytes(host) matches Some(b)
                        && all_zero(b)) {
                        None
                    } else {
                        Some((host, port as u16))
                    }
                },
                _ => None,
            }
        },
        _ => None,
    }
}

/// True when every byte is zero.
pub open spec fn all_zero(b: Seq<u8>) -> bool {
    forall|i: int| 0 <= i < b.len() ==> #[trigger] b[i] == 0
}

/// The identifier that stands in for a host that has not told its own.
pub open spec fn host_id(host: Seq<char>, port: u16) -> Id20 {
    id20_of(sha1_digest(vstd::utf8::encode_utf8(host) + be16(port)))
}

/// True when every host has the identifier that stands in for it: the digest of its name and port.
pub open spec fn hosts_match(b: BootModel) -> bool {
    forall|i: int|
        0 <= i < b.hosts.len() ==> (#[trigger] b.hosts[i]).0@ == sha1_digest(
            vstd::utf8::encode_utf8(b.hosts[i].1) + be16(b.hosts[i].2),
        )
}

/// The nodes with the hosts of a list.
pub open spec fn with_listed(b: BootModel, entries: Seq<Bencode>, v6: bool) -> BootModel
    decreases entries.len(),
{
    if entries.len() == 0 {
        b
    } else {
        let before = with_listed(b, entries.drop_last(), v6);
        match host_of(entries.last(), v6) {
            None => before,
            Some((host, port)) => if before.nodes.len() + before.hosts.len()
                >= MAX_BOOTSTRAP_NODES || lists_host(before.hosts, host, port) {
                before
            } else {
                BootModel {
                    nodes: before.nodes,
                    hosts: before.hosts.push((host_id(host, port), host, port)),
                }
            },
        }
    }
}

/// The nodes with those under a key, in either form.
pub open spec fn with_field(b: BootModel, v: Bencode, key: Seq<u8>, v6: bool) -> BootModel {
    match field(v, key) {
        Some(Bencode::Bytes(s)) => with_compact(b, s, v6, (s.len() as int / node_width(v6)) as nat),
        Some(Bencode::List(entries)) => with_listed(b, entries, v6),
        _ => b,
    }
}

/// The nodes that a torrent names.
pub open spec fn bootstrap_of(v: Bencode) -> BootModel {
    let none = BootModel { nodes: seq![], hosts: seq![] };
    with_field(with_field(none, v, w_nodes(), false), v, w_nodes6(), true)
}

/// The mathematical values of hosts.
pub open spec fn host_views(v: Seq<(Id20, String, u16)>) -> Seq<(Id20, Seq<char>, u16)> {
    Seq::new(v.len(), |i: int| (v[i].0, v[i].1@, v[i].2))
}

/// The nodes that a torrent names.
#[derive(Debug)]
pub struct Bootstrap {
    pub nodes: Vec<(Id20, SocketAddr)>,
    pub hosts: Vec<(Id20, String, u16)>,
}

impl View for Bootstrap {
    type V = BootModel;

    open spec fn view(&self) -> BootModel {
        BootModel { nodes: self.nodes@, hosts: host_views(self.hosts@) }
    }
}

proof fn lemma_host_ip(host: Seq<char>, ip: Option<IpAddr>, v6: bool)
    requires
        writes_ip(host, ip),
    ensures
        (ip matches Some(a) && (a.spec_unspecified() || (v6 && a is V4))) == ((ipv4_bytes(
            host,
        ) matches Some(b) && (v6 || all_zero(b))) || (ipv4_bytes(host) is None && (ipv6_bytes(
            host,
        ) matches Some(b) && all_zero(b)))),
{
    match ip {
        Some(IpAddr::V4(a)) => {
            assert(a.spec_unspecified() == all_zero(a.0@));
        },
        Some(IpAddr::V6(a)) => {
            assert(a.spec_unspecified() == all_zero(a.0@));
        },
        None => {},
    }
}

fn read_host(entry: &Value, v6: bool) -> (r: Option<(String, u16)>)
    ensures
        match host_of(entry@, v6) {
            Some((h, p)) => r matches Some(x) && x.0@ == h && x.1 == p,
            None => r is None,
        },
{
    let pair = match entry.as_list() {
        Some(pair) => pair,
        None => {
            return None;
        },
    };
    proof {
        lemma_model_list(pair@);
    }
    if pair.len() < 2 {
        return None;
    }
    let text = match pair[0].as_str() {
        Some(text) => text,
        None => {
            return None;
        },
    };
    let port: i64 = match pair[1].as_int() {
        Some(port) => port,
        None => {
            return None;
        },
    };
    if port < 1 || port > 65535 {
        return None;
    }
    let host = trim(text.as_str());
    let chars = to_chars(host.as_str());
    if chars.len() == 0 {
        return None;
    }
    let mut i: usize = 0;
    while i < chars.len()
        invariant
            i <= chars.len(),
            chars@ == host@,
            forall|j: int| 0 <= j < i ==> chars@[j] != '\0',
            entry@ is List,
            entry@->List_0.len() >= 2,
            text_in(entry@->List_0[0]) == Some(text@),
            host@ == trimmed(text@),
            entry@->List_0[1] == Bencode::Int(port as int),
        decreases chars.len() - i,
    {
        if chars[i] == '\0' {
            assert(host@.contains(chars@[i as int]));
            return None;
        }
        i += 1;
    }
    assert(!host@.contains('\0'));
    let ip = parse_ip(host.as_str());
    proof {
        lemma_host_ip(host@, ip, v6);
    }
    match ip {
        Some(a) => {
            if a.is_unspecified() {
                return None;
            }
            match a {
                IpAddr::V4(_) => {
                    if v6 {
                        return None;
                    }
                },
                IpAddr::V6(_) => {},
            }
        },
        None => {},
    }
    Some((host, port as u16))
}

impl Bootstrap {
    fn has_address(&self, addr: &SocketAddr) -> (r: bool)
        ensures
            r == lists_address(self@.nodes, *addr),
    {
        let mut i: usize = 0;
        while i < self.nodes.len()
            invariant
                i <= self.nodes.len(),
                forall|j: int| 0 <= j < i ==> (#[trigger] self.nodes@[j]).1 != *addr,
            decreases self.nodes.len() - i,
        {
            if self.nodes[i].1 == *addr {
                assert(self@.nodes[i as int].1 == *addr);
                return true;
            }
            i += 1;
        }
        false
    }

    fn has_host(&self, host: &String, port: u16) -> (r: bool)
        ensures
            r == lists_host(self@.hosts, host@, port),
    {
        let mut i: usize = 0;
        while i < self.hosts.len()
            invariant
                i <= self.hosts.len(),
                forall|j: int|
                    0 <= j < i ==> !((#[trigger] self@.hosts[j]).1 == host@ && self@.hosts[j].2
                        == port),
            decreases self.hosts.len() - i,
        {
            if same_text(self.hosts[i].1.as_str(), host.as_str()) && self.hosts[i].2 == port {
                assert(self@.hosts[i as int].1 == host@);
                return true;
            }
            i += 1;
        }
        false
    }

    fn is_full(&self) -> (r: bool)
        ensures
            r == (self@.nodes.len() + self@.hosts.len() >= MAX_BOOTSTRAP_NODES),
    {
        assert(self@.hosts.len() == self.hosts.len());
        self.nodes.len() >= MAX_BOOTSTRAP_NODES || self.hosts.len() >= MAX_BOOTSTRAP_NODES
            - self.nodes.len()
    }

    fn add_compact(&mut self, s: &[u8], v6: bool)
        ensures
            final(self)@ == with_compact(
                old(self)@,
                s@,
                v6,
                (s@.len() as int / node_width(v6)) as nat,
            ),
            final(self)@.hosts == old(self)@.hosts,
    {
        let width: usize = if v6 {
            38
        } else {
            26
        };
        let mut at: usize = 0;
        let ghost mut k: nat = 0;
        while s.len() - at >= width
            invariant
                width == node_width(v6),
                at <= s.len(),
                at == k * node_width(v6),
                self@ == with_compact(old(self)@, s@, v6, k),
                self@.hosts == old(self)@.hosts,
            decreases s.len() - at,
        {
            let id = Id20(array_from::<20>(&s[at..at + 20]));
            let addr = read_compact(s, at + 20, v6);
            proof {
                assert(s@.subrange(at as int, at + 20).take(20) =~= s@.subrange(
                    at as int,
                    at + 20,
                ));
                id20_is_its_bytes(id);
                k = k + 1;
                assert((k - 1) * node_width(v6) == at);
                assert(k * node_width(v6) == at + width) by (nonlinear_arith)
                    requires
                        (k - 1) * node_width(v6) == at,
                        node_width(v6) == width,
                ;
            }
            if !self.is_full() && !addr.ip.is_unspecified() && addr.port != 0 && !self.has_address(
                &addr,
            ) {
                self.nodes.push((id, addr));
            }
            at += width;
        }
        proof {
            assert(s.len() as int / node_width(v6) == k) by (nonlinear_arith)
                requires
                    k * node_width(v6) <= s.len() < k * node_width(v6) + node_width(v6),
                    node_width(v6) > 0,
            ;
        }
    }

    fn add_listed(&mut self, entries: &Vec<Value>, v6: bool)
        ensures
            final(self)@ == with_listed(old(self)@, model_list(entries@), v6),
            hosts_match(old(self)@) ==> hosts_match(final(self)@),
    {
        let ghost all = model_list(entries@);
        proof {
            lemma_model_list(entries@);
            assert(all.take(0) =~= seq![]);
        }
        let mut i: usize = 0;
        while i < entries.len()
            invariant
                i <= entries.len(),
                all == model_list(entries@),
                all.len() == entries.len(),
                forall|j: int| 0 <= j < entries.len() ==> #[trigger] all[j] == model(entries@[j]),
                self@ == with_listed(old(self)@, all.take(i as int), v6),
                hosts_match(old(self)@) ==> hosts_match(self@),
            decreases entries.len() - i,
        {
            proof {
                assert(all.take(i + 1).drop_last() =~= all.take(i as int));
                assert(all.take(i + 1).last() == entries@[i as int]@);
            }
            match read_host(&entries[i], v6) {
                Some((host, port)) => {
                    if !self.is_full() && !self.has_host(&host, port) {
                        let mut data: Vec<u8> = Vec::new();
                        data.extend_from_slice(host.as_str().as_bytes());
                        write_u16(&mut data, port);
                        assert(data@ =~= vstd::utf8::encode_utf8(host@) + be16(port));
                        let id = sha1(data.as_slice());
                        proof {
                            id20_is_its_bytes(id);
                        }
                        let ghost before = self.hosts@;
                        self.hosts.push((id, host, port));
                        assert(host_views(self.hosts@) =~= host_views(before).push(
                            (id, host@, port),
                        ));
                    }
                },
                None => {},
            }
            i += 1;
        }
        assert(all.take(i as int) =~= all);
    }

    fn add_field(&mut self, v: &Value, key: &[u8], v6: bool)
        ensures
            final(self)@ == with_field(old(self)@, v@, key@, v6),
            hosts_match(old(self)@) ==> hosts_match(final(self)@),
    {
        match v.get(key) {
            Some(Value::Bytes(s)) => {
                self.add_compact(s.as_slice(), v6);
            },
            Some(Value::List(entries)) => {
                self.add_listed(entries, v6);
            },
            _ => {},
        }
    }
}

/// The nodes that a torrent names.
pub fn parse_bootstrap_nodes(v: &Value) -> (r: Bootstrap)
    ensures
        r@ == bootstrap_of(v@),
        hosts_match(r@),
{
    let mut r = Bootstrap { nodes: Vec::new(), hosts: Vec::new() };
    assert(r@ =~= (BootModel { nodes: seq![], hosts: seq![] }));
    r.add_field(v, words::nodes().as_slice(), false);
    r.add_field(v, words::nodes6().as_slice(), true);
    r
}

/// The node whose compact form begins at `at`.
pub open spec fn node_at(s: Seq<u8>, v6: bool, at: int) -> (Id20, SocketAddr) {
    (id20_of(s.subrange(at, at + 20)), address_of(s.skip(at + 20), v6))
}

/// True of the nodes that can be reached.
pub open spec fn within_reach(node: (Id20, SocketAddr)) -> bool {
    node.1.port != 0 && !node.1.ip.spec_unspecified()
}

/// True when a host and its port are among the hosts.
pub open spec fn lists_entry(hosts: Seq<(Id20, Seq<char>, u16)>, e: (Seq<char>, u16)) -> bool {
    exists|i: int| 0 <= i < hosts.len() && (#[trigger] hosts[i]).1 == e.0 && hosts[i].2 == e.1
}

/// True when `after` has everything that `before` has, in front.
pub open spec fn grows(before: BootModel, after: BootModel) -> bool {
    &&& before.nodes.is_prefix_of(after.nodes)
    &&& before.hosts.is_prefix_of(after.hosts)
}

proof fn lemma_compact_told(b: BootModel, s: Seq<u8>, v6: bool, k: nat)
    requires
        b.nodes.len() + b.hosts.len() <= MAX_BOOTSTRAP_NODES,
    ensures
        ({
            let out = with_compact(b, s, v6, k);
            &&& grows(b, out)
            &&& out.hosts == b.hosts
            &&& out.nodes.len() + out.hosts.len() <= MAX_BOOTSTRAP_NODES
            &&& forall|x: int|
                b.nodes.len() <= x < out.nodes.len() ==> within_reach(#[trigger] out.nodes[x])
                    && exists|i: int|
                    0 <= i < k && out.nodes[x] == node_at(s, v6, #[trigger] (i * node_width(v6)))
            &&& forall|x: int, y: int|
                0 <= x < y < out.nodes.len() && b.nodes.len() <= y ==> (#[trigger] out.nodes[x]).1
                    != (#[trigger] out.nodes[y]).1
            &&& out.nodes.len() + out.hosts.len() < MAX_BOOTSTRAP_NODES ==> forall|i: int|
                0 <= i < k && within_reach(node_at(s, v6, #[trigger] (i * node_width(v6))))
                    ==> lists_address(out.nodes, node_at(s, v6, i * node_width(v6)).1)
        }),
    decreases k,
{
    if k > 0 {
        let before = with_compact(b, s, v6, (k - 1) as nat);
        let out = with_compact(b, s, v6, k);
        lemma_compact_told(b, s, v6, (k - 1) as nat);
        let at = (k - 1) * node_width(v6);
        let node = node_at(s, v6, at);
        assert forall|x: int| b.nodes.len() <= x < out.nodes.len() implies within_reach(
            #[trigger] out.nodes[x],
        ) && exists|i: int|
            0 <= i < k && out.nodes[x] == node_at(s, v6, #[trigger] (i * node_width(v6))) by {
            if x < before.nodes.len() {
                assert(out.nodes[x] == before.nodes[x]);
                let i = choose|i: int|
                    0 <= i < k - 1 && before.nodes[x] == node_at(
                        s,
                        v6,
                        #[trigger] (i * node_width(v6)),
                    );
                assert(0 <= i < k && out.nodes[x] == node_at(s, v6, i * node_width(v6)));
            } else {
                assert(out.nodes[x] == node);
                assert(0 <= k - 1 < k && out.nodes[x] == node_at(
                    s,
                    v6,
                    (k - 1) * node_width(v6),
                ));
            }
        }
        assert forall|x: int, y: int|
            0 <= x < y < out.nodes.len() && b.nodes.len() <= y implies (#[trigger] out.nodes[x]).1
            != (#[trigger] out.nodes[y]).1 by {
            assert(out.nodes[x] == before.nodes[x]);
            if y < before.nodes.len() {
                assert(out.nodes[y] == before.nodes[y]);
            } else {
                assert(!lists_address(before.nodes, node.1));
            }
        }
        if out.nodes.len() + out.hosts.len() < MAX_BOOTSTRAP_NODES {
            assert forall|i: int|
                0 <= i < k && within_reach(
                    node_at(s, v6, #[trigger] (i * node_width(v6))),
                ) implies lists_address(out.nodes, node_at(s, v6, i * node_width(v6)).1) by {
                let a = node_at(s, v6, i * node_width(v6)).1;
                if i < k - 1 {
                    assert(lists_address(before.nodes, a));
                }
                if lists_address(before.nodes, a) {
                    let x = choose|x: int|
                        0 <= x < before.nodes.len() && (#[trigger] before.nodes[x]).1 == a;
                    assert(out.nodes[x] == before.nodes[x]);
                } else {
                    assert(out.nodes[before.nodes.len() as int].1 == a);
                }
            }
        }
    }
}

proof fn lemma_hosts_told(b: BootModel, entries: Seq<Bencode>, v6: bool)
    requires
        b.nodes.len() + b.hosts.len() <= MAX_BOOTSTRAP_NODES,
    ensures
        ({
            let out = with_listed(b, entries, v6);
            &&& grows(b, out)
            &&& out.nodes == b.nodes
            &&& out.nodes.len() + out.hosts.len() <= MAX_BOOTSTRAP_NODES
            &&& forall|x: int|
                b.hosts.len() <= x < out.hosts.len() ==> (#[trigger] out.hosts[x]).0 == host_id(
                    out.hosts[x].1,
                    out.hosts[x].2,
                ) && exists|i: int|
                    0 <= i < entries.len() && host_of(#[trigger] entries[i], v6) == Some(
                        (out.hosts[x].1, out.hosts[x].2),
                    )
            &&& out.nodes.len() + out.hosts.len() < MAX_BOOTSTRAP_NODES ==> forall|i: int|
                0 <= i < entries.len() && host_of(#[trigger] entries[i], v6) is Some ==> lists_entry(out.hosts, host_of(entries[i], v6)->0)
        }),
    decreases entries.len(),
{
    if entries.len() > 0 {
        let front = entries.drop_last();
        let before = with_listed(b, front, v6);
        let out = with_listed(b, entries, v6);
        lemma_hosts_told(b, front, v6);
        let last = entries.len() - 1;
        assert(entries[last] == entries.last());
        assert forall|x: int| b.hosts.len() <= x < out.hosts.len() implies (
        #[trigger] out.hosts[x]).0 == host_id(out.hosts[x].1, out.hosts[x].2) && exists|i: int|
            0 <= i < entries.len() && host_of(#[trigger] entries[i], v6) == Some(
                (out.hosts[x].1, out.hosts[x].2),
            ) by {
            if x < before.hosts.len() {
                assert(out.hosts[x] == before.hosts[x]);
                let i = choose|i: int|
                    0 <= i < front.len() && host_of(#[trigger] front[i], v6) == Some(
                        (before.hosts[x].1, before.hosts[x].2),
                    );
                assert(entries[i] == front[i]);
            } else {
                assert(host_of(entries[last], v6) == Some((out.hosts[x].1, out.hosts[x].2)));
            }
        }
        if out.nodes.len() + out.hosts.len() < MAX_BOOTSTRAP_NODES {
            assert forall|i: int|
                0 <= i < entries.len() && host_of(
                    #[trigger] entries[i],
                    v6,
                ) is Some implies lists_entry(out.hosts, host_of(entries[i], v6)->0) by {
                let (host, port) = host_of(entries[i], v6)->0;
                if i < last {
                    assert(front[i] == entries[i]);
                    assert(lists_host(before.hosts, host, port));
                }
                if lists_host(before.hosts, host, port) {
                    let x = choose|x: int|
                        0 <= x < before.hosts.len() && (#[trigger] before.hosts[x]).1 == host
                            && before.hosts[x].2 == port;
                    assert(out.hosts[x] == before.hosts[x]);
                } else {
                    assert(out.hosts[before.hosts.len() as int].1 == host);
                }
            }
        }
    }
}

/// True when a node is one of the compact forms in a byte string.
pub open spec fn node_stands_in(told: Option<Bencode>, v6: bool, node: (Id20, SocketAddr)) -> bool {
    told matches Some(Bencode::Bytes(s)) && exists|i: int|
        0 <= i < s.len() as int / node_width(v6) && node == node_at(
            s,
            v6,
            #[trigger] (i * node_width(v6)),
        )
}

/// True when a host is named by an entry of a list.
pub open spec fn host_stands_in(
    told: Option<Bencode>,
    v6: bool,
    host: (Id20, Seq<char>, u16),
) -> bool {
    told matches Some(Bencode::List(entries)) && exists|i: int|
        0 <= i < entries.len() && host_of(#[trigger] entries[i], v6) == Some((host.1, host.2))
}

/// True when what stands under a key is told: the nodes of the compact forms in a byte string, or
/// the hosts of a list.
pub open spec fn tells_of(out: BootModel, told: Option<Bencode>, v6: bool) -> bool {
    &&& told matches Some(Bencode::Bytes(s)) ==> forall|i: int|
        0 <= i < s.len() as int / node_width(v6) && within_reach(
            node_at(s, v6, #[trigger] (i * node_width(v6))),
        ) ==> lists_address(out.nodes, node_at(s, v6, i * node_width(v6)).1)
    &&& told matches Some(Bencode::List(entries)) ==> forall|i: int|
        0 <= i < entries.len() && host_of(#[trigger] entries[i], v6) is Some ==> lists_entry(out.hosts, host_of(entries[i], v6)->0)
}

proof fn lemma_field_told(b: BootModel, v: Bencode, key: Seq<u8>, v6: bool)
    requires
        b.nodes.len() + b.hosts.len() <= MAX_BOOTSTRAP_NODES,
    ensures
        ({
            let out = with_field(b, v, key, v6);
            &&& grows(b, out)
            &&& out.nodes.len() + out.hosts.len() <= MAX_BOOTSTRAP_NODES
            &&& out.nodes.len() + out.hosts.len() < MAX_BOOTSTRAP_NODES ==> tells_of(
                out,
                field(v, key),
                v6,
            )
            &&& forall|x: int|
                b.nodes.len() <= x < out.nodes.len() ==> within_reach(#[trigger] out.nodes[x]) && node_stands_in(field(v, key), v6, out.nodes[x])
            &&& forall|x: int|
                b.hosts.len() <= x < out.hosts.len() ==> (#[trigger] out.hosts[x]).0 == host_id(
                    out.hosts[x].1,
                    out.hosts[x].2,
                ) && host_stands_in(field(v, key), v6, out.hosts[x])
        }),
{
    match field(v, key) {
        Some(Bencode::Bytes(s)) => {
            lemma_compact_told(b, s, v6, (s.len() as int / node_width(v6)) as nat);
        },
        Some(Bencode::List(entries)) => {
            lemma_hosts_told(b, entries, v6);
        },
        _ => {},
    }
}

/// A torrent names at most 4096 nodes, and where it names fewer none is left out: every node with
/// an address that can be reached, and every host, of those under "nodes" for the one address
/// family and under "nodes6" for the other. Every node that is named stands under one of the two.
pub proof fn every_bootstrap_node_is_read(v: Bencode)
    ensures
        ({
            let out = bootstrap_of(v);
            let four = field(v, seq![110u8, 111, 100, 101, 115]);
            let six = field(v, seq![110u8, 111, 100, 101, 115, 54]);
            &&& node_width(false) == 26 && node_width(true) == 38
            &&& out.nodes.len() + out.hosts.len() <= 4096
            &&& out.nodes.len() + out.hosts.len() < 4096 ==> tells_of(out, four, false) && tells_of(
                out,
                six,
                true,
            )
            &&& forall|x: int|
                0 <= x < out.nodes.len() ==> within_reach(#[trigger] out.nodes[x]) && (node_stands_in(four, false, out.nodes[x]) || node_stands_in(six, true, out.nodes[x]))
            &&& forall|x: int|
                0 <= x < out.hosts.len() ==> (#[trigger] out.hosts[x]).0 == host_id(
                    out.hosts[x].1,
                    out.hosts[x].2,
                ) && (host_stands_in(four, false, out.hosts[x]) || host_stands_in(six, true, out.hosts[x]))
        }),
{
    let none = BootModel { nodes: seq![], hosts: seq![] };
    let one = with_field(none, v, w_nodes(), false);
    let out = bootstrap_of(v);
    lemma_field_told(none, v, w_nodes(), false);
    lemma_field_told(one, v, w_nodes6(), true);
    assert(w_nodes() =~= seq![110u8, 111, 100, 101, 115]);
    assert(w_nodes6() =~= seq![110u8, 111, 100, 101, 115, 54]);
    assert forall|x: int| 0 <= x < one.nodes.len() implies #[trigger] out.nodes[x]
        == one.nodes[x] by {}
    assert forall|x: int| 0 <= x < one.hosts.len() implies #[trigger] out.hosts[x]
        == one.hosts[x] by {}
    assert forall|x: int| 0 <= x < out.nodes.len() implies within_reach(#[trigger] out.nodes[x]) && (node_stands_in(field(v, w_nodes()), false, out.nodes[x]) || node_stands_in(field(v, w_nodes6()), true, out.nodes[x])) by {
        if x < one.nodes.len() {
            assert(within_reach(one.nodes[x]));
        }
    }
    assert forall|x: int| 0 <= x < out.hosts.len() implies (#[trigger] out.hosts[x]).0 == host_id(
        out.hosts[x].1,
        out.hosts[x].2,
    ) && (host_stands_in(field(v, w_nodes()), false, out.hosts[x]) || host_stands_in(field(v, w_nodes6()), true, out.hosts[x])) by {
        if x < one.hosts.len() {
            assert(one.hosts[x].0 == host_id(one.hosts[x].1, one.hosts[x].2));
        }
    }
    if out.nodes.len() + out.hosts.len() < 4096 {
        assert(one.nodes.len() + one.hosts.len() < 4096);
        assert(tells_of(one, field(v, w_nodes()), false));
        if let Some(Bencode::Bytes(s)) = field(v, w_nodes()) {
            assert forall|i: int|
                0 <= i < s.len() as int / node_width(false) && within_reach(
                    node_at(s, false, #[trigger] (i * node_width(false))),
                ) implies lists_address(
                out.nodes,
                node_at(s, false, i * node_width(false)).1,
            ) by {
                let a = node_at(s, false, i * node_width(false)).1;
                assert(lists_address(one.nodes, a));
                let x = choose|x: int| 0 <= x < one.nodes.len() && (#[trigger] one.nodes[x]).1 == a;
                assert(out.nodes[x] == one.nodes[x]);
            }
        }
        if let Some(Bencode::List(entries)) = field(v, w_nodes()) {
            assert forall|i: int|
                0 <= i < entries.len() && host_of(
                    #[trigger] entries[i],
                    false,
                ) is Some implies lists_entry(out.hosts, host_of(entries[i], false)->0) by {
                let (host, port) = host_of(entries[i], false)->0;
                assert(lists_host(one.hosts, host, port));
                let x = choose|x: int|
                    0 <= x < one.hosts.len() && (#[trigger] one.hosts[x]).1 == host
                        && one.hosts[x].2 == port;
                assert(out.hosts[x] == one.hosts[x]);
            }
        }
        assert(tells_of(out, field(v, w_nodes()), false));
        assert(tells_of(out, field(v, w_nodes6()), true));
    }
}

/// An entry names a host where it is a text and a port from 1 to 65535, and the text, without the
/// white space around it, is neither empty nor an address that cannot be reached, holds no zero
/// character, and, for the newer address family, is no address of the older one.
pub proof fn which_entries_name_a_host(text: Seq<char>, b: Seq<u8>, port: int, v6: bool)
    requires
        text_in(Bencode::Bytes(b)) == Some(text),
    ensures
        ({
            let got = host_of(Bencode::List(seq![Bencode::Bytes(b), Bencode::Int(port)]), v6);
            let host = trimmed(text);
            &&& got is Some <==> {
                &&& 1 <= port <= 65535
                &&& host.len() > 0
                &&& forall|i: int| 0 <= i < host.len() ==> #[trigger] host[i] != '\0'
                &&& ipv4_bytes(host) matches Some(a) ==> !v6 && exists|i: int|
                    0 <= i < a.len() && #[trigger] a[i] != 0
                &&& ipv4_bytes(host) is None && ipv6_bytes(host) is Some ==> exists|i: int|
                    0 <= i < ipv6_bytes(host)->0.len() && #[trigger] ipv6_bytes(host)->0[i] != 0
            }
            &&& got matches Some(h) ==> h.0 == host && h.1 == port
        }),
{
    let pair = seq![Bencode::Bytes(b), Bencode::Int(port)];
    let host = trimmed(text);
    assert(pair[0] == Bencode::Bytes(b) && pair[1] == Bencode::Int(port));
    if host.contains('\0') {
        let i = choose|i: int| 0 <= i < host.len() && host[i] == '\0';
        assert(host[i] == '\0');
    }
    if exists|i: int| 0 <= i < host.len() && #[trigger] host[i] == '\0' {
        let i = choose|i: int| 0 <= i < host.len() && #[trigger] host[i] == '\0';
        assert(host.contains(host[i]));
    }
    assert(1 <= port <= 65535 ==> (port as u16) as int == port);
}

} // verus!
