//! Internet addresses as plain values.

use vstd::prelude::*;

use crate::be::{be16, read_u16, of_be16, write_u16};
use crate::meta::hash::{array_from, same_array};

pub mod literal;
pub mod peers;

verus! {

#[derive(Clone, Copy, Debug, Eq)]
pub struct Ipv4Addr(pub [u8; 4]);

#[derive(Clone, Copy, Debug, Eq)]
pub struct Ipv6Addr(pub [u8; 16]);

#[derive(Clone, Copy, Debug, Eq)]
pub enum IpAddr {
    V4(Ipv4Addr),
    V6(Ipv6Addr),
}

#[derive(Clone, Copy, Debug, Eq)]
pub struct SocketAddr {
    pub ip: IpAddr,
    pub port: u16,
}

impl PartialEq for Ipv4Addr {
    fn eq(&self, other: &Self) -> (r: bool) {
        same_array(&self.0, &other.0)
    }
}

impl vstd::std_specs::cmp::PartialEqSpecImpl for Ipv4Addr {
    open spec fn obeys_eq_spec() -> bool {
        true
    }

    open spec fn eq_spec(&self, other: &Self) -> bool {
        *self == *other
    }
}

impl PartialEq for Ipv6Addr {
    fn eq(&self, other: &Self) -> (r: bool) {
        same_array(&self.0, &other.0)
    }
}

impl vstd::std_specs::cmp::PartialEqSpecImpl for Ipv6Addr {
    open spec fn obeys_eq_spec() -> bool {
        true
    }

    open spec fn eq_spec(&self, other: &Self) -> bool {
        *self == *other
    }
}

impl PartialEq for IpAddr {
    fn eq(&self, other: &Self) -> (r: bool) {
        match (self, other) {
            (IpAddr::V4(a), IpAddr::V4(b)) => *a == *b,
            (IpAddr::V6(a), IpAddr::V6(b)) => *a == *b,
            _ => false,
        }
    }
}

impl vstd::std_specs::cmp::PartialEqSpecImpl for IpAddr {
    open spec fn obeys_eq_spec() -> bool {
        true
    }

    open spec fn eq_spec(&self, other: &Self) -> bool {
        *self == *other
    }
}

impl PartialEq for SocketAddr {
    fn eq(&self, other: &Self) -> (r: bool) {
        self.ip == other.ip && self.port == other.port
    }
}

impl vstd::std_specs::cmp::PartialEqSpecImpl for SocketAddr {
    open spec fn obeys_eq_spec() -> bool {
        true
    }

    open spec fn eq_spec(&self, other: &Self) -> bool {
        *self == *other
    }
}

/// True when every byte from `from` on and before `to` is zero.
pub open spec fn zeros(s: Seq<u8>, from: int, to: int) -> bool {
    forall|i: int| from <= i < to ==> #[trigger] s[i] == 0
}

impl Ipv4Addr {
    pub open spec fn spec_unspecified(self) -> bool {
        zeros(self.0@, 0, 4)
    }

    /// 0.0.0.0.
    pub fn is_unspecified(&self) -> (r: bool)
        ensures
            r == self.spec_unspecified(),
    {
        let r = self.0[0] == 0 && self.0[1] == 0 && self.0[2] == 0 && self.0[3] == 0;
        assert(r ==> self.spec_unspecified());
        assert(self.spec_unspecified() ==> self.0@[0] == 0 && self.0@[1] == 0 && self.0@[2] == 0
            && self.0@[3] == 0);
        r
    }

    pub open spec fn spec_multicast(self) -> bool {
        224 <= self.0@[0] <= 239
    }

    /// 224.0.0.0/4.
    pub fn is_multicast(&self) -> (r: bool)
        ensures
            r == self.spec_multicast(),
    {
        224 <= self.0[0] && self.0[0] <= 239
    }

    pub open spec fn spec_broadcast(self) -> bool {
        self.0@[0] == 255 && self.0@[1] == 255 && self.0@[2] == 255 && self.0@[3] == 255
    }

    /// 255.255.255.255.
    pub fn is_broadcast(&self) -> (r: bool)
        ensures
            r == self.spec_broadcast(),
    {
        self.0[0] == 255 && self.0[1] == 255 && self.0[2] == 255 && self.0[3] == 255
    }

    pub open spec fn spec_loopback(self) -> bool {
        self.0@[0] == 127
    }

    /// 127.0.0.0/8.
    pub fn is_loopback(&self) -> (r: bool)
        ensures
            r == self.spec_loopback(),
    {
        self.0[0] == 127
    }

    pub open spec fn spec_private(self) -> bool {
        ||| self.0@[0] == 10
        ||| self.0@[0] == 172 && 16 <= self.0@[1] <= 31
        ||| self.0@[0] == 192 && self.0@[1] == 168
    }

    /// 10.0.0.0/8, 172.16.0.0/12 and 192.168.0.0/16.
    pub fn is_private(&self) -> (r: bool)
        ensures
            r == self.spec_private(),
    {
        self.0[0] == 10 || (self.0[0] == 172 && 16 <= self.0[1] && self.0[1] <= 31) || (self.0[0]
            == 192 && self.0[1] == 168)
    }

    pub open spec fn spec_link_local(self) -> bool {
        self.0@[0] == 169 && self.0@[1] == 254
    }

    /// 169.254.0.0/16.
    pub fn is_link_local(&self) -> (r: bool)
        ensures
            r == self.spec_link_local(),
    {
        self.0[0] == 169 && self.0[1] == 254
    }

    pub open spec fn spec_documentation(self) -> bool {
        ||| self.0@[0] == 192 && self.0@[1] == 0 && self.0@[2] == 2
        ||| self.0@[0] == 198 && self.0@[1] == 51 && self.0@[2] == 100
        ||| self.0@[0] == 203 && self.0@[1] == 0 && self.0@[2] == 113
    }

    /// 192.0.2.0/24, 198.51.100.0/24 and 203.0.113.0/24.
    pub fn is_documentation(&self) -> (r: bool)
        ensures
            r == self.spec_documentation(),
    {
        (self.0[0] == 192 && self.0[1] == 0 && self.0[2] == 2) || (self.0[0] == 198 && self.0[1]
            == 51 && self.0[2] == 100) || (self.0[0] == 203 && self.0[1] == 0 && self.0[2] == 113)
    }
}

fn all_zero(s: &[u8], from: usize, to: usize) -> (r: bool)
    requires
        from <= to <= s.len(),
    ensures
        r == zeros(s@, from as int, to as int),
{
    let mut i: usize = from;
    while i < to
        invariant
            from <= i <= to <= s.len(),
            zeros(s@, from as int, i as int),
        decreases to - i,
    {
        if s[i] != 0 {
            assert(s@[i as int] != 0);
            return false;
        }
        i += 1;
    }
    true
}

impl Ipv6Addr {
    pub open spec fn spec_unspecified(self) -> bool {
        zeros(self.0@, 0, 16)
    }

    /// `::`.
    pub fn is_unspecified(&self) -> (r: bool)
        ensures
            r == self.spec_unspecified(),
    {
        all_zero(self.0.as_slice(), 0, 16)
    }

    pub open spec fn spec_multicast(self) -> bool {
        self.0@[0] == 0xff
    }

    /// `ff00::/8`.
    pub fn is_multicast(&self) -> (r: bool)
        ensures
            r == self.spec_multicast(),
    {
        self.0[0] == 0xff
    }

    pub open spec fn spec_loopback(self) -> bool {
        zeros(self.0@, 0, 15) && self.0@[15] == 1
    }

    /// `::1`.
    pub fn is_loopback(&self) -> (r: bool)
        ensures
            r == self.spec_loopback(),
    {
        all_zero(self.0.as_slice(), 0, 15) && self.0[15] == 1
    }

    pub open spec fn spec_unicast_link_local(self) -> bool {
        self.0@[0] == 0xfe && 0x80 <= self.0@[1] <= 0xbf
    }

    /// `fe80::/10`.
    pub fn is_unicast_link_local(&self) -> (r: bool)
        ensures
            r == self.spec_unicast_link_local(),
    {
        self.0[0] == 0xfe && 0x80 <= self.0[1] && self.0[1] <= 0xbf
    }

    pub open spec fn spec_unique_local(self) -> bool {
        self.0@[0] == 0xfc || self.0@[0] == 0xfd
    }

    /// `fc00::/7`.
    pub fn is_unique_local(&self) -> (r: bool)
        ensures
            r == self.spec_unique_local(),
    {
        self.0[0] == 0xfc || self.0[0] == 0xfd
    }

    /// True of the addresses that carry an IPv4 address: `::a.b.c.d` and `::ffff:a.b.c.d`.
    pub open spec fn spec_carries_ipv4(self) -> bool {
        zeros(self.0@, 0, 10) && ((self.0@[10] == 0xff && self.0@[11] == 0xff) || (self.0@[10] == 0
            && self.0@[11] == 0))
    }

    /// The IPv4 address of `::a.b.c.d` or `::ffff:a.b.c.d`.
    pub fn to_ipv4(&self) -> (r: Option<Ipv4Addr>)
        ensures
            match r {
                Some(v4) => self.spec_carries_ipv4() && v4.0@ == self.0@.subrange(12, 16),
                None => !self.spec_carries_ipv4(),
            },
    {
        if all_zero(self.0.as_slice(), 0, 10) && ((self.0[10] == 0xff && self.0[11] == 0xff) || (
        self.0[10] == 0 && self.0[11] == 0)) {
            Some(self.last_four())
        } else {
            None
        }
    }

    fn last_four(&self) -> (r: Ipv4Addr)
        ensures
            r.0@ == self.0@.subrange(12, 16),
    {
        let s = self.0.as_slice();
        let r = array_from::<4>(&s[12..16]);
        assert(r@ =~= self.0@.subrange(12, 16));
        Ipv4Addr(r)
    }
}

impl IpAddr {
    pub open spec fn spec_unspecified(self) -> bool {
        match self {
            IpAddr::V4(ip) => ip.spec_unspecified(),
            IpAddr::V6(ip) => ip.spec_unspecified(),
        }
    }

    pub fn is_unspecified(&self) -> (r: bool)
        ensures
            r == self.spec_unspecified(),
    {
        match self {
            IpAddr::V4(ip) => ip.is_unspecified(),
            IpAddr::V6(ip) => ip.is_unspecified(),
        }
    }

    pub open spec fn spec_multicast(self) -> bool {
        match self {
            IpAddr::V4(ip) => ip.spec_multicast(),
            IpAddr::V6(ip) => ip.spec_multicast(),
        }
    }

    pub fn is_multicast(&self) -> (r: bool)
        ensures
            r == self.spec_multicast(),
    {
        match self {
            IpAddr::V4(ip) => ip.is_multicast(),
            IpAddr::V6(ip) => ip.is_multicast(),
        }
    }

    /// The bytes of the address, four or sixteen.
    pub open spec fn octets_of(self) -> Seq<u8> {
        match self {
            IpAddr::V4(ip) => ip.0@,
            IpAddr::V6(ip) => ip.0@,
        }
    }

    pub fn push_octets(&self, out: &mut Vec<u8>)
        ensures
            final(out)@ == old(out)@ + self.octets_of(),
    {
        match self {
            IpAddr::V4(ip) => out.extend_from_slice(ip.0.as_slice()),
            IpAddr::V6(ip) => out.extend_from_slice(ip.0.as_slice()),
        }
        assert(out@ =~= old(out)@ + self.octets_of());
    }
}

impl SocketAddr {
    pub fn new(ip: IpAddr, port: u16) -> (r: Self)
        ensures
            r == (SocketAddr { ip, port }),
    {
        SocketAddr { ip, port }
    }

    /// The IPv4 endpoint of these octets.
    pub fn v4(octets: [u8; 4], port: u16) -> (r: Self)
        ensures
            r == (SocketAddr { ip: IpAddr::V4(Ipv4Addr(octets)), port }),
    {
        SocketAddr { ip: IpAddr::V4(Ipv4Addr(octets)), port }
    }

    /// The IPv6 endpoint of these octets.
    pub fn v6(octets: [u8; 16], port: u16) -> (r: Self)
        ensures
            r == (SocketAddr { ip: IpAddr::V6(Ipv6Addr(octets)), port }),
    {
        SocketAddr { ip: IpAddr::V6(Ipv6Addr(octets)), port }
    }

    pub fn is_ipv4(&self) -> (r: bool)
        ensures
            r == (self.ip is V4),
    {
        match self.ip {
            IpAddr::V4(_) => true,
            IpAddr::V6(_) => false,
        }
    }

    pub fn is_ipv6(&self) -> (r: bool)
        ensures
            r == (self.ip is V6),
    {
        match self.ip {
            IpAddr::V4(_) => false,
            IpAddr::V6(_) => true,
        }
    }

    /// The port is set, and the address is neither unspecified nor that of a group.
    pub open spec fn spec_valid_endpoint(self) -> bool {
        self.port != 0 && !self.ip.spec_unspecified() && !self.ip.spec_multicast()
    }

    /// True of the endpoints that a peer can be dialled at.
    pub fn is_valid_endpoint(&self) -> (r: bool)
        ensures
            r == self.spec_valid_endpoint(),
    {
        self.port != 0 && !self.ip.is_unspecified() && !self.ip.is_multicast()
    }
}

/// The compact form of an endpoint: its address and its port.
pub open spec fn compact(addr: SocketAddr) -> Seq<u8> {
    addr.ip.octets_of() + be16(addr.port)
}

/// Append the compact form of an endpoint.
pub fn push_compact(addr: &SocketAddr, out: &mut Vec<u8>)
    ensures
        final(out)@ == old(out)@ + compact(*addr),
{
    addr.ip.push_octets(out);
    write_u16(out, addr.port);
    assert(out@ =~= old(out)@ + compact(*addr));
}

/// True when `addr` is the endpoint whose compact form starts `s`.
pub open spec fn reads_as(addr: SocketAddr, s: Seq<u8>, v6: bool) -> bool {
    let n = if v6 {
        16int
    } else {
        4int
    };
    &&& (addr.ip is V6) == v6
    &&& addr.ip.octets_of() == s.take(n)
    &&& addr.port == of_be16(s.skip(n))
}

/// The endpoint whose compact form starts `s`.
pub open spec fn address_of(s: Seq<u8>, v6: bool) -> SocketAddr {
    choose|addr: SocketAddr| reads_as(addr, s, v6)
}

/// The endpoint whose compact form starts at `at`.
pub fn read_compact(s: &[u8], at: usize, v6: bool) -> (r: SocketAddr)
    requires
        at + (if v6 { 18int } else { 6int }) <= s.len(),
    ensures
        reads_as(r, s@.skip(at as int), v6),
        r == address_of(s@.skip(at as int), v6),
{
    let r = if v6 {
        let ip = array_from::<16>(&s[at..at + 16]);
        let port: u16 = read_u16(s, at + 16);
        assert(ip@ =~= s@.skip(at as int).take(16));
        assert(s@.skip(at as int).skip(16) =~= s@.skip(at + 16));
        SocketAddr::v6(ip, port)
    } else {
        let ip = array_from::<4>(&s[at..at + 4]);
        let port: u16 = read_u16(s, at + 4);
        assert(ip@ =~= s@.skip(at as int).take(4));
        assert(s@.skip(at as int).skip(4) =~= s@.skip(at + 4));
        SocketAddr::v4(ip, port)
    };
    proof {
        let t = s@.skip(at as int);
        reading_is_unique(r, address_of(t, v6), t, v6);
    }
    r
}

/// Two endpoints that are read from the same bytes are the same.
pub proof fn reading_is_unique(a: SocketAddr, b: SocketAddr, s: Seq<u8>, v6: bool)
    requires
        reads_as(a, s, v6),
        reads_as(b, s, v6),
    ensures
        a == b,
{
    match (a.ip, b.ip) {
        (IpAddr::V4(x), IpAddr::V4(y)) => {
            assert(x.0 =~= y.0);
        },
        (IpAddr::V6(x), IpAddr::V6(y)) => {
            assert(x.0 =~= y.0);
        },
        _ => {},
    }
}

/// Every run of bytes that is long enough starts with the compact form of an endpoint.
pub proof fn lemma_readable(s: Seq<u8>, v6: bool)
    requires
        s.len() >= (if v6 { 18int } else { 6int }),
    ensures
        reads_as(address_of(s, v6), s, v6),
{
    let n = if v6 {
        16int
    } else {
        4int
    };
    let port = of_be16(s.skip(n));
    let ip = if v6 {
        let a = [
            s[0], s[1], s[2], s[3], s[4], s[5], s[6], s[7], s[8], s[9], s[10], s[11], s[12], s[13],
            s[14], s[15],
        ];
        assert(a@ =~= s.take(16));
        IpAddr::V6(Ipv6Addr(a))
    } else {
        let a = [s[0], s[1], s[2], s[3]];
        assert(a@ =~= s.take(4));
        IpAddr::V4(Ipv4Addr(a))
    };
    assert(reads_as(SocketAddr { ip, port }, s, v6));
}

/// Reading a compact form gives back the endpoint that was written.
pub proof fn compact_round_trip(addr: SocketAddr, rest: Seq<u8>)
    ensures
        reads_as(addr, compact(addr) + rest, addr.ip is V6),
        address_of(compact(addr) + rest, addr.ip is V6) == addr,
        compact(addr).len() == (if addr.ip is V6 { 18int } else { 6int }),
{
    let s = compact(addr) + rest;
    let n = if addr.ip is V6 {
        16int
    } else {
        4int
    };
    assert(s.take(n) =~= addr.ip.octets_of());
    assert(s.skip(n) =~= be16(addr.port) + rest);
    crate::be::be16_round_trip(addr.port, rest);
    reading_is_unique(addr, address_of(s, addr.ip is V6), s, addr.ip is V6);
}

/// The compact form of an endpoint is its address and, behind that, its port in two bytes, the
/// higher one first.
pub proof fn how_endpoints_are_written(addr: SocketAddr)
    ensures
        ({
            let b = compact(addr);
            let n: int = if addr.ip is V6 {
                16
            } else {
                4
            };
            &&& b.len() == n + 2
            &&& b.take(n) == addr.ip.octets_of()
            &&& b[n] == addr.port / 256
            &&& b[n + 1] == addr.port % 256
        }),
{
    let n: int = if addr.ip is V6 {
        16
    } else {
        4
    };
    assert(addr.ip.octets_of().len() == n);
    assert(compact(addr).take(n) =~= addr.ip.octets_of());
}

} // verus!
