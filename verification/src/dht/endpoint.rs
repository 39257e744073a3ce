//! Which endpoints the table talks to.

use vstd::prelude::*;

use crate::net::{IpAddr, Ipv4Addr, Ipv6Addr, SocketAddr};

verus! {

/// True of the endpoints that a datagram can be sent to.
pub open spec fn routable(addr: SocketAddr) -> bool {
    &&& addr.port != 0
    &&& !addr.ip.spec_unspecified()
    &&& !addr.ip.spec_multicast()
    &&& !(addr.ip matches IpAddr::V4(ip) && ip.spec_broadcast())
}

/// True of the endpoints that a datagram can be sent to.
pub fn valid_dht_endpoint(addr: &SocketAddr) -> (r: bool)
    ensures
        r == routable(*addr),
{
    if addr.port == 0 || addr.ip.is_unspecified() || addr.ip.is_multicast() {
        return false;
    }
    match addr.ip {
        IpAddr::V4(ip) => !ip.is_broadcast(),
        IpAddr::V6(_) => true,
    }
}

/// True of the IPv4 addresses outside every special-purpose range.
pub open spec fn public_ipv4(ip: Ipv4Addr) -> bool {
    let a = ip.0@[0];
    let b = ip.0@[1];
    let c = ip.0@[2];
    &&& a != 0
    &&& a < 240
    &&& !ip.spec_loopback()
    &&& !ip.spec_private()
    &&& !ip.spec_link_local()
    &&& !ip.spec_multicast()
    &&& !ip.spec_documentation()
    &&& !(a == 100 && 64 <= b <= 127)
    &&& !(a == 192 && ((b == 0 && c == 0) || (b == 31 && c == 196) || (b == 52 && c == 193) || (b
        == 88 && c == 99) || (b == 175 && c == 48)))
    &&& !(a == 198 && 18 <= b <= 19)
}

/// True of the IPv4 addresses outside every special-purpose range.
pub fn public_dht_ipv4(ip: &Ipv4Addr) -> (r: bool)
    ensures
        r == public_ipv4(*ip),
{
    let a: u8 = ip.0[0];
    let b: u8 = ip.0[1];
    let c: u8 = ip.0[2];
    a != 0 && a < 240 && !ip.is_loopback() && !ip.is_private() && !ip.is_link_local()
        && !ip.is_multicast() && !ip.is_documentation() && !(a == 100 && 64 <= b && b <= 127) && !(a
        == 192 && ((b == 0 && c == 0) || (b == 31 && c == 196) || (b == 52 && c == 193) || (b == 88
        && c == 99) || (b == 175 && c == 48))) && !(a == 198 && 18 <= b && b <= 19)
}

/// True of the endpoints that are reachable from anywhere. An IPv6 address that carries an IPv4
/// address is judged by that address.
pub open spec fn public_endpoint(addr: SocketAddr) -> bool {
    &&& routable(addr)
    &&& match addr.ip {
        IpAddr::V4(ip) => public_ipv4(ip),
        IpAddr::V6(ip) => if ip.spec_carries_ipv4() {
            exists|v4: Ipv4Addr|
                v4.0@ == ip.0@.subrange(12, 16) && #[trigger] public_ipv4(v4)
        } else {
            let b = ip.0@;
            &&& !ip.spec_unicast_link_local()
            &&& !ip.spec_unique_local()
            // Documentation and benchmarking prefixes.
            &&& !(b[0] == 0x20 && b[1] == 0x01 && ((b[2] == 0x0d && b[3] == 0xb8) || (b[2] == 0
                && b[3] == 2)))
            // Overlay routable cryptographic hash identifiers.
            &&& !(b[0] == 0x20 && b[1] == 0x01 && b[2] == 0 && 0x10 <= b[3] <= 0x2f)
        },
    }
}

/// True of the endpoints that are reachable from anywhere.
pub fn public_dht_endpoint(addr: &SocketAddr) -> (r: bool)
    ensures
        r == public_endpoint(*addr),
{
    if !valid_dht_endpoint(addr) {
        return false;
    }
    match addr.ip {
        IpAddr::V4(ip) => public_dht_ipv4(&ip),
        IpAddr::V6(ip) => {
            match ip.to_ipv4() {
                Some(v4) => {
                    let r = public_dht_ipv4(&v4);
                    proof {
                        assert forall|w: Ipv4Addr|
                            w.0@ == ip.0@.subrange(12, 16) && #[trigger] public_ipv4(
                                w,
                            ) implies public_ipv4(v4) by {
                            assert(w.0 =~= v4.0);
                        }
                    }
                    r
                },
                None => {
                    let b = ip.0;
                    !ip.is_unicast_link_local() && !ip.is_unique_local() && !(b[0] == 0x20 && b[1]
                        == 0x01 && ((b[2] == 0x0d && b[3] == 0xb8) || (b[2] == 0 && b[3] == 2)))
                        && !(b[0] == 0x20 && b[1] == 0x01 && b[2] == 0 && 0x10 <= b[3] && b[3]
                        <= 0x2f)
                },
            }
        },
    }
}

/// An endpoint can be sent to unless its port is zero or its address is that of nobody, of a group
/// or of everybody.
pub proof fn which_endpoints_can_be_sent_to(addr: SocketAddr)
    ensures
        addr.ip matches IpAddr::V4(ip) ==> {
            let b = ip.0@;
            routable(addr) <==> addr.port != 0 && !(b[0] == 0 && b[1] == 0 && b[2] == 0 && b[3]
                == 0) && !(224 <= b[0] <= 239) && !(b[0] == 255 && b[1] == 255 && b[2] == 255 && b[3]
                == 255)
        },
        addr.ip matches IpAddr::V6(ip) ==> {
            let b = ip.0@;
            routable(addr) <==> addr.port != 0 && b[0] != 255 && exists|i: int|
                0 <= i < 16 && #[trigger] b[i] != 0
        },
{
    if let IpAddr::V4(ip) = addr.ip {
        let b = ip.0@;
        assert(b.len() == 4);
        if b[0] == 0 && b[1] == 0 && b[2] == 0 && b[3] == 0 {
            assert(ip.spec_unspecified());
        }
        if ip.spec_unspecified() {
            assert(b[0] == 0 && b[1] == 0 && b[2] == 0 && b[3] == 0);
        }
    }
}

/// Of the addresses of four bytes these ranges are not public: this network, the private ones, the
/// shared one, loopback, link local, the special assignments, the examples, benchmarks, groups and
/// everything from 240 on.
pub proof fn which_addresses_are_public(ip: Ipv4Addr)
    ensures
        ({
            let (a, b, c) = (ip.0@[0], ip.0@[1], ip.0@[2]);
            public_ipv4(ip) <==> !(a == 0 || a == 10 || a == 127 || a >= 224 || (a == 100 && 64 <= b
                <= 127) || (a == 169 && b == 254) || (a == 172 && 16 <= b <= 31) || (a == 192 && b
                == 168) || (a == 192 && b == 0 && (c == 0 || c == 2)) || (a == 192 && b == 31 && c
                == 196) || (a == 192 && b == 52 && c == 193) || (a == 192 && b == 88 && c == 99) || (
            a == 192 && b == 175 && c == 48) || (a == 198 && (b == 18 || b == 19)) || (a == 198 && b
                == 51 && c == 100) || (a == 203 && b == 0 && c == 113))
        }),
{
}

/// An endpoint of sixteen bytes is public unless it cannot be sent to, or is link local, unique
/// local, an example, a benchmark or the name of an overlay; one that carries four bytes is judged
/// by these.
pub proof fn which_long_addresses_are_public(addr: SocketAddr, ip: Ipv6Addr)
    requires
        addr.ip == IpAddr::V6(ip),
    ensures
        ({
            let b = ip.0@;
            let carries = (forall|i: int| 0 <= i < 10 ==> #[trigger] b[i] == 0) && ((b[10] == 255
                && b[11] == 255) || (b[10] == 0 && b[11] == 0));
            &&& !carries ==> (public_endpoint(addr) <==> routable(addr) && !(b[0] == 254 && 128
                <= b[1] <= 191) && b[0] != 252 && b[0] != 253 && !(b[0] == 32 && b[1] == 1 && b[2]
                == 13 && b[3] == 184) && !(b[0] == 32 && b[1] == 1 && b[2] == 0 && (b[3] == 2 || (16
                <= b[3] <= 47))))
            &&& carries ==> (public_endpoint(addr) <==> routable(addr) && exists|v4: Ipv4Addr|
                v4.0@ == b.subrange(12, 16) && #[trigger] public_ipv4(v4))
        }),
{
}

} // verus!
