//! How a session starts: what it listens on, and which services it runs.

use vstd::prelude::*;

use crate::net::{IpAddr, Ipv4Addr, SocketAddr};
use crate::peer::connection::EncryptionPolicy;
use crate::proxy::P2pRoute;

verus! {

/// How long a port mapping is asked for, in seconds, where nothing else is configured.
pub const DEFAULT_UPNP_LEASE: u64 = 300;

/// What a session listens on.
#[derive(Debug, Clone)]
pub struct ListenerOptions {
    pub listen_addr: Option<SocketAddr>,
    pub enable_upnp_port_forwarding: bool,
    /// In seconds.
    pub upnp_lease: Option<u64>,
    pub listen_ipv6: bool,
}

impl Default for ListenerOptions {
    fn default() -> (r: Self)
        ensures
            r == (ListenerOptions {
                listen_addr: None,
                enable_upnp_port_forwarding: false,
                upnp_lease: None,
                listen_ipv6: false,
            }),
    {
        ListenerOptions {
            listen_addr: None,
            enable_upnp_port_forwarding: false,
            upnp_lease: None,
            listen_ipv6: false,
        }
    }
}

/// How a session behaves.
#[derive(Debug, Clone)]
pub struct SessionOptions {
    pub disable_dht: bool,
    pub listen: Option<ListenerOptions>,
    pub max_outstanding_requests_per_peer: Option<usize>,
    pub max_peers_per_torrent: Option<usize>,
    pub upload_rate_limit: Option<u64>,
    pub disable_local_service_discovery: bool,
    pub encryption: EncryptionPolicy,
    pub p2p_proxy: Option<P2pRoute>,
}

impl Default for SessionOptions {
    fn default() -> (r: Self)
        ensures
            r == (SessionOptions {
                disable_dht: false,
                listen: None,
                max_outstanding_requests_per_peer: None,
                max_peers_per_torrent: None,
                upload_rate_limit: None,
                disable_local_service_discovery: false,
                encryption: EncryptionPolicy::Prefer,
                p2p_proxy: None,
            }),
    {
        SessionOptions {
            disable_dht: false,
            listen: None,
            max_outstanding_requests_per_peer: None,
            max_peers_per_torrent: None,
            upload_rate_limit: None,
            disable_local_service_discovery: false,
            encryption: EncryptionPolicy::Prefer,
            p2p_proxy: None,
        }
    }
}

/// The address of every interface.
pub open spec fn any_v4(port: u16) -> SocketAddr {
    SocketAddr { ip: IpAddr::V4(Ipv4Addr([0u8, 0u8, 0u8, 0u8])), port }
}

/// True of the address of every interface, in the second version.
pub open spec fn is_any_v6(addr: SocketAddr, port: u16) -> bool {
    addr.port == port && addr.ip is V6 && addr.ip.spec_unspecified()
}

fn every_v4(port: u16) -> (r: SocketAddr)
    ensures
        r == any_v4(port),
{
    SocketAddr::v4([0u8, 0u8, 0u8, 0u8], port)
}

/// The address that a session asks to listen on: any port of every interface, where nothing else
/// is configured.
pub fn listen_addr(opts: &SessionOptions) -> (r: SocketAddr)
    ensures
        r == (match opts.listen {
            Some(l) => match l.listen_addr {
                Some(addr) => addr,
                None => any_v4(0),
            },
            None => any_v4(0),
        }),
{
    match &opts.listen {
        Some(l) => match l.listen_addr {
            Some(addr) => addr,
            None => every_v4(0),
        },
        None => every_v4(0),
    }
}

/// Which addresses the datagram transport tries to bind, in turn: the port of the listener, and
/// any port where that one is taken.
pub fn utp_bind_addresses(listen_port: u16) -> (r: Vec<SocketAddr>)
    ensures
        r@ == seq![any_v4(listen_port), any_v4(0)],
{
    let mut out: Vec<SocketAddr> = Vec::new();
    out.push(every_v4(listen_port));
    out.push(every_v4(0));
    assert(out@ =~= seq![any_v4(listen_port), any_v4(0)]);
    out
}

/// The protocol of a port mapping.
#[derive(Debug, Clone, Copy, PartialEq, Eq, Structural)]
pub enum MapProto {
    Tcp,
    Udp,
}

/// The ports that a router is asked to forward: that of the listener, and that of the datagram
/// transport where it runs.
pub fn upnp_mapping_specs(tcp_port: u16, utp_port: Option<u16>) -> (r: Vec<(u16, MapProto)>)
    ensures
        r@ == (match utp_port {
            Some(p) => seq![(tcp_port, MapProto::Tcp), (p, MapProto::Udp)],
            None => seq![(tcp_port, MapProto::Tcp)],
        }),
{
    let mut mappings: Vec<(u16, MapProto)> = Vec::new();
    mappings.push((tcp_port, MapProto::Tcp));
    if let Some(p) = utp_port {
        mappings.push((p, MapProto::Udp));
    }
    assert(mappings@ =~= (match utp_port {
        Some(p) => seq![(tcp_port, MapProto::Tcp), (p, MapProto::Udp)],
        None => seq![(tcp_port, MapProto::Tcp)],
    }));
    mappings
}

/// What a router is asked for.
#[derive(Debug)]
pub struct UpnpPlan {
    pub mappings: Vec<(u16, MapProto)>,
    /// In seconds.
    pub lease: u64,
}

/// What a router is asked for, where port forwarding is enabled.
pub fn upnp_plan(opts: &SessionOptions, tcp_port: u16, utp_port: Option<u16>) -> (r: Option<
    UpnpPlan,
>)
    ensures
        match opts.listen {
            Some(l) => if l.enable_upnp_port_forwarding {
                r matches Some(p) && p.lease == (match l.upnp_lease {
                    Some(s) => s,
                    None => DEFAULT_UPNP_LEASE,
                }) && p.mappings@ == (match utp_port {
                    Some(u) => seq![(tcp_port, MapProto::Tcp), (u, MapProto::Udp)],
                    None => seq![(tcp_port, MapProto::Tcp)],
                })
            } else {
                r is None
            },
            None => r is None,
        },
{
    match &opts.listen {
        Some(l) => {
            if !l.enable_upnp_port_forwarding {
                return None;
            }
            let lease: u64 = match l.upnp_lease {
                Some(s) => s,
                None => DEFAULT_UPNP_LEASE,
            };
            Some(UpnpPlan { mappings: upnp_mapping_specs(tcp_port, utp_port), lease })
        },
        None => None,
    }
}

/// The address that trackers are asked from: the one that the listener was bound to, where it was
/// configured; any port of it.
pub fn direct_tracker_source_addr(configured: SocketAddr, bound: SocketAddr) -> (r: Option<
    SocketAddr,
>)
    ensures
        r == (if configured.ip.spec_unspecified() {
            None
        } else {
            Some(SocketAddr { ip: bound.ip, port: 0 })
        }),
{
    if configured.ip.is_unspecified() {
        return None;
    }
    Some(SocketAddr::new(bound.ip, 0))
}

/// What a session runs beside its listener.
#[derive(Debug, Clone, Copy)]
pub struct Services {
    pub local_discovery: bool,
    pub dht: bool,
    /// Where a second listener is bound. That it cannot be is not fatal.
    pub listen_v6: Option<SocketAddr>,
    /// How many bytes are uploaded a second, at most.
    pub upload_limit: Option<u64>,
}

/// What a session runs beside its listener.
pub fn services(opts: &SessionOptions, listen_port: u16) -> (r: Services)
    ensures
        r.local_discovery == !opts.disable_local_service_discovery,
        r.dht == !opts.disable_dht,
        r.upload_limit == opts.upload_rate_limit,
        match opts.listen {
            Some(l) => if l.listen_ipv6 {
                r.listen_v6 matches Some(a) && is_any_v6(a, listen_port)
            } else {
                r.listen_v6 is None
            },
            None => r.listen_v6 is None,
        },
{
    let wants_v6 = match &opts.listen {
        Some(l) => l.listen_ipv6,
        None => false,
    };
    let listen_v6 = if wants_v6 {
        let any = SocketAddr::v6([0u8; 16], listen_port);
        Some(any)
    } else {
        None
    };
    Services {
        local_discovery: !opts.disable_local_service_discovery,
        dht: !opts.disable_dht,
        listen_v6,
        upload_limit: opts.upload_rate_limit,
    }
}

/// How port forwarding stands: whether it was enabled, how many mappings a router has confirmed,
/// and how often one was looked for.
#[derive(Debug, Clone, Copy, PartialEq, Eq, Structural)]
pub struct UpnpStatus {
    pub enabled: bool,
    pub mapping_count: usize,
    pub discovery_attempts: usize,
}

/// How port forwarding stands, from what the forwarder reports where it runs.
pub fn upnp_status(forwarder: Option<(usize, usize)>) -> (r: UpnpStatus)
    ensures
        r == (match forwarder {
            Some((mapping_count, discovery_attempts)) => UpnpStatus {
                enabled: true,
                mapping_count,
                discovery_attempts,
            },
            None => UpnpStatus { enabled: false, mapping_count: 0, discovery_attempts: 0 },
        }),
{
    match forwarder {
        Some((mapping_count, discovery_attempts)) => UpnpStatus {
            enabled: true,
            mapping_count,
            discovery_attempts,
        },
        None => UpnpStatus { enabled: false, mapping_count: 0, discovery_attempts: 0 },
    }
}

} // verus!
