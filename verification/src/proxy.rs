//! The routes that peer traffic takes through proxies.

use vstd::prelude::*;

use crate::text::{same_text, trim, trimmed};

verus! {

/// A proxy: its server, and what goes past it.
#[derive(Debug, Clone)]
pub struct ProxyTarget {
    pub server: String,
    pub bypass: String,
}

/// The route of peer traffic. No proxy for connections means that they are direct; no proxy for
/// datagrams means that they take the route of connections.
#[derive(Debug, Clone)]
pub struct P2pRoute {
    pub tcp: Option<ProxyTarget>,
    pub udp: Option<ProxyTarget>,
}

/// The mathematical value of a [`ProxyTarget`].
pub struct TargetModel {
    pub server: Seq<char>,
    pub bypass: Seq<char>,
}

/// The mathematical value of a [`P2pRoute`].
pub struct RouteModel {
    pub tcp: Option<TargetModel>,
    pub udp: Option<TargetModel>,
}

impl View for ProxyTarget {
    type V = TargetModel;

    open spec fn view(&self) -> TargetModel {
        TargetModel { server: self.server@, bypass: self.bypass@ }
    }
}

/// The mathematical value of a proxy that may be absent.
pub open spec fn target_model(t: Option<ProxyTarget>) -> Option<TargetModel> {
    match t {
        Some(t) => Some(t@),
        None => None,
    }
}

impl View for P2pRoute {
    type V = RouteModel;

    open spec fn view(&self) -> RouteModel {
        RouteModel { tcp: target_model(self.tcp), udp: target_model(self.udp) }
    }
}

/// The mathematical value of a route that may be absent.
pub open spec fn route_model(r: Option<P2pRoute>) -> Option<RouteModel> {
    match r {
        Some(r) => Some(r@),
        None => None,
    }
}

/// The route that a profile names: datagrams have a proxy of their own only where they have
/// another than connections.
pub open spec fn route_of(
    tcp_server: Seq<char>,
    tcp_bypass: Seq<char>,
    udp_server: Seq<char>,
    udp_bypass: Seq<char>,
) -> RouteModel {
    let server = trimmed(tcp_server);
    let bypass = trimmed(tcp_bypass);
    let own = trimmed(udp_server);
    let udp = if own.len() == 0 {
        TargetModel { server, bypass }
    } else {
        TargetModel { server: own, bypass: trimmed(udp_bypass) }
    };
    RouteModel {
        tcp: if server.len() == 0 {
            None
        } else {
            Some(TargetModel { server, bypass })
        },
        udp: if udp.server.len() == 0 || (udp.server == server && udp.bypass == bypass) {
            None
        } else {
            Some(udp)
        },
    }
}

/// True when a text has no characters.
pub fn is_empty(s: &str) -> (r: bool)
    ensures
        r == (s@.len() == 0),
{
    proof {
        reveal_strlit("");
        if s@.len() == 0 {
            assert(s@ =~= ""@);
        }
    }
    same_text(s, "")
}

/// The route that a profile names.
pub fn p2p_route(tcp_server: &str, tcp_bypass: &str, udp_server: &str, udp_bypass: &str) -> (r:
    P2pRoute)
    ensures
        r@ == route_of(tcp_server@, tcp_bypass@, udp_server@, udp_bypass@),
{
    let server = trim(tcp_server);
    let bypass = trim(tcp_bypass);
    let own = trim(udp_server);
    let has_own = !is_empty(own.as_str());
    let udp = if has_own {
        ProxyTarget { server: own, bypass: trim(udp_bypass) }
    } else {
        ProxyTarget { server: server.as_str().to_string(), bypass: bypass.as_str().to_string() }
    };
    let shares = is_empty(udp.server.as_str()) || (same_text(
        udp.server.as_str(),
        server.as_str(),
    ) && same_text(udp.bypass.as_str(), bypass.as_str()));
    P2pRoute {
        tcp: if is_empty(server.as_str()) {
            None
        } else {
            Some(ProxyTarget { server, bypass })
        },
        udp: if shares {
            None
        } else {
            Some(udp)
        },
    }
}

/// A copy of a route.
pub fn copy_route(route: &Option<P2pRoute>) -> (r: Option<P2pRoute>)
    ensures
        route_model(r) == route_model(*route),
{
    match route {
        Some(x) => Some(
            P2pRoute { tcp: copy_target(&x.tcp), udp: copy_target(&x.udp) },
        ),
        None => None,
    }
}

fn copy_target(t: &Option<ProxyTarget>) -> (r: Option<ProxyTarget>)
    ensures
        target_model(r) == target_model(*t),
{
    match t {
        Some(t) => Some(
            ProxyTarget {
                server: t.server.as_str().to_string(),
                bypass: t.bypass.as_str().to_string(),
            },
        ),
        None => None,
    }
}

/// How a profile routes traffic: connections go through its server where it names one; datagrams
/// through their own server where they have one, else the same way as connections, and it is noted
/// only where it is another way.
pub proof fn how_a_profile_routes(
    tcp_server: Seq<char>,
    tcp_bypass: Seq<char>,
    udp_server: Seq<char>,
    udp_bypass: Seq<char>,
)
    ensures
        ({
            let r = route_of(tcp_server, tcp_bypass, udp_server, udp_bypass);
            let (server, bypass) = (trimmed(tcp_server), trimmed(tcp_bypass));
            let (own, past) = (trimmed(udp_server), trimmed(udp_bypass));
            &&& r.tcp is Some <==> server.len() > 0
            &&& r.tcp matches Some(t) ==> t.server == server && t.bypass == bypass
            &&& r.udp is Some <==> own.len() > 0 && (own != server || past != bypass)
            &&& r.udp matches Some(t) ==> t.server == own && t.bypass == past
        }),
{
}

} // verus!
