//! What sockets are made with: families, addresses and options.

use crate::net;
use crate::net::{IpAddr, Ipv4Addr, Ipv6Addr, SocketAddr};
use vstd::prelude::*;

verus! {

/// How many connections may wait at a listener.
pub const LISTEN_BACKLOG: i32 = 1024;

/// A family of addresses.
#[derive(Debug, Clone, Copy, PartialEq, Eq, Structural)]
pub enum Domain {
    Ipv4,
    Ipv6,
}

/// The options to set on a socket before it is bound.
#[derive(Debug, Clone, Copy, PartialEq, Eq, Structural)]
pub struct SocketOptions {
    pub domain: Domain,
    /// Whether the socket may use addresses of others.
    pub transparent: bool,
    /// Whether a socket for IPv6 takes no IPv4; not set where it is `None`.
    pub only_v6: Option<bool>,
    /// Whether the address and the port may be in use already.
    pub reuse: bool,
    pub mark: Option<u32>,
}

pub open spec fn domain_of(addr: SocketAddr) -> Domain {
    match addr {
        SocketAddr::V4(_) => Domain::Ipv4,
        SocketAddr::V6(_) => Domain::Ipv6,
    }
}

/// The options of a socket for an address: what is only for IPv6 is left out for
/// IPv4.
pub open spec fn options_for(
    addr: SocketAddr,
    reuse_addr: bool,
    transparent: bool,
    only_v6: Option<bool>,
    mark: Option<u32>,
) -> SocketOptions {
    SocketOptions {
        domain: domain_of(addr),
        transparent,
        only_v6: if addr is V6 {
            only_v6
        } else {
            None
        },
        reuse: reuse_addr,
        mark,
    }
}

/// Makes plans for sockets.
pub struct SocketFactory;

impl SocketFactory {
    pub fn new() -> (r: Self)
        ensures
            r == SocketFactory,
    {
        SocketFactory
    }

    /// The family of an address.
    pub fn domain_for(addr: SocketAddr) -> (r: Domain)
        ensures
            r == domain_of(addr),
    {
        match addr {
            SocketAddr::V4(_) => Domain::Ipv4,
            SocketAddr::V6(_) => Domain::Ipv6,
        }
    }

    /// The options of a socket for an address.
    pub fn socket_options(
        &self,
        addr: SocketAddr,
        reuse_addr: bool,
        transparent: bool,
        only_v6: Option<bool>,
        mark: Option<u32>,
    ) -> (r: SocketOptions)
        ensures
            r == options_for(addr, reuse_addr, transparent, only_v6, mark),
    {
        let domain = Self::domain_for(addr);
        SocketOptions {
            domain,
            transparent,
            only_v6: match domain {
                Domain::Ipv6 => only_v6,
                Domain::Ipv4 => None,
            },
            reuse: reuse_addr,
            mark,
        }
    }

    /// The options of a socket that intercepted traffic arrives at: it reuses its
    /// address, is transparent, and takes one family only.
    pub fn tproxy_options(&self, addr: SocketAddr) -> (r: SocketOptions)
        ensures
            r == options_for(addr, true, true, Some(true), None),
    {
        self.socket_options(addr, true, true, Some(true), None)
    }

    /// The options of a socket that sends in the name of another address: for
    /// IPv6 it takes both families.
    pub fn fake_udp_options(&self, addr: SocketAddr, fwmark: u32) -> (r: SocketOptions)
        ensures
            r == options_for(addr, true, true, Some(false), Some(fwmark)),
    {
        self.socket_options(addr, true, true, Some(false), Some(fwmark))
    }

    /// The options of a socket of a port forward.
    pub fn forward_options(&self, addr: SocketAddr) -> (r: SocketOptions)
        ensures
            r == options_for(addr, true, false, None, None),
    {
        self.socket_options(addr, true, false, None, None)
    }

    /// The options of a socket that goes out.
    pub fn outgoing_options(&self, addr: SocketAddr, fwmark: u32) -> (r: SocketOptions)
        ensures
            r == options_for(addr, false, false, None, Some(fwmark)),
    {
        self.socket_options(addr, false, false, None, Some(fwmark))
    }
}

/// The addresses to listen at, one for each family.
#[derive(Debug, Clone, Copy, PartialEq, Eq, Structural)]
pub struct ListenAddrs {
    pub v4: Option<SocketAddr>,
    pub v6: Option<SocketAddr>,
}

/// The addresses to listen at for an address: the unspecified address of IPv6
/// stands for that of both families, any other for itself.
pub open spec fn listen_addrs_of(ip: IpAddr, port: u16) -> ListenAddrs {
    match ip {
        IpAddr::V4(_) => ListenAddrs { v4: Some(SocketAddr::spec_new(ip, port)), v6: None },
        IpAddr::V6(a) => ListenAddrs {
            v4: if a.bits == 0 {
                Some(SocketAddr::spec_new(IpAddr::V4(Ipv4Addr { bits: 0 }), port))
            } else {
                None
            },
            v6: Some(SocketAddr::spec_new(ip, port)),
        },
    }
}

/// The addresses to listen at for intercepted traffic.
pub fn tproxy_listen_addrs(ip: IpAddr, port: u16) -> (r: ListenAddrs)
    ensures
        r == listen_addrs_of(ip, port),
{
    match ip {
        IpAddr::V4(_) => ListenAddrs { v4: Some(SocketAddr::new(ip, port)), v6: None },
        IpAddr::V6(a) => {
            if a.bits == 0 {
                let v4 = SocketAddr::new(IpAddr::V4(Ipv4Addr { bits: 0 }), port);
                let v6 = SocketAddr::new(IpAddr::V6(Ipv6Addr { bits: 0 }), port);
                ListenAddrs { v4: Some(v4), v6: Some(v6) }
            } else {
                ListenAddrs { v4: None, v6: Some(SocketAddr::new(ip, port)) }
            }
        },
    }
}

/// Every address that is listened at has the port, and one of each family is
/// listened at only for the unspecified address of IPv6.
pub proof fn listeners_keep_the_port(ip: IpAddr, port: u16)
    ensures
        ({
            let l = listen_addrs_of(ip, port);
            &&& l.v4 is Some || l.v6 is Some
            &&& l.v4 matches Some(a) ==> a is V4 && a.spec_port() == port
            &&& l.v6 matches Some(a) ==> a is V6 && a.spec_port() == port
            &&& l.v4 is Some && l.v6 is Some <==> ip == IpAddr::V6(Ipv6Addr { bits: 0 })
        }),
{
}

/// The unspecified address of IPv6 is listened at together with that of IPv4; any
/// other address is listened at alone, and is the one that was asked for.
pub proof fn listeners_are_at_the_address(ip: IpAddr, port: u16)
    ensures
        match ip {
            IpAddr::V4(a) => {
                &&& listen_addrs_of(ip, port).v4 == Some(
                    SocketAddr::V4(net::SocketAddrV4 { ip: a, port }),
                )
                &&& listen_addrs_of(ip, port).v6 is None
            },
            IpAddr::V6(a) => {
                &&& listen_addrs_of(ip, port).v6 == Some(
                    SocketAddr::V6(net::SocketAddrV6 { ip: a, port, flowinfo: 0, scope_id: 0 }),
                )
                &&& a.bits != 0 ==> listen_addrs_of(ip, port).v4 is None
                &&& a.bits == 0 ==> listen_addrs_of(ip, port).v4 == Some(
                    SocketAddr::V4(net::SocketAddrV4 { ip: Ipv4Addr { bits: 0 }, port }),
                )
            },
        },
{
}

/// A socket is of the family of its address and has the options that were asked for,
/// but that one for IPv4 has none of IPv6.
pub proof fn sockets_have_their_options(
    addr: SocketAddr,
    reuse: bool,
    transparent: bool,
    only_v6: Option<bool>,
    mark: Option<u32>,
)
    ensures
        ({
            let o = options_for(addr, reuse, transparent, only_v6, mark);
            &&& addr is V4 ==> o.domain == Domain::Ipv4 && o.only_v6 is None
            &&& addr is V6 ==> o.domain == Domain::Ipv6 && o.only_v6 == only_v6
            &&& o.reuse == reuse && o.transparent == transparent && o.mark == mark
        }),
{
}

} // verus!
