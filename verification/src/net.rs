//! IP addresses, socket addresses and networks, as plain numbers.

use crate::text;
use core::str::FromStr;
use vstd::arithmetic::power2::pow2;
use vstd::prelude::*;

verus! {

/// An IPv4 address, as the number that its four octets make.
#[derive(Debug, Clone, Copy, PartialEq, Eq, Hash, Structural)]
pub struct Ipv4Addr {
    pub bits: u32,
}

/// An IPv6 address, as the number that its sixteen octets make.
#[derive(Debug, Clone, Copy, PartialEq, Eq, Hash, Structural)]
pub struct Ipv6Addr {
    pub bits: u128,
}

#[derive(Debug, Clone, Copy, PartialEq, Eq, Hash, Structural)]
pub enum IpAddr {
    V4(Ipv4Addr),
    V6(Ipv6Addr),
}

/// An IPv4 address with a port.
#[derive(Debug, Clone, Copy, PartialEq, Eq, Hash, Structural)]
pub struct SocketAddrV4 {
    pub ip: Ipv4Addr,
    pub port: u16,
}

/// An IPv6 address with a port, a flow label and a scope.
#[derive(Debug, Clone, Copy, PartialEq, Eq, Hash, Structural)]
pub struct SocketAddrV6 {
    pub ip: Ipv6Addr,
    pub port: u16,
    pub flowinfo: u32,
    pub scope_id: u32,
}

#[derive(Debug, Clone, Copy, PartialEq, Eq, Hash, Structural)]
pub enum SocketAddr {
    V4(SocketAddrV4),
    V6(SocketAddrV6),
}

impl SocketAddr {
    pub open spec fn spec_ip(self) -> IpAddr {
        match self {
            SocketAddr::V4(a) => IpAddr::V4(a.ip),
            SocketAddr::V6(a) => IpAddr::V6(a.ip),
        }
    }

    pub open spec fn spec_port(self) -> u16 {
        match self {
            SocketAddr::V4(a) => a.port,
            SocketAddr::V6(a) => a.port,
        }
    }

    pub open spec fn spec_new(ip: IpAddr, port: u16) -> SocketAddr {
        match ip {
            IpAddr::V4(ip) => SocketAddr::V4(SocketAddrV4 { ip, port }),
            IpAddr::V6(ip) => SocketAddr::V6(
                SocketAddrV6 { ip, port, flowinfo: 0, scope_id: 0 },
            ),
        }
    }

    /// The address, with no flow label and no scope.
    pub fn new(ip: IpAddr, port: u16) -> (r: SocketAddr)
        ensures
            r == SocketAddr::spec_new(ip, port),
            r.spec_ip() == ip,
            r.spec_port() == port,
    {
        match ip {
            IpAddr::V4(ip) => SocketAddr::V4(SocketAddrV4 { ip, port }),
            IpAddr::V6(ip) => SocketAddr::V6(
                SocketAddrV6 { ip, port, flowinfo: 0, scope_id: 0 },
            ),
        }
    }

    pub fn ip(self) -> (r: IpAddr)
        ensures
            r == self.spec_ip(),
    {
        match self {
            SocketAddr::V4(a) => IpAddr::V4(a.ip),
            SocketAddr::V6(a) => IpAddr::V6(a.ip),
        }
    }

    pub fn port(self) -> (r: u16)
        ensures
            r == self.spec_port(),
    {
        match self {
            SocketAddr::V4(a) => a.port,
            SocketAddr::V6(a) => a.port,
        }
    }
}

pub open spec fn is_unspecified_ip(ip: IpAddr) -> bool {
    match ip {
        IpAddr::V4(a) => a.bits == 0,
        IpAddr::V6(a) => a.bits == 0,
    }
}

/// Whether an address is all zeros.
pub fn ip_is_unspecified(ip: IpAddr) -> (r: bool)
    ensures
        r == is_unspecified_ip(ip),
{
    match ip {
        IpAddr::V4(a) => a.bits == 0,
        IpAddr::V6(a) => a.bits == 0,
    }
}

/// How many bits the addresses of a family have.
pub open spec fn width(ip: IpAddr) -> int {
    match ip {
        IpAddr::V4(_) => 32,
        IpAddr::V6(_) => 128,
    }
}

/// An address as a number.
pub open spec fn ip_value(ip: IpAddr) -> nat {
    match ip {
        IpAddr::V4(a) => a.bits as nat,
        IpAddr::V6(a) => a.bits as nat,
    }
}

/// The first `len` bits of an address.
pub open spec fn first_bits(ip: IpAddr, len: int) -> nat {
    ip_value(ip) / pow2((width(ip) - len) as nat)
}

/// An IP network: an address and the number of bits that make the network.
#[derive(Debug, Clone, Copy, PartialEq, Eq, Hash, Structural)]
pub struct IpNet {
    pub addr: IpAddr,
    pub prefix_len: u8,
}

impl IpNet {
    /// The prefix is no longer than an address.
    pub open spec fn wf(self) -> bool {
        self.prefix_len <= width(self.addr)
    }

    /// An address is in the network: it is of the same family and starts with
    /// the same bits.
    pub open spec fn has(self, ip: IpAddr) -> bool {
        &&& width(ip) == width(self.addr)
        &&& first_bits(ip, self.prefix_len as int) == first_bits(self.addr, self.prefix_len as int)
    }

    /// `ipnet::Ipv4Net::contains` and `ipnet::Ipv6Net::contains`: whether an
    /// address lies between the first and the last address of the network, that
    /// is, starts with its bits.
    #[verifier::external_body]
    fn outside_contains(&self, ip: IpAddr) -> (r: bool)
        requires
            self.wf(),
        ensures
            r == self.has(ip),
    {
        let (len, to4, to6) = (self.prefix_len, core::net::Ipv4Addr::from, core::net::Ipv6Addr::from);
        match (self.addr, ip) {
            (IpAddr::V4(a), IpAddr::V4(b)) => ipnet::Ipv4Net::new_assert(to4(a.bits), len).contains(
                &to4(b.bits),
            ),
            (IpAddr::V6(a), IpAddr::V6(b)) => ipnet::Ipv6Net::new_assert(to6(a.bits), len).contains(
                &to6(b.bits),
            ),
            _ => false,
        }
    }

    /// Whether an address is in the network. A network with a prefix longer than
    /// an address has none.
    pub fn contains(&self, ip: IpAddr) -> (r: bool)
        ensures
            r == (self.wf() && self.has(ip)),
    {
        let fits = match self.addr {
            IpAddr::V4(_) => self.prefix_len <= 32,
            IpAddr::V6(_) => self.prefix_len <= 128,
        };
        fits && self.outside_contains(ip)
    }
}

/// The network that holds one address only.
pub open spec fn host_net_of(ip: IpAddr) -> IpNet {
    IpNet { addr: ip, prefix_len: width(ip) as u8 }
}

/// The network that holds one address only.
pub fn host_net(ip: IpAddr) -> (r: IpNet)
    ensures
        r == host_net_of(ip),
        r.wf(),
{
    let prefix_len: u8 = match ip {
        IpAddr::V4(_) => 32,
        IpAddr::V6(_) => 128,
    };
    IpNet { addr: ip, prefix_len }
}

/// A host network holds its address and no other.
pub proof fn host_net_has_one_address(ip: IpAddr, other: IpAddr)
    ensures
        host_net_of(ip).has(other) <==> other == ip,
{
    vstd::arithmetic::power2::lemma2_to64();
    assert(pow2(0) == 1);
    assert(first_bits(ip, width(ip)) == ip_value(ip)) by {
        vstd::arithmetic::div_mod::lemma_div_basics(ip_value(ip) as int);
    }
    assert(first_bits(other, width(other)) == ip_value(other)) by {
        vstd::arithmetic::div_mod::lemma_div_basics(ip_value(other) as int);
    }
}

/// No bits are the number 0.
pub proof fn lemma_no_bits(ip: IpAddr)
    ensures
        first_bits(ip, 0) == 0,
{
    vstd::arithmetic::power2::lemma2_to64();
    assert(pow2(128) == pow2(64) * pow2(64)) by {
        vstd::arithmetic::power2::lemma_pow2_adds(64, 64);
    }
    assert(0x1_0000_0000_0000_0000 * 0x1_0000_0000_0000_0000
        == 0x1_0000_0000_0000_0000_0000_0000_0000_0000) by (nonlinear_arith);
    vstd::arithmetic::div_mod::lemma_basic_div(
        ip_value(ip) as int,
        pow2(width(ip) as nat) as int,
    );
}

/// The network of no bits holds every address of its family.
pub proof fn empty_prefix_has_every_address(ip: IpAddr, other: IpAddr)
    requires
        width(ip) == width(other),
    ensures
        (IpNet { addr: ip, prefix_len: 0 }).has(other),
{
    lemma_no_bits(ip);
    lemma_no_bits(other);
}

// ---------------------------------------------------------------------------
// Addresses in text
// ---------------------------------------------------------------------------

/// The number that decimal digits denote.
pub open spec fn number(digits: Seq<char>) -> nat
    decreases digits.len(),
{
    if digits.len() == 0 {
        0
    } else {
        number(digits.drop_last()) * 10 + (digits.last() as nat - '0' as nat) as nat
    }
}

/// A number below `end` in decimal digits, without needless zeros in front.
pub open spec fn is_decimal(digits: Seq<char>, end: nat) -> bool {
    &&& digits.len() > 0
    &&& forall|i: int| 0 <= i < digits.len() ==> text::is_digit(#[trigger] digits[i])
    &&& digits.len() == 1 || digits[0] != '0'
    &&& number(digits) < end
}

/// A text is four numbers with dots between them, and they are the octets of an
/// address.
pub open spec fn is_v4_of(
    s: Seq<char>,
    a: Ipv4Addr,
    w: Seq<char>,
    x: Seq<char>,
    y: Seq<char>,
    z: Seq<char>,
) -> bool {
    &&& is_decimal(w, 256) && is_decimal(x, 256) && is_decimal(y, 256) && is_decimal(z, 256)
    &&& s == w + seq!['.'] + x + seq!['.'] + y + seq!['.'] + z
    &&& a.bits == number(w) * 0x100_0000 + number(x) * 0x1_0000 + number(y) * 0x100 + number(z)
}

/// A text is an IPv4 address in dotted decimal notation.
pub open spec fn is_v4_text(s: Seq<char>, a: Ipv4Addr) -> bool {
    exists|w: Seq<char>, x: Seq<char>, y: Seq<char>, z: Seq<char>| #[trigger]
        is_v4_of(s, a, w, x, y, z)
}

/// A text is an IPv4 address `t`, a slash and the length `d` of a prefix.
pub open spec fn is_v4_net_of(s: Seq<char>, a: Ipv4Addr, len: u8, t: Seq<char>, d: Seq<char>) -> bool {
    &&& is_v4_text(t, a)
    &&& is_decimal(d, 33)
    &&& s == t + seq!['/'] + d
    &&& len == number(d)
}

/// A text is an IPv4 network in CIDR notation.
pub open spec fn is_v4_net_text(s: Seq<char>, a: Ipv4Addr, len: u8) -> bool {
    exists|t: Seq<char>, d: Seq<char>| #[trigger] is_v4_net_of(s, a, len, t, d)
}

/// The address that `core::net::IpAddr::from_str` reads in a text.
pub uninterp spec fn ip_in_text(s: Seq<char>) -> Option<IpAddr>;

/// `core::net::IpAddr::from_str`, which reads an IPv4 address in dotted decimal
/// notation as that address.
#[verifier::external_body]
pub(crate) fn parse_ip(s: &str) -> (r: Option<IpAddr>)
    ensures
        r == ip_in_text(s@),
        forall|a: Ipv4Addr| #[trigger] is_v4_text(s@, a) ==> r == Some(IpAddr::V4(a)),
{
    match core::net::IpAddr::from_str(s).ok()? {
        core::net::IpAddr::V4(a) => Some(IpAddr::V4(Ipv4Addr { bits: a.to_bits() })),
        core::net::IpAddr::V6(a) => Some(IpAddr::V6(Ipv6Addr { bits: a.to_bits() })),
    }
}

/// The socket address that `core::net::SocketAddr::from_str` reads in a text.
pub uninterp spec fn socket_addr_in_text(s: Seq<char>) -> Option<SocketAddr>;

/// `core::net::SocketAddr::from_str`.
#[verifier::external_body]
pub(crate) fn parse_socket_addr(s: &str) -> (r: Option<SocketAddr>)
    ensures
        r == socket_addr_in_text(s@),
{
    match core::net::SocketAddr::from_str(s).ok()? {
        core::net::SocketAddr::V4(a) => {
            let ip = Ipv4Addr { bits: a.ip().to_bits() };
            Some(SocketAddr::V4(SocketAddrV4 { ip, port: a.port() }))
        },
        core::net::SocketAddr::V6(a) => {
            let ip = Ipv6Addr { bits: a.ip().to_bits() };
            let (flowinfo, scope_id) = (a.flowinfo(), a.scope_id());
            Some(SocketAddr::V6(SocketAddrV6 { ip, port: a.port(), flowinfo, scope_id }))
        },
    }
}

/// The network that `ipnet::IpNet::from_str` reads in a text.
pub uninterp spec fn net_in_text(s: Seq<char>) -> Option<IpNet>;

/// `ipnet::IpNet::from_str`, which takes no prefix longer than an address, and
/// nothing without a slash. An IPv4 network in CIDR notation it reads as that
/// network.
#[verifier::external_body]
pub(crate) fn parse_net(s: &str) -> (r: Option<IpNet>)
    ensures
        r == net_in_text(s@),
        r matches Some(n) ==> n.wf(),
        r is Some ==> s@.contains('/'),
        forall|a: Ipv4Addr, len: u8| #[trigger]
            is_v4_net_text(s@, a, len) ==> r == Some(
                IpNet { addr: IpAddr::V4(a), prefix_len: len },
            ),
{
    match ipnet::IpNet::from_str(s).ok()? {
        ipnet::IpNet::V4(n) => Some(
            IpNet {
                addr: IpAddr::V4(Ipv4Addr { bits: n.addr().to_bits() }),
                prefix_len: n.prefix_len(),
            },
        ),
        ipnet::IpNet::V6(n) => Some(
            IpNet {
                addr: IpAddr::V6(Ipv6Addr { bits: n.addr().to_bits() }),
                prefix_len: n.prefix_len(),
            },
        ),
    }
}

} // verus!
