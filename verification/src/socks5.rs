//! SOCKS5: the datagrams of its UDP relay, and the dialog that opens a
//! connection or a relay, as a state machine.

use crate::bytes;
use crate::net;
use crate::net::{IpAddr, Ipv4Addr, Ipv6Addr, SocketAddr, SocketAddrV4, SocketAddrV6};
use crate::text;
use crate::util;
use vstd::prelude::*;
use vstd::slice::slice_subrange;
use vstd::string::*;
use vstd::utf8::*;

verus! {

// ---------------------------------------------------------------------------
// Addresses on the wire
// ---------------------------------------------------------------------------

pub enum Socks5Target<'a> {
    Ip(SocketAddr),
    Domain(&'a str, u16),
}

pub enum Socks5UdpTarget<'a> {
    Ip(SocketAddr),
    Domain { host: &'a str, port: u16 },
}

/// A target, with its host by the bytes that are sent.
pub enum TargetView {
    Ip(SocketAddr),
    Domain(Seq<u8>, u16),
}

impl<'a> View for Socks5Target<'a> {
    type V = TargetView;

    open spec fn view(&self) -> TargetView {
        match *self {
            Socks5Target::Ip(a) => TargetView::Ip(a),
            Socks5Target::Domain(host, port) => TargetView::Domain(encode_utf8(host@), port),
        }
    }
}

impl<'a> View for Socks5UdpTarget<'a> {
    type V = TargetView;

    open spec fn view(&self) -> TargetView {
        match *self {
            Socks5UdpTarget::Ip(a) => TargetView::Ip(a),
            Socks5UdpTarget::Domain { host, port } => TargetView::Domain(encode_utf8(host@), port),
        }
    }
}

/// A host name can be sent: its length fits in a byte and is not zero.
pub open spec fn is_sendable_host(host: Seq<u8>) -> bool {
    1 <= host.len() <= 255
}

/// A target can be sent.
pub open spec fn is_sendable(target: TargetView) -> bool {
    target matches TargetView::Domain(host, _) ==> is_sendable_host(host)
}

/// An IP address on the wire: its type, its octets and the port.
pub open spec fn ip_field(ip: IpAddr, port: u16) -> Seq<u8> {
    match ip {
        IpAddr::V4(a) => seq![1u8] + bytes::be_bytes(a.bits as nat, 4) + bytes::be_bytes(
            port as nat,
            2,
        ),
        IpAddr::V6(a) => seq![4u8] + bytes::be_bytes(a.bits as nat, 16) + bytes::be_bytes(
            port as nat,
            2,
        ),
    }
}

/// A target on the wire: an IP address, or type 3, the length of the host, the
/// host and the port.
pub open spec fn address_field(target: TargetView) -> Seq<u8> {
    match target {
        TargetView::Ip(a) => ip_field(a.spec_ip(), a.spec_port()),
        TargetView::Domain(host, port) => seq![3u8, host.len() as u8] + host + bytes::be_bytes(
            port as nat,
            2,
        ),
    }
}

fn append_ip(out: &mut Vec<u8>, ip: IpAddr, port: u16)
    ensures
        final(out)@ == old(out)@ + ip_field(ip, port),
{
    let ghost start = out@;
    match ip {
        IpAddr::V4(a) => {
            out.push(1);
            bytes::append_be(out, a.bits as u128, 4);
        },
        IpAddr::V6(a) => {
            out.push(4);
            bytes::append_be(out, a.bits, 16);
        },
    }
    bytes::append_be(out, port as u128, 2);
    assert(out@ =~= start + ip_field(ip, port));
}

/// Appends a host and a port; nothing, and `false`, when the host cannot be sent.
fn append_domain(out: &mut Vec<u8>, host: &str, port: u16) -> (r: bool)
    ensures
        r == is_sendable_host(encode_utf8(host@)),
        final(out)@ == if r {
            old(out)@ + address_field(TargetView::Domain(encode_utf8(host@), port))
        } else {
            old(out)@
        },
{
    let ghost start = out@;
    let host_bytes = host.as_bytes();
    if host_bytes.len() == 0 || host_bytes.len() > 255 {
        return false;
    }
    out.push(3);
    out.push(host_bytes.len() as u8);
    bytes::append_all(out, host_bytes);
    bytes::append_be(out, port as u128, 2);
    assert(out@ =~= start + address_field(TargetView::Domain(encode_utf8(host@), port)));
    true
}

// ---------------------------------------------------------------------------
// Datagrams
// ---------------------------------------------------------------------------

/// A datagram on its way to the relay: three zero bytes, the target and the
/// payload.
pub open spec fn udp_packet(target: TargetView, payload: Seq<u8>) -> Seq<u8> {
    seq![0u8, 0u8, 0u8] + address_field(target) + payload
}

/// The host of a target cannot be sent.
#[derive(Debug, Clone, Copy, PartialEq, Eq, Structural)]
pub struct DomainLengthError {
    pub len: usize,
}

/// A datagram for the relay. A host must have 1 to 255 bytes.
pub fn build_socks5_udp_packet(target: Socks5UdpTarget<'_>, payload: &[u8]) -> (r: Result<
    Vec<u8>,
    DomainLengthError,
>)
    ensures
        match r {
            Ok(pkt) => is_sendable(target@) && pkt@ == udp_packet(target@, payload@),
            Err(e) => !is_sendable(target@) && (target@ matches TargetView::Domain(host, _)
                && e.len == host.len()),
        },
{
    let mut out: Vec<u8> = vec![0, 0, 0];
    assert(out@ =~= seq![0u8, 0u8, 0u8]);
    match target {
        Socks5UdpTarget::Ip(a) => {
            append_ip(&mut out, a.ip(), a.port());
        },
        Socks5UdpTarget::Domain { host, port } => {
            if !append_domain(&mut out, host, port) {
                return Err(DomainLengthError { len: host.as_bytes().len() });
            }
        },
    }
    bytes::append_all(&mut out, payload);
    Ok(out)
}

/// Why a datagram from the relay is refused.
#[derive(Debug, Clone, Copy, PartialEq, Eq, Structural)]
pub enum UdpPacketError {
    TooShort,
    Reserved,
    Fragmented,
    ShortIpv4,
    ShortIpv6,
    ShortDomain,
    ShortDomainAddress,
    AddressType { atyp: u8 },
}

/// The source and the payload of a datagram from the relay. A source that is
/// named by host counts as `fallback`.
pub open spec fn read_udp_packet(pkt: Seq<u8>, fallback: SocketAddr) -> Result<
    (SocketAddr, Seq<u8>),
    UdpPacketError,
> {
    if pkt.len() < 4 {
        Err(UdpPacketError::TooShort)
    } else if pkt[0] != 0 || pkt[1] != 0 {
        Err(UdpPacketError::Reserved)
    } else if pkt[2] != 0 {
        Err(UdpPacketError::Fragmented)
    } else if pkt[3] == 1 {
        if pkt.len() < 10 {
            Err(UdpPacketError::ShortIpv4)
        } else {
            let bits = bytes::be_value(pkt.subrange(4, 8)) as u32;
            let port = bytes::be_value(pkt.subrange(8, 10)) as u16;
            Ok((SocketAddr::spec_new(IpAddr::V4(Ipv4Addr { bits }), port), pkt.skip(10)))
        }
    } else if pkt[3] == 4 {
        if pkt.len() < 22 {
            Err(UdpPacketError::ShortIpv6)
        } else {
            let bits = bytes::be_value(pkt.subrange(4, 20)) as u128;
            let port = bytes::be_value(pkt.subrange(20, 22)) as u16;
            Ok((SocketAddr::spec_new(IpAddr::V6(Ipv6Addr { bits }), port), pkt.skip(22)))
        }
    } else if pkt[3] == 3 {
        if pkt.len() < 5 {
            Err(UdpPacketError::ShortDomain)
        } else if pkt.len() < 5 + pkt[4] + 2 {
            Err(UdpPacketError::ShortDomainAddress)
        } else {
            Ok((fallback, pkt.skip(5 + pkt[4] + 2)))
        }
    } else {
        Err(UdpPacketError::AddressType { atyp: pkt[3] })
    }
}

pub open spec fn packet_result(r: Result<(SocketAddr, &[u8]), UdpPacketError>) -> Result<
    (SocketAddr, Seq<u8>),
    UdpPacketError,
> {
    match r {
        Ok((src, payload)) => Ok((src, payload@)),
        Err(e) => Err(e),
    }
}

fn read_v4(b: &[u8], at: usize) -> (r: SocketAddr)
    requires
        at + 6 <= b@.len(),
    ensures
        r == SocketAddr::spec_new(
            IpAddr::V4(
                Ipv4Addr { bits: bytes::be_value(b@.subrange(at as int, at + 4)) as u32 },
            ),
            bytes::be_value(b@.subrange(at + 4, at + 6)) as u16,
        ),
{
    proof {
        bytes::lemma_be_value_bound(b@.subrange(at as int, at + 4));
        bytes::lemma_be_value_bound(b@.subrange(at + 4, at + 6));
        bytes::lemma_pow256_values();
    }
    assert(at + 6 <= b.len());
    let bits = bytes::read_be(b, at, 4) as u32;
    let port = bytes::read_be(b, at + 4, 2) as u16;
    SocketAddr::new(IpAddr::V4(Ipv4Addr { bits }), port)
}

fn read_v6(b: &[u8], at: usize) -> (r: SocketAddr)
    requires
        at + 18 <= b@.len(),
    ensures
        r == SocketAddr::spec_new(
            IpAddr::V6(
                Ipv6Addr { bits: bytes::be_value(b@.subrange(at as int, at + 16)) as u128 },
            ),
            bytes::be_value(b@.subrange(at + 16, at + 18)) as u16,
        ),
{
    proof {
        bytes::lemma_be_value_bound(b@.subrange(at as int, at + 16));
        bytes::lemma_be_value_bound(b@.subrange(at + 16, at + 18));
        bytes::lemma_pow256_values();
    }
    assert(at + 18 <= b.len());
    let bits = bytes::read_be(b, at, 16);
    let port = bytes::read_be(b, at + 16, 2) as u16;
    SocketAddr::new(IpAddr::V6(Ipv6Addr { bits }), port)
}

/// The source and the payload of a datagram from the relay.
pub fn parse_socks5_udp_packet_with_fallback_src(pkt: &[u8], fallback_src: SocketAddr) -> (r:
    Result<(SocketAddr, &[u8]), UdpPacketError>)
    ensures
        packet_result(r) == read_udp_packet(pkt@, fallback_src),
{
    if pkt.len() < 4 {
        return Err(UdpPacketError::TooShort);
    }
    if pkt[0] != 0 || pkt[1] != 0 {
        return Err(UdpPacketError::Reserved);
    }
    if pkt[2] != 0 {
        return Err(UdpPacketError::Fragmented);
    }
    let atyp = pkt[3];
    let (src, off): (SocketAddr, usize) = if atyp == 1 {
        if pkt.len() < 10 {
            return Err(UdpPacketError::ShortIpv4);
        }
        (read_v4(pkt, 4), 10)
    } else if atyp == 4 {
        if pkt.len() < 22 {
            return Err(UdpPacketError::ShortIpv6);
        }
        (read_v6(pkt, 4), 22)
    } else if atyp == 3 {
        if pkt.len() < 5 {
            return Err(UdpPacketError::ShortDomain);
        }
        let name_len = pkt[4] as usize;
        if pkt.len() < 5 + name_len + 2 {
            return Err(UdpPacketError::ShortDomainAddress);
        }
        (fallback_src, 5 + name_len + 2)
    } else {
        return Err(UdpPacketError::AddressType { atyp });
    };
    let payload = slice_subrange(pkt, off, pkt.len());
    assert(payload@ =~= pkt@.skip(off as int));
    Ok((src, payload))
}

/// A datagram with an IP address is read back as its address, without flow label
/// and scope, and its payload.
pub proof fn ip_packet_round_trip(addr: SocketAddr, payload: Seq<u8>, fallback: SocketAddr)
    ensures
        read_udp_packet(udp_packet(TargetView::Ip(addr), payload), fallback) == Ok::<
            (SocketAddr, Seq<u8>),
            UdpPacketError,
        >((SocketAddr::spec_new(addr.spec_ip(), addr.spec_port()), payload)),
{
    let pkt = udp_packet(TargetView::Ip(addr), payload);
    let port = bytes::be_bytes(addr.spec_port() as nat, 2);
    bytes::lemma_be_bytes_len(addr.spec_port() as nat, 2);
    bytes::lemma_pow256_values();
    bytes::be_value_of_be_bytes(addr.spec_port() as nat, 2);
    match addr.spec_ip() {
        IpAddr::V4(a) => {
            let ip = bytes::be_bytes(a.bits as nat, 4);
            bytes::lemma_be_bytes_len(a.bits as nat, 4);
            bytes::be_value_of_be_bytes(a.bits as nat, 4);
            assert(pkt[3] == 1);
            assert(pkt.subrange(4, 8) =~= ip);
            assert(pkt.subrange(8, 10) =~= port);
            assert(pkt.skip(10) =~= payload);
        },
        IpAddr::V6(a) => {
            let ip = bytes::be_bytes(a.bits as nat, 16);
            bytes::lemma_be_bytes_len(a.bits as nat, 16);
            bytes::be_value_of_be_bytes(a.bits as nat, 16);
            assert(pkt[3] == 4);
            assert(pkt.subrange(4, 20) =~= ip);
            assert(pkt.subrange(20, 22) =~= port);
            assert(pkt.skip(22) =~= payload);
        },
    }
}

/// A datagram with a host is read back as the fallback address and its payload.
pub proof fn domain_packet_round_trip(
    host: Seq<u8>,
    port: u16,
    payload: Seq<u8>,
    fallback: SocketAddr,
)
    requires
        is_sendable_host(host),
    ensures
        read_udp_packet(udp_packet(TargetView::Domain(host, port), payload), fallback) == Ok::<
            (SocketAddr, Seq<u8>),
            UdpPacketError,
        >((fallback, payload)),
{
    let pkt = udp_packet(TargetView::Domain(host, port), payload);
    bytes::lemma_be_bytes_len(port as nat, 2);
    assert(pkt[3] == 3);
    assert(pkt[4] == host.len() as u8);
    assert(pkt.skip((5 + host.len() + 2) as int) =~= payload);
}

/// Datagrams for the relay, byte by byte: two reserved bytes, no fragment, the type
/// of the address, the address with its port, and the payload as it is.
pub proof fn datagrams_on_the_wire(v4: u32, v6: u128, host: Seq<u8>, port: u16, payload: Seq<u8>)
    requires
        host.len() <= 255,
    ensures
        udp_packet(
            TargetView::Ip(SocketAddr::V4(SocketAddrV4 { ip: Ipv4Addr { bits: v4 }, port })),
            payload,
        ) == seq![0u8, 0, 0, 1] + bytes::four(v4 as int) + bytes::two(port as int) + payload,
        udp_packet(
            TargetView::Ip(
                SocketAddr::V6(
                    SocketAddrV6 { ip: Ipv6Addr { bits: v6 }, port, flowinfo: 0, scope_id: 0 },
                ),
            ),
            payload,
        ) == seq![0u8, 0, 0, 4] + bytes::be_bytes(v6 as nat, 16) + bytes::two(port as int)
            + payload,
        udp_packet(TargetView::Domain(host, port), payload) == seq![0u8, 0, 0, 3, host.len() as u8]
            + host + bytes::two(port as int) + payload,
{
    bytes::numbers_are_sent_highest_byte_first(port as nat, v4 as nat);
    assert(udp_packet(
        TargetView::Ip(SocketAddr::V4(SocketAddrV4 { ip: Ipv4Addr { bits: v4 }, port })),
        payload,
    ) =~= seq![0u8, 0, 0, 1] + bytes::four(v4 as int) + bytes::two(port as int) + payload);
    assert(udp_packet(
        TargetView::Ip(
            SocketAddr::V6(
                SocketAddrV6 { ip: Ipv6Addr { bits: v6 }, port, flowinfo: 0, scope_id: 0 },
            ),
        ),
        payload,
    ) =~= seq![0u8, 0, 0, 4] + bytes::be_bytes(v6 as nat, 16) + bytes::two(port as int) + payload);
    assert(udp_packet(TargetView::Domain(host, port), payload) =~= seq![
        0u8,
        0,
        0,
        3,
        host.len() as u8,
    ] + host + bytes::two(port as int) + payload);
}

/// A datagram from the relay is taken exactly when it has two zero bytes, no
/// fragment number, and a whole address of a type that there is. A datagram of
/// another form is refused for what is wrong with it first.
pub proof fn odd_datagrams_are_refused(pkt: Seq<u8>, fallback: SocketAddr)
    ensures
        read_udp_packet(pkt, fallback) is Ok <==> {
            &&& pkt.len() >= 4 && pkt[0] == 0 && pkt[1] == 0 && pkt[2] == 0
            &&& {
                ||| pkt[3] == 1 && pkt.len() >= 10
                ||| pkt[3] == 4 && pkt.len() >= 22
                ||| pkt[3] == 3 && pkt.len() >= 7 && pkt.len() >= 7 + pkt[4]
            }
        },
        pkt.len() < 4 ==> read_udp_packet(pkt, fallback) == Err::<(SocketAddr, Seq<u8>), _>(
            UdpPacketError::TooShort,
        ),
        pkt.len() >= 4 && (pkt[0] != 0 || pkt[1] != 0) ==> read_udp_packet(pkt, fallback) == Err::<
            (SocketAddr, Seq<u8>),
            _,
        >(UdpPacketError::Reserved),
        pkt.len() >= 4 && pkt[0] == 0 && pkt[1] == 0 && pkt[2] != 0 ==> read_udp_packet(
            pkt,
            fallback,
        ) == Err::<(SocketAddr, Seq<u8>), _>(UdpPacketError::Fragmented),
        pkt.len() >= 4 && pkt[0] == 0 && pkt[1] == 0 && pkt[2] == 0 && pkt[3] != 1 && pkt[3] != 3
            && pkt[3] != 4 ==> read_udp_packet(pkt, fallback) == Err::<(SocketAddr, Seq<u8>), _>(
            UdpPacketError::AddressType { atyp: pkt[3] },
        ),
{
}

/// A datagram from the relay gives its source and its payload: the address behind
/// the type, or the fallback where a host is named, whatever the host and its port.
pub proof fn datagrams_from_the_relay_are_read(
    v4: u32,
    v6: u128,
    host: Seq<u8>,
    port: u16,
    payload: Seq<u8>,
    fallback: SocketAddr,
)
    requires
        host.len() <= 255,
    ensures
        read_udp_packet(
            seq![0u8, 0, 0, 1] + bytes::four(v4 as int) + bytes::two(port as int) + payload,
            fallback,
        ) == Ok::<_, UdpPacketError>(
            (SocketAddr::V4(SocketAddrV4 { ip: Ipv4Addr { bits: v4 }, port }), payload),
        ),
        read_udp_packet(
            seq![0u8, 0, 0, 4] + bytes::be_bytes(v6 as nat, 16) + bytes::two(port as int) + payload,
            fallback,
        ) == Ok::<_, UdpPacketError>(
            (
                SocketAddr::V6(
                    SocketAddrV6 { ip: Ipv6Addr { bits: v6 }, port, flowinfo: 0, scope_id: 0 },
                ),
                payload,
            ),
        ),
        read_udp_packet(
            seq![0u8, 0, 0, 3, host.len() as u8] + host + bytes::two(port as int) + payload,
            fallback,
        ) == Ok::<_, UdpPacketError>((fallback, payload)),
{
    datagrams_on_the_wire(v4, v6, host, port, payload);
    ip_packet_round_trip(
        SocketAddr::V4(SocketAddrV4 { ip: Ipv4Addr { bits: v4 }, port }),
        payload,
        fallback,
    );
    ip_packet_round_trip(
        SocketAddr::V6(SocketAddrV6 { ip: Ipv6Addr { bits: v6 }, port, flowinfo: 0, scope_id: 0 }),
        payload,
        fallback,
    );
    let pkt = seq![0u8, 0, 0, 3, host.len() as u8] + host + bytes::two(port as int) + payload;
    assert(pkt[4] == host.len());
    assert(pkt.skip((5 + host.len() + 2) as int) =~= payload);
}

// ---------------------------------------------------------------------------
// The dialog
// ---------------------------------------------------------------------------

/// Why the server, or the request, ends a dialog.
#[derive(Debug, Clone, Copy, PartialEq, Eq, Structural)]
pub enum Socks5Error {
    /// User name or password are empty or longer than 255 bytes.
    CredentialLength,
    /// The host of the target is empty or longer than 255 bytes.
    DomainLength,
    /// The reply to the offered methods is of another version.
    MethodVersion,
    /// The server chose no authentication where a password is required.
    NoAuthChosen,
    /// The server chose a method that was not offered.
    AuthMethod { method: u8 },
    /// The password was refused.
    AuthRejected,
    /// The server does not do without authentication.
    NoAuthFailed,
    /// The reply to the request is of another version.
    ReplyVersion { version: u8 },
    /// The request was refused.
    ReplyCode { code: u8 },
    /// The reserved byte of the reply is not zero.
    ReplyReserved { byte: u8 },
    /// The address in the reply is of an unknown type.
    ReplyAddressType { atyp: u8 },
}

/// What a dialog waits for.
#[derive(Debug, Clone, Copy, PartialEq, Eq, Structural)]
pub enum Phase {
    /// The method that the server chose.
    Method,
    /// The verdict on the password.
    Password,
    /// The first four bytes of the reply.
    ReplyHead,
    /// The length of the host in the reply.
    ReplyHostLen,
    /// The rest of the reply, with an address of a type.
    ReplyRest { atyp: u8, len: usize },
    /// Nothing any more.
    Closed,
}

/// The address that a reply carries.
pub enum ReplyAddr {
    Ip(SocketAddr),
    Domain { host: Vec<u8>, port: u16 },
}

/// The view of [`ReplyAddr`].
pub enum ReplyView {
    Ip(SocketAddr),
    Domain(Seq<u8>, u16),
}

impl View for ReplyAddr {
    type V = ReplyView;

    open spec fn view(&self) -> ReplyView {
        match *self {
            ReplyAddr::Ip(a) => ReplyView::Ip(a),
            ReplyAddr::Domain { host, port } => ReplyView::Domain(host@, port),
        }
    }
}

/// What the owner of the connection is to do next.
pub enum DialogAction {
    /// Send the bytes, then read as many as expected.
    Exchange { send: Vec<u8>, expect: usize },
    /// Read as many bytes as expected.
    Read { expect: usize },
    /// The server accepted the request.
    Accepted(ReplyAddr),
    Failed(Socks5Error),
    /// Nothing: the dialog is over.
    Ended,
}

/// The view of [`DialogAction`].
pub enum Action {
    Exchange { send: Seq<u8>, expect: int },
    Read { expect: int },
    Accepted(ReplyView),
    Failed(Socks5Error),
    Ended,
}

impl View for DialogAction {
    type V = Action;

    open spec fn view(&self) -> Action {
        match *self {
            DialogAction::Exchange { send, expect } => Action::Exchange {
                send: send@,
                expect: expect as int,
            },
            DialogAction::Read { expect } => Action::Read { expect: expect as int },
            DialogAction::Accepted(a) => Action::Accepted(a@),
            DialogAction::Failed(e) => Action::Failed(e),
            DialogAction::Ended => Action::Ended,
        }
    }
}

/// A dialog with a SOCKS5 server: authentication, one request, its reply.
pub struct Socks5Dialog {
    phase: Phase,
    /// The message with user name and password, when there are any.
    password: Option<Vec<u8>>,
    /// The request, unless its target cannot be sent.
    request: Option<Vec<u8>>,
}

/// The view of [`Socks5Dialog`].
pub struct Dialog {
    pub phase: Phase,
    pub password: Option<Seq<u8>>,
    pub request: Option<Seq<u8>>,
}

pub open spec fn opt_view(o: Option<Vec<u8>>) -> Option<Seq<u8>> {
    match o {
        Some(v) => Some(v@),
        None => None,
    }
}

impl View for Socks5Dialog {
    type V = Dialog;

    closed spec fn view(&self) -> Dialog {
        Dialog {
            phase: self.phase,
            password: opt_view(self.password),
            request: opt_view(self.request),
        }
    }
}

/// The bytes of a user name and a password can be sent.
pub open spec fn are_sendable_credentials(user: Seq<u8>, pass: Seq<u8>) -> bool {
    1 <= user.len() <= 255 && 1 <= pass.len() <= 255
}

/// The message with user name and password.
pub open spec fn password_message(user: Seq<u8>, pass: Seq<u8>) -> Seq<u8> {
    seq![1u8, user.len() as u8] + user + seq![pass.len() as u8] + pass
}

/// The methods that a dialog offers: with a password none and password, else
/// none.
pub open spec fn greeting(with_password: bool) -> Seq<u8> {
    if with_password {
        seq![5u8, 2u8, 0u8, 2u8]
    } else {
        seq![5u8, 1u8, 0u8]
    }
}

/// A request for a connection.
pub open spec fn connect_message(target: TargetView) -> Seq<u8> {
    seq![5u8, 1u8, 0u8] + address_field(target)
}

/// A request for a UDP relay, for any address of the family of the server.
pub open spec fn associate_message(server: SocketAddr) -> Seq<u8> {
    seq![5u8, 3u8, 0u8] + address_field(TargetView::Ip(util::unspecified_for(server)))
}

impl Dialog {
    /// How many bytes the dialog waits for.
    pub open spec fn expected(self) -> int {
        match self.phase {
            Phase::Method => 2,
            Phase::Password => 2,
            Phase::ReplyHead => 4,
            Phase::ReplyHostLen => 1,
            Phase::ReplyRest { len, .. } => len as int,
            Phase::Closed => 0,
        }
    }

    /// The rest of a reply has the length that its address has.
    pub open spec fn wf(self) -> bool {
        self.phase matches Phase::ReplyRest { atyp, len } ==> {
            ||| atyp == 1 && len == 6
            ||| atyp == 4 && len == 18
            ||| atyp == 3 && 2 <= len <= 257
        }
    }

    pub open spec fn closed(self) -> Dialog {
        Dialog { phase: Phase::Closed, ..self }
    }

    pub open spec fn fail(self, e: Socks5Error) -> (Dialog, Action) {
        (self.closed(), Action::Failed(e))
    }

    /// The server is content: the request follows.
    pub open spec fn authenticated(self) -> (Dialog, Action) {
        match self.request {
            Some(send) => (
                Dialog { phase: Phase::ReplyHead, ..self },
                Action::Exchange { send, expect: 4 },
            ),
            None => self.fail(Socks5Error::DomainLength),
        }
    }

    pub open spec fn on_method(self, b: Seq<u8>) -> (Dialog, Action) {
        match self.password {
            None => if b[0] == 5 && b[1] == 0 {
                self.authenticated()
            } else {
                self.fail(Socks5Error::NoAuthFailed)
            },
            Some(send) => if b[0] != 5 {
                self.fail(Socks5Error::MethodVersion)
            } else if b[1] == 0 {
                self.fail(Socks5Error::NoAuthChosen)
            } else if b[1] == 2 {
                (
                    Dialog { phase: Phase::Password, ..self },
                    Action::Exchange { send, expect: 2 },
                )
            } else {
                self.fail(Socks5Error::AuthMethod { method: b[1] })
            },
        }
    }

    pub open spec fn on_password(self, b: Seq<u8>) -> (Dialog, Action) {
        if b[0] == 1 && b[1] == 0 {
            self.authenticated()
        } else {
            self.fail(Socks5Error::AuthRejected)
        }
    }

    pub open spec fn on_reply_head(self, b: Seq<u8>) -> (Dialog, Action) {
        if b[0] != 5 {
            self.fail(Socks5Error::ReplyVersion { version: b[0] })
        } else if b[1] != 0 {
            self.fail(Socks5Error::ReplyCode { code: b[1] })
        } else if b[2] != 0 {
            self.fail(Socks5Error::ReplyReserved { byte: b[2] })
        } else if b[3] == 1 {
            (
                Dialog { phase: Phase::ReplyRest { atyp: 1, len: 6 }, ..self },
                Action::Read { expect: 6 },
            )
        } else if b[3] == 4 {
            (
                Dialog { phase: Phase::ReplyRest { atyp: 4, len: 18 }, ..self },
                Action::Read { expect: 18 },
            )
        } else if b[3] == 3 {
            (Dialog { phase: Phase::ReplyHostLen, ..self }, Action::Read { expect: 1 })
        } else {
            self.fail(Socks5Error::ReplyAddressType { atyp: b[3] })
        }
    }

    pub open spec fn on_reply_rest(self, atyp: u8, b: Seq<u8>) -> (Dialog, Action) {
        let port = bytes::be_value(b.skip(b.len() - 2)) as u16;
        let host = b.take(b.len() - 2);
        let addr = if atyp == 1 {
            ReplyView::Ip(
                SocketAddr::spec_new(
                    IpAddr::V4(Ipv4Addr { bits: bytes::be_value(host) as u32 }),
                    port,
                ),
            )
        } else if atyp == 4 {
            ReplyView::Ip(
                SocketAddr::spec_new(
                    IpAddr::V6(Ipv6Addr { bits: bytes::be_value(host) as u128 }),
                    port,
                ),
            )
        } else {
            ReplyView::Domain(host, port)
        };
        (self.closed(), Action::Accepted(addr))
    }

    /// What the dialog does with the bytes that it waited for.
    pub open spec fn step(self, b: Seq<u8>) -> (Dialog, Action) {
        match self.phase {
            Phase::Method => self.on_method(b),
            Phase::Password => self.on_password(b),
            Phase::ReplyHead => self.on_reply_head(b),
            Phase::ReplyHostLen => {
                let len = (b[0] + 2) as usize;
                (
                    Dialog { phase: Phase::ReplyRest { atyp: 3, len }, ..self },
                    Action::Read { expect: len as int },
                )
            },
            Phase::ReplyRest { atyp, .. } => self.on_reply_rest(atyp, b),
            Phase::Closed => (self, Action::Ended),
        }
    }
}

/// The request for a connection to a target, if it can be sent.
pub fn connect_request(target: Socks5Target<'_>) -> (r: Option<Vec<u8>>)
    ensures
        opt_view(r) == if is_sendable(target@) {
            Some(connect_message(target@))
        } else {
            None
        },
{
    let mut req: Vec<u8> = vec![5, 1, 0];
    assert(req@ =~= seq![5u8, 1u8, 0u8]);
    match target {
        Socks5Target::Ip(a) => {
            append_ip(&mut req, a.ip(), a.port());
        },
        Socks5Target::Domain(host, port) => {
            if !append_domain(&mut req, host, port) {
                return None;
            }
        },
    }
    Some(req)
}

/// The request for a UDP relay at a server.
pub fn associate_request(server: SocketAddr) -> (r: Vec<u8>)
    ensures
        r@ == associate_message(server),
{
    let mut req: Vec<u8> = vec![5, 3, 0];
    assert(req@ =~= seq![5u8, 3u8, 0u8]);
    let any = util::unspecified_addr_for(server);
    append_ip(&mut req, any.ip(), any.port());
    req
}

/// The bytes of the credentials, where there are any.
pub open spec fn credential_bytes(creds: Option<(&str, &str)>) -> Option<(Seq<u8>, Seq<u8>)> {
    match creds {
        Some((user, pass)) => Some((encode_utf8(user@), encode_utf8(pass@))),
        None => None,
    }
}

impl Socks5Dialog {
    /// Starts a dialog that will make a request. Credentials that cannot be sent
    /// end it before it starts.
    pub fn start(creds: Option<(&str, &str)>, request: Option<Vec<u8>>) -> (r: Result<
        (Socks5Dialog, DialogAction),
        Socks5Error,
    >)
        ensures
            match (credential_bytes(creds), r) {
                (Some((user, pass)), Ok((dialog, action))) => {
                    &&& are_sendable_credentials(user, pass)
                    &&& dialog@.wf()
                    &&& dialog@ == (Dialog {
                        phase: Phase::Method,
                        password: Some(password_message(user, pass)),
                        request: opt_view(request),
                    })
                    &&& action@ == (Action::Exchange { send: greeting(true), expect: 2 })
                },
                (None, Ok((dialog, action))) => {
                    &&& dialog@.wf()
                    &&& dialog@ == (Dialog {
                        phase: Phase::Method,
                        password: None,
                        request: opt_view(request),
                    })
                    &&& action@ == (Action::Exchange { send: greeting(false), expect: 2 })
                },
                (Some((user, pass)), Err(e)) => e == Socks5Error::CredentialLength
                    && !are_sendable_credentials(user, pass),
                (None, Err(_)) => false,
            },
    {
        match creds {
            Some((user, pass)) => {
                let user = user.as_bytes();
                let pass = pass.as_bytes();
                if user.len() == 0 || user.len() > 255 || pass.len() == 0 || pass.len() > 255 {
                    return Err(Socks5Error::CredentialLength);
                }
                let mut msg: Vec<u8> = Vec::new();
                msg.push(1);
                msg.push(user.len() as u8);
                bytes::append_all(&mut msg, user);
                msg.push(pass.len() as u8);
                bytes::append_all(&mut msg, pass);
                assert(msg@ =~= password_message(user@, pass@));
                let send: Vec<u8> = vec![5, 2, 0, 2];
                assert(send@ =~= greeting(true));
                Ok(
                    (
                        Socks5Dialog { phase: Phase::Method, password: Some(msg), request },
                        DialogAction::Exchange { send, expect: 2 },
                    ),
                )
            },
            None => {
                let send: Vec<u8> = vec![5, 1, 0];
                assert(send@ =~= greeting(false));
                Ok(
                    (
                        Socks5Dialog { phase: Phase::Method, password: None, request },
                        DialogAction::Exchange { send, expect: 2 },
                    ),
                )
            },
        }
    }

    fn authenticated(&mut self) -> (r: DialogAction)
        ensures
            (final(self)@, r@) == old(self)@.authenticated(),
    {
        match &self.request {
            Some(request) => {
                let mut send: Vec<u8> = Vec::new();
                bytes::append_all(&mut send, request.as_slice());
                assert(send@ =~= request@);
                self.phase = Phase::ReplyHead;
                DialogAction::Exchange { send, expect: 4 }
            },
            None => {
                self.phase = Phase::Closed;
                DialogAction::Failed(Socks5Error::DomainLength)
            },
        }
    }

    fn fail(&mut self, e: Socks5Error) -> (r: DialogAction)
        ensures
            (final(self)@, r@) == old(self)@.fail(e),
    {
        self.phase = Phase::Closed;
        DialogAction::Failed(e)
    }

    fn on_method(&mut self, b: &[u8]) -> (r: DialogAction)
        requires
            b@.len() == 2,
        ensures
            (final(self)@, r@) == old(self)@.on_method(b@),
    {
        match &self.password {
            None => if b[0] == 5 && b[1] == 0 {
                self.authenticated()
            } else {
                self.fail(Socks5Error::NoAuthFailed)
            },
            Some(password) => if b[0] != 5 {
                self.fail(Socks5Error::MethodVersion)
            } else if b[1] == 0 {
                self.fail(Socks5Error::NoAuthChosen)
            } else if b[1] == 2 {
                let mut send: Vec<u8> = Vec::new();
                bytes::append_all(&mut send, password.as_slice());
                assert(send@ =~= password@);
                self.phase = Phase::Password;
                DialogAction::Exchange { send, expect: 2 }
            } else {
                self.fail(Socks5Error::AuthMethod { method: b[1] })
            },
        }
    }

    fn on_reply_head(&mut self, b: &[u8]) -> (r: DialogAction)
        requires
            b@.len() == 4,
        ensures
            (final(self)@, r@) == old(self)@.on_reply_head(b@),
    {
        if b[0] != 5 {
            self.fail(Socks5Error::ReplyVersion { version: b[0] })
        } else if b[1] != 0 {
            self.fail(Socks5Error::ReplyCode { code: b[1] })
        } else if b[2] != 0 {
            self.fail(Socks5Error::ReplyReserved { byte: b[2] })
        } else if b[3] == 1 {
            self.phase = Phase::ReplyRest { atyp: 1, len: 6 };
            DialogAction::Read { expect: 6 }
        } else if b[3] == 4 {
            self.phase = Phase::ReplyRest { atyp: 4, len: 18 };
            DialogAction::Read { expect: 18 }
        } else if b[3] == 3 {
            self.phase = Phase::ReplyHostLen;
            DialogAction::Read { expect: 1 }
        } else {
            self.fail(Socks5Error::ReplyAddressType { atyp: b[3] })
        }
    }

    fn on_reply_rest(&mut self, atyp: u8, b: &[u8]) -> (r: DialogAction)
        requires
            atyp == 1 && b@.len() == 6 || atyp == 4 && b@.len() == 18 || atyp == 3 && 2
                <= b@.len() <= 257,
        ensures
            (final(self)@, r@) == old(self)@.on_reply_rest(atyp, b@),
    {
        self.phase = Phase::Closed;
        let n = b.len() - 2;
        assert(b@.subrange(0, n as int) =~= b@.take(n as int));
        assert(b@.subrange(n as int, n + 2) =~= b@.skip(n as int));
        if atyp == 1 {
            DialogAction::Accepted(ReplyAddr::Ip(read_v4(b, 0)))
        } else if atyp == 4 {
            DialogAction::Accepted(ReplyAddr::Ip(read_v6(b, 0)))
        } else {
            proof {
                bytes::lemma_be_value_bound(b@.subrange(n as int, n + 2));
                bytes::lemma_pow256_values();
            }
            let mut host: Vec<u8> = Vec::new();
            bytes::append_bytes(&mut host, b, 0, n);
            assert(host@ =~= b@.take(n as int));
            let port = bytes::read_be(b, n, 2) as u16;
            DialogAction::Accepted(ReplyAddr::Domain { host, port })
        }
    }

    /// Takes the bytes that the dialog waited for. More or fewer are not taken:
    /// the caller reads as many as the last action asked for.
    pub fn on_bytes(&mut self, b: &[u8]) -> (r: DialogAction)
        requires
            old(self)@.wf(),
            b@.len() == old(self)@.expected(),
        ensures
            (final(self)@, r@) == old(self)@.step(b@),
            final(self)@.wf(),
    {
        match self.phase {
            Phase::Method => self.on_method(b),
            Phase::Password => if b[0] == 1 && b[1] == 0 {
                self.authenticated()
            } else {
                self.fail(Socks5Error::AuthRejected)
            },
            Phase::ReplyHead => self.on_reply_head(b),
            Phase::ReplyHostLen => {
                let len: usize = b[0] as usize + 2;
                self.phase = Phase::ReplyRest { atyp: 3, len };
                DialogAction::Read { expect: len }
            },
            Phase::ReplyRest { atyp, .. } => self.on_reply_rest(atyp, b),
            Phase::Closed => DialogAction::Ended,
        }
    }

    /// How many bytes the dialog waits for.
    pub fn expected(&self) -> (r: usize)
        ensures
            r == self@.expected(),
    {
        match self.phase {
            Phase::Method => 2,
            Phase::Password => 2,
            Phase::ReplyHead => 4,
            Phase::ReplyHostLen => 1,
            Phase::ReplyRest { len, .. } => len,
            Phase::Closed => 0,
        }
    }
}

/// The request is sent only once the server has accepted the client: it chose to
/// do without authentication and no password is required, or it accepted the
/// password.
pub proof fn request_follows_authentication(d: Dialog, b: Seq<u8>)
    requires
        d.wf(),
        b.len() == d.expected(),
    ensures
        d.step(b).0.phase == Phase::ReplyHead ==> {
            ||| d.phase == Phase::Method && d.password is None && b[0] == 5 && b[1] == 0
            ||| d.phase == Phase::Password && b[0] == 1 && b[1] == 0
        },
{
}

/// With credentials, nothing but their acceptance leads to the request: a server
/// that chooses to do without authentication is refused.
pub proof fn password_is_not_given_up(d: Dialog, b: Seq<u8>)
    requires
        d.phase == Phase::Method,
        d.password is Some,
        b.len() == 2,
    ensures
        d.step(b).0.phase == Phase::Password || d.step(b).0.phase == Phase::Closed,
        d.step(b).0.phase == Phase::Password <==> b[0] == 5 && b[1] == 2,
{
}

/// A closed dialog stays closed and sends nothing.
pub proof fn closed_dialog_is_silent(d: Dialog, b: Seq<u8>)
    requires
        d.phase == Phase::Closed,
    ensures
        d.step(b) == (d, Action::Ended),
{
}

/// After each step the dialog waits for as many bytes as the action asks to read.
pub proof fn actions_ask_for_what_is_expected(d: Dialog, b: Seq<u8>)
    requires
        d.wf(),
        b.len() == d.expected(),
        d.phase != Phase::Closed,
    ensures
        match d.step(b).1 {
            Action::Exchange { expect, .. } => d.step(b).0.expected() == expect,
            Action::Read { expect } => d.step(b).0.expected() == expect,
            Action::Accepted(_) => d.step(b).0.phase == Phase::Closed,
            Action::Failed(_) => d.step(b).0.phase == Phase::Closed,
            Action::Ended => false,
        },
{
}

/// Requests, byte by byte: version 5, the command (1 to connect, 3 for a relay), a
/// zero, the type of the address, and the address with its port.
pub proof fn requests_on_the_wire(v4: u32, v6: u128, host: Seq<u8>, port: u16, any: u128)
    requires
        host.len() <= 255,
    ensures
        connect_message(
            TargetView::Ip(SocketAddr::V4(SocketAddrV4 { ip: Ipv4Addr { bits: v4 }, port })),
        ) == seq![5u8, 1, 0, 1] + bytes::four(v4 as int) + bytes::two(port as int),
        connect_message(
            TargetView::Ip(
                SocketAddr::V6(
                    SocketAddrV6 { ip: Ipv6Addr { bits: v6 }, port, flowinfo: 0, scope_id: 0 },
                ),
            ),
        ) == seq![5u8, 1, 0, 4] + bytes::be_bytes(v6 as nat, 16) + bytes::two(port as int),
        connect_message(TargetView::Domain(host, port)) == seq![5u8, 1, 0, 3, host.len() as u8]
            + host + bytes::two(port as int),
        associate_message(SocketAddr::V4(SocketAddrV4 { ip: Ipv4Addr { bits: v4 }, port })) == seq![
            5u8,
            3,
            0,
            1,
            0,
            0,
            0,
            0,
            0,
            0,
        ],
        associate_message(
            SocketAddr::V6(
                SocketAddrV6 { ip: Ipv6Addr { bits: any }, port, flowinfo: 0, scope_id: 0 },
            ),
        ) == seq![5u8, 3, 0, 4] + bytes::be_bytes(0, 16) + seq![0u8, 0],
{
    bytes::numbers_are_sent_highest_byte_first(port as nat, v4 as nat);
    bytes::numbers_are_sent_highest_byte_first(0, 0);
    assert(connect_message(
        TargetView::Ip(SocketAddr::V4(SocketAddrV4 { ip: Ipv4Addr { bits: v4 }, port })),
    ) =~= seq![5u8, 1, 0, 1] + bytes::four(v4 as int) + bytes::two(port as int));
    assert(connect_message(
        TargetView::Ip(
            SocketAddr::V6(
                SocketAddrV6 { ip: Ipv6Addr { bits: v6 }, port, flowinfo: 0, scope_id: 0 },
            ),
        ),
    ) =~= seq![5u8, 1, 0, 4] + bytes::be_bytes(v6 as nat, 16) + bytes::two(port as int));
    assert(connect_message(TargetView::Domain(host, port)) =~= seq![
        5u8,
        1,
        0,
        3,
        host.len() as u8,
    ] + host + bytes::two(port as int));
    assert(associate_message(SocketAddr::V4(SocketAddrV4 { ip: Ipv4Addr { bits: v4 }, port }))
        =~= seq![5u8, 3, 0, 1, 0, 0, 0, 0, 0, 0]);
    assert(associate_message(
        SocketAddr::V6(SocketAddrV6 { ip: Ipv6Addr { bits: any }, port, flowinfo: 0, scope_id: 0 }),
    ) =~= seq![5u8, 3, 0, 4] + bytes::be_bytes(0, 16) + seq![0u8, 0]);
}

/// Without credentials a server has to answer the greeting with 5 and 0; then the
/// request follows. Any other answer ends the dialog.
pub proof fn servers_without_password(d: Dialog, b: Seq<u8>)
    requires
        d.phase == Phase::Method,
        d.password is None,
        b.len() == 2,
    ensures
        b =~= seq![5u8, 0] && d.request is Some ==> d.step(b).1 == (Action::Exchange {
            send: d.request->0,
            expect: 4,
        }) && d.step(b).0 == (Dialog { phase: Phase::ReplyHead, ..d }),
        b =~= seq![5u8, 0] && d.request is None ==> d.step(b).1 == Action::Failed(
            Socks5Error::DomainLength,
        ) && d.step(b).0.phase == Phase::Closed,
        !(b =~= seq![5u8, 0]) ==> d.step(b).1 == Action::Failed(Socks5Error::NoAuthFailed)
            && d.step(b).0.phase == Phase::Closed,
{
    if b[0] == 5 && b[1] == 0 {
        assert(b =~= seq![5u8, 0]);
    }
}

/// With credentials a server has to answer the greeting with 5 and 2, and then the
/// password with 1 and 0; then the request follows. Any other answer ends the dialog.
pub proof fn servers_with_password(d: Dialog, b: Seq<u8>)
    requires
        d.password is Some,
        d.phase == Phase::Method || d.phase == Phase::Password,
        b.len() == 2,
    ensures
        d.phase == Phase::Method && b[0] == 5 && b[1] == 2 ==> d.step(b) == (
            Dialog { phase: Phase::Password, ..d },
            Action::Exchange { send: d.password->0, expect: 2 },
        ),
        d.phase == Phase::Method && b[0] == 5 && b[1] == 0 ==> d.step(b).1 == Action::Failed(
            Socks5Error::NoAuthChosen,
        ),
        d.phase == Phase::Method && b[0] == 5 && b[1] != 2 && b[1] != 0 ==> d.step(b).1
            == Action::Failed(Socks5Error::AuthMethod { method: b[1] }),
        d.phase == Phase::Method && b[0] != 5 ==> d.step(b).1 == Action::Failed(
            Socks5Error::MethodVersion,
        ),
        d.phase == Phase::Password && b[0] == 1 && b[1] == 0 && d.request is Some ==> d.step(b) == (
            Dialog { phase: Phase::ReplyHead, ..d },
            Action::Exchange { send: d.request->0, expect: 4 },
        ),
        d.phase == Phase::Password && b[0] == 1 && b[1] == 0 && d.request is None ==> d.step(b).1
            == Action::Failed(Socks5Error::DomainLength),
        d.phase == Phase::Password && (b[0] != 1 || b[1] != 0) ==> d.step(b).1 == Action::Failed(
            Socks5Error::AuthRejected,
        ),
        d.step(b).1 is Failed <==> d.step(b).0.phase == Phase::Closed,
{
}

/// The greeting and the message with user name and password, byte by byte, and whom the
/// message is for: each of the two has 1 to 255 bytes.
pub proof fn password_on_the_wire(user: Seq<u8>, pass: Seq<u8>)
    ensures
        greeting(false) == seq![5u8, 1u8, 0u8],
        greeting(true) == seq![5u8, 2u8, 0u8, 2u8],
        are_sendable_credentials(user, pass) <==> user.len() >= 1 && user.len() < 256 && pass.len()
            >= 1 && pass.len() < 256,
        ({
            let m = password_message(user, pass);
            &&& m.len() == 3 + user.len() + pass.len()
            &&& m[0] == 1
            &&& user.len() < 256 ==> m[1] == user.len()
            &&& m.subrange(2, 2 + user.len() as int) == user
            &&& pass.len() < 256 ==> m[2 + user.len() as int] == pass.len()
            &&& m.skip(3 + user.len() as int) == pass
        }),
{
    let m = password_message(user, pass);
    assert(m.subrange(2, 2 + user.len() as int) =~= user);
    assert(m.skip(3 + user.len() as int) =~= pass);
}

/// A dialog that waits for the head of the reply goes on only after the bytes 5,
/// 0, 0 and an address type that there is. Any other head ends it, and the first
/// byte that is wrong says why: a reply code other than 0 is the reason itself.
pub proof fn only_success_goes_on(d: Dialog, b: Seq<u8>)
    requires
        d.phase == Phase::ReplyHead,
        b.len() == 4,
    ensures
        d.step(b).0.phase != Phase::Closed <==> b[0] == 5 && b[1] == 0 && b[2] == 0 && (b[3] == 1
            || b[3] == 3 || b[3] == 4),
        !(d.step(b).1 is Failed) <==> b[0] == 5 && b[1] == 0 && b[2] == 0 && (b[3] == 1 || b[3] == 3
            || b[3] == 4),
        b[0] != 5 ==> d.step(b).1 == Action::Failed(Socks5Error::ReplyVersion { version: b[0] }),
        b[0] == 5 && b[1] != 0 ==> d.step(b).1 == Action::Failed(
            Socks5Error::ReplyCode { code: b[1] },
        ),
        b[0] == 5 && b[1] == 0 && b[2] != 0 ==> d.step(b).1 == Action::Failed(
            Socks5Error::ReplyReserved { byte: b[2] },
        ),
        b[0] == 5 && b[1] == 0 && b[2] == 0 && b[3] != 1 && b[3] != 3 && b[3] != 4 ==> d.step(b).1
            == Action::Failed(Socks5Error::ReplyAddressType { atyp: b[3] }),
        b =~= seq![5u8, 0, 0, 1] ==> d.step(b).1 == (Action::Read { expect: 6 }),
        b =~= seq![5u8, 0, 0, 4] ==> d.step(b).1 == (Action::Read { expect: 18 }),
        b =~= seq![5u8, 0, 0, 3] ==> d.step(b).1 == (Action::Read { expect: 1 }),
{
}

/// The reply of a server that gives an IPv4 address is read back.
pub proof fn ipv4_reply_is_read_back(d: Dialog, ip: u32, port: u16)
    requires
        d.phase == Phase::ReplyHead,
    ensures
        ({
            let rest = d.step(seq![5u8, 0, 0, 1]).0;
            &&& rest.expected() == 6
            &&& rest.step(bytes::four(ip as int) + bytes::two(port as int)).1 == Action::Accepted(
                ReplyView::Ip(SocketAddr::V4(SocketAddrV4 { ip: Ipv4Addr { bits: ip }, port })),
            )
        }),
{
    bytes::four_bytes_denote(ip as int);
    bytes::two_bytes_denote(port as int);
    let b = bytes::four(ip as int) + bytes::two(port as int);
    assert(b.skip(4) =~= bytes::two(port as int));
    assert(b.take(4) =~= bytes::four(ip as int));
}

/// The reply of a server that gives an IPv6 address is read back.
pub proof fn ipv6_reply_is_read_back(d: Dialog, ip: u128, port: u16)
    requires
        d.phase == Phase::ReplyHead,
    ensures
        ({
            let rest = d.step(seq![5u8, 0, 0, 4]).0;
            &&& rest.expected() == 18
            &&& rest.step(bytes::be_bytes(ip as nat, 16) + bytes::two(port as int)).1
                == Action::Accepted(
                ReplyView::Ip(
                    SocketAddr::V6(
                        SocketAddrV6 { ip: Ipv6Addr { bits: ip }, port, flowinfo: 0, scope_id: 0 },
                    ),
                ),
            )
        }),
{
    bytes::two_bytes_denote(port as int);
    bytes::lemma_pow256_values();
    bytes::be_value_of_be_bytes(ip as nat, 16);
    bytes::lemma_be_bytes_len(ip as nat, 16);
    let host = bytes::be_bytes(ip as nat, 16);
    let b = host + bytes::two(port as int);
    assert(b.skip(16) =~= bytes::two(port as int));
    assert(b.take(16) =~= host);
}

/// The reply of a server that gives a host name is read back, whatever its bytes.
pub proof fn host_reply_is_read_back(d: Dialog, host: Seq<u8>, port: u16)
    requires
        d.phase == Phase::ReplyHead,
        host.len() <= 255,
    ensures
        ({
            let len = d.step(seq![5u8, 0, 0, 3]).0;
            let rest = len.step(seq![host.len() as u8]).0;
            &&& len.expected() == 1
            &&& rest.expected() == host.len() + 2
            &&& rest.step(host + bytes::two(port as int)).1 == Action::Accepted(
                ReplyView::Domain(host, port),
            )
        }),
{
    bytes::two_bytes_denote(port as int);
    let b = host + bytes::two(port as int);
    assert(b.skip(host.len() as int) =~= bytes::two(port as int));
    assert(b.take(host.len() as int) =~= host);
}

// ---------------------------------------------------------------------------
// The relay
// ---------------------------------------------------------------------------

/// Where the relay of a reply is.
pub enum RelayTarget {
    /// At an address.
    Addr(SocketAddr),
    /// At an address that a host name stands for.
    Resolve { host: String, port: u16 },
    /// Nowhere: the host name is no text.
    BadName,
}

/// The address of the relay: a server that does not know its own address means
/// the address under which it was reached.
pub open spec fn relay_at(addr: SocketAddr, server: SocketAddr) -> SocketAddr {
    if net::is_unspecified_ip(addr.spec_ip()) {
        SocketAddr::spec_new(server.spec_ip(), addr.spec_port())
    } else {
        addr
    }
}

/// The address of the relay, given the address in the reply or the one its host
/// name resolved to.
pub fn relay_addr_for(addr: SocketAddr, server: SocketAddr) -> (r: SocketAddr)
    ensures
        r == relay_at(addr, server),
        r.spec_port() == addr.spec_port(),
{
    if net::ip_is_unspecified(addr.ip()) {
        SocketAddr::new(server.ip(), addr.port())
    } else {
        addr
    }
}

/// Where the relay of a reply is.
pub fn relay_target(reply: ReplyAddr, server: SocketAddr) -> (r: RelayTarget)
    ensures
        match (reply@, r) {
            (ReplyView::Ip(a), RelayTarget::Addr(x)) => x == relay_at(a, server),
            (ReplyView::Domain(h, p), RelayTarget::Resolve { host, port }) => valid_utf8(h)
                && host@ == decode_utf8(h) && port == p,
            (ReplyView::Domain(h, _), RelayTarget::BadName) => !valid_utf8(h),
            _ => false,
        },
{
    match reply {
        ReplyAddr::Ip(a) => RelayTarget::Addr(relay_addr_for(a, server)),
        ReplyAddr::Domain { host, port } => match text::chars_of_utf8(host.as_slice()) {
            Some(chars) => RelayTarget::Resolve { host: text::string_of(chars.as_slice()), port },
            None => RelayTarget::BadName,
        },
    }
}

/// A relay address is never left unspecified, unless the server's own is.
pub proof fn relay_address_is_specified(addr: SocketAddr, server: SocketAddr)
    requires
        !net::is_unspecified_ip(server.spec_ip()),
    ensures
        !net::is_unspecified_ip(relay_at(addr, server).spec_ip()),
{
}

/// A relay is at the address that the reply names. Where that is unspecified, of either
/// family, it is at the address of the server, at the port that the reply names.
pub proof fn relays_are_at_the_named_address(addr: SocketAddr, server: SocketAddr)
    ensures
        match addr {
            SocketAddr::V4(a) => a.ip.bits != 0 ==> relay_at(addr, server) == addr,
            SocketAddr::V6(a) => a.ip.bits != 0 ==> relay_at(addr, server) == addr,
        },
        match addr {
            SocketAddr::V4(a) => a.ip.bits == 0 ==> relay_at(addr, server).spec_ip()
                == server.spec_ip() && relay_at(addr, server).spec_port() == a.port,
            SocketAddr::V6(a) => a.ip.bits == 0 ==> relay_at(addr, server).spec_ip()
                == server.spec_ip() && relay_at(addr, server).spec_port() == a.port,
        },
{
}

} // verus!
