//! What a UDP session is for, and what its datagrams become on their way.

use crate::bytes;
use crate::cache;
use crate::net;
use crate::net::SocketAddr;
use crate::socks5;
use crate::socks5::{
    build_socks5_udp_packet, parse_socks5_udp_packet_with_fallback_src, Socks5UdpTarget,
};
use crate::state::AppState;
use crate::text;
use crate::upstream;
use vstd::prelude::*;
use vstd::utf8::*;

verus! {

/// How the datagrams of a session arrive.
#[derive(Debug, Clone, Copy, PartialEq, Eq, Hash, Structural)]
pub enum UdpSessionKind {
    /// They were intercepted.
    Tproxy,
    /// They were sent to a port forward.
    PortForward { listen_addr: SocketAddr },
}

/// What datagrams of one session have in common.
#[derive(Debug, Clone, Copy, PartialEq, Eq, Hash, Structural)]
pub struct UdpSessionKey {
    pub kind: UdpSessionKind,
    pub client_addr: SocketAddr,
    pub target_addr: SocketAddr,
}

/// How replies reach the client.
#[derive(Debug, Clone, Copy, PartialEq, Eq, Structural)]
pub enum UdpReplyPath {
    /// In the name of the address that the client sent to.
    Tproxy,
    /// From the socket of the port forward.
    PortForward,
}

#[derive(Debug, Clone, Copy, PartialEq, Eq, Structural)]
pub enum UdpRoutingMode {
    /// By the rules.
    Auto,
    /// Always to a server.
    ForceSocks5,
}

/// What a session is made with. The host is fixed when the session is made.
pub struct UdpSessionSpec {
    pub key: UdpSessionKey,
    pub routing: UdpRoutingMode,
    pub reply_path: UdpReplyPath,
    pub sniffed_host: Option<String>,
}

/// The view of [`UdpSessionSpec`].
pub struct SpecView {
    pub key: UdpSessionKey,
    pub routing: UdpRoutingMode,
    pub reply_path: UdpReplyPath,
    pub host: Option<Seq<char>>,
}

impl View for UdpSessionSpec {
    type V = SpecView;

    open spec fn view(&self) -> SpecView {
        SpecView {
            key: self.key,
            routing: self.routing,
            reply_path: self.reply_path,
            host: cache::opt_string(self.sniffed_host),
        }
    }
}

impl UdpSessionSpec {
    /// A session for an intercepted datagram.
    pub fn for_tproxy(client_addr: SocketAddr, orig_dst: SocketAddr) -> (r: Self)
        ensures
            r@ == (SpecView {
                key: UdpSessionKey {
                    kind: UdpSessionKind::Tproxy,
                    client_addr,
                    target_addr: orig_dst,
                },
                routing: UdpRoutingMode::Auto,
                reply_path: UdpReplyPath::Tproxy,
                host: None,
            }),
    {
        UdpSessionSpec {
            key: UdpSessionKey {
                kind: UdpSessionKind::Tproxy,
                client_addr,
                target_addr: orig_dst,
            },
            routing: UdpRoutingMode::Auto,
            reply_path: UdpReplyPath::Tproxy,
            sniffed_host: None,
        }
    }

    /// A session for a datagram to a port forward.
    pub fn for_port_forward(
        listen_addr: SocketAddr,
        client_addr: SocketAddr,
        remote: SocketAddr,
    ) -> (r: Self)
        ensures
            r@ == (SpecView {
                key: UdpSessionKey {
                    kind: UdpSessionKind::PortForward { listen_addr },
                    client_addr,
                    target_addr: remote,
                },
                routing: UdpRoutingMode::ForceSocks5,
                reply_path: UdpReplyPath::PortForward,
                host: None,
            }),
    {
        UdpSessionSpec {
            key: UdpSessionKey {
                kind: UdpSessionKind::PortForward { listen_addr },
                client_addr,
                target_addr: remote,
            },
            routing: UdpRoutingMode::ForceSocks5,
            reply_path: UdpReplyPath::PortForward,
            sniffed_host: None,
        }
    }

    /// A copy.
    pub fn copy(&self) -> (r: Self)
        ensures
            r@ == self@,
    {
        UdpSessionSpec {
            key: self.key,
            routing: self.routing,
            reply_path: self.reply_path,
            sniffed_host: match &self.sniffed_host {
                Some(h) => Some(text::copy_str(h.as_str())),
                None => None,
            },
        }
    }

    /// The host, if one is known.
    pub fn host(&self) -> (r: Option<&str>)
        ensures
            text::opt_text(r) == self@.host,
    {
        match &self.sniffed_host {
            Some(h) => Some(h.as_str()),
            None => None,
        }
    }
}

// ---------------------------------------------------------------------------
// Keys as numbers
// ---------------------------------------------------------------------------

/// An address as numbers: the family, the address, the port, the flow label and
/// the scope.
pub type AddrCode = (bool, u128, u16, u32, u32);

/// A key as numbers.
pub type KeyCode = (Option<AddrCode>, AddrCode, AddrCode);

pub open spec fn addr_code_of(a: SocketAddr) -> AddrCode {
    match a {
        SocketAddr::V4(a) => (false, a.ip.bits as u128, a.port, 0, 0),
        SocketAddr::V6(a) => (true, a.ip.bits, a.port, a.flowinfo, a.scope_id),
    }
}

pub open spec fn key_code_of(k: UdpSessionKey) -> KeyCode {
    (
        match k.kind {
            UdpSessionKind::Tproxy => None,
            UdpSessionKind::PortForward { listen_addr } => Some(addr_code_of(listen_addr)),
        },
        addr_code_of(k.client_addr),
        addr_code_of(k.target_addr),
    )
}

/// An address as numbers.
pub fn addr_code(a: SocketAddr) -> (r: AddrCode)
    ensures
        r == addr_code_of(a),
{
    match a {
        SocketAddr::V4(a) => (false, a.ip.bits as u128, a.port, 0, 0),
        SocketAddr::V6(a) => (true, a.ip.bits, a.port, a.flowinfo, a.scope_id),
    }
}

/// A key as numbers.
pub fn key_code(k: UdpSessionKey) -> (r: KeyCode)
    ensures
        r == key_code_of(k),
{
    (
        match k.kind {
            UdpSessionKind::Tproxy => None,
            UdpSessionKind::PortForward { listen_addr } => Some(addr_code(listen_addr)),
        },
        addr_code(k.client_addr),
        addr_code(k.target_addr),
    )
}

/// Different keys are different numbers.
pub proof fn codes_tell_keys_apart(a: UdpSessionKey, b: UdpSessionKey)
    requires
        key_code_of(a) == key_code_of(b),
    ensures
        a == b,
{
    lemma_addr_codes(a.client_addr, b.client_addr);
    lemma_addr_codes(a.target_addr, b.target_addr);
    match (a.kind, b.kind) {
        (
            UdpSessionKind::PortForward { listen_addr: x },
            UdpSessionKind::PortForward { listen_addr: y },
        ) => {
            lemma_addr_codes(x, y);
        },
        _ => {},
    }
}

proof fn lemma_addr_codes(a: SocketAddr, b: SocketAddr)
    ensures
        addr_code_of(a) == addr_code_of(b) ==> a == b,
{
}

// ---------------------------------------------------------------------------
// Ways out
// ---------------------------------------------------------------------------

/// Where the datagrams of a session go.
#[derive(Debug, Clone, Copy, PartialEq, Eq, Structural)]
pub enum UdpRoute {
    Direct,
    Socks5,
}

/// Where the datagrams of a session go: by the rules, with the host if it is
/// known, unless the session is for servers only.
pub open spec fn route_of(s: AppState, spec: SpecView) -> UdpRoute {
    match spec.routing {
        UdpRoutingMode::ForceSocks5 => UdpRoute::Socks5,
        UdpRoutingMode::Auto => if s.goes_direct(spec.key.target_addr.spec_ip(), spec.host) {
            UdpRoute::Direct
        } else {
            UdpRoute::Socks5
        },
    }
}

/// Decides where the datagrams of a session go.
pub fn choose_udp_route(state: &mut AppState, spec: &UdpSessionSpec) -> (r: UdpRoute)
    requires
        old(state).wf(),
    ensures
        r == route_of(*old(state), spec@),
        final(state).wf(),
        match spec.routing {
            UdpRoutingMode::Auto => old(state).asked(
                *final(state),
                spec.key.target_addr.spec_ip(),
                spec@.host,
            ),
            UdpRoutingMode::ForceSocks5 => *final(state) == *old(state),
        },
        final(state).route_cache.ttl_secs == old(state).route_cache.ttl_secs,
        final(state).route_cache.max == old(state).route_cache.max,
        *final(state) == (AppState { route_cache: final(state).route_cache, ..*old(state) }),
{
    match spec.routing {
        UdpRoutingMode::ForceSocks5 => UdpRoute::Socks5,
        UdpRoutingMode::Auto => if state.should_direct(spec.key.target_addr.ip(), spec.host()) {
            UdpRoute::Direct
        } else {
            UdpRoute::Socks5
        },
    }
}

/// What a choice of a server for a session returns and changes: one of the
/// client's group, or if that has none one of `default`.
pub open spec fn picks_udp_server(
    before: AppState,
    after: AppState,
    spec: SpecView,
    eff: Seq<u64>,
    x: int,
    r: Option<usize>,
) -> bool {
    let set = before.upstreams;
    let group = before.group_for(spec.key.client_addr.spec_ip(), spec.host);
    if set.group(group).len() > 0 {
        set.chooses(after.upstreams, set.group(group), group, eff, x, r)
    } else {
        set.chooses(after.upstreams, set.group("default"@), "default"@, eff, x, r)
    }
}

/// Chooses the server of a session, by a score for each.
pub fn pick_udp_server(state: &mut AppState, spec: &UdpSessionSpec, eff: &[u64]) -> (r: Option<
    usize,
>)
    requires
        old(state).wf(),
        upstream::scores_match(old(state).upstreams.items@, eff@),
        old(state).upstreams.groups_fit(),
    ensures
        exists|x: int| #[trigger]
            picks_udp_server(*old(state), *final(state), spec@, eff@, x, r),
        r matches Some(i) ==> i < old(state).upstreams.items@.len(),
        final(state).wf(),
        final(state).upstreams.items == old(state).upstreams.items,
        *final(state) == (AppState { upstreams: final(state).upstreams, ..*old(state) }),
{
    let ghost before = *state;
    let group = text::copy_str(
        state.lookup_upstream_group(spec.key.client_addr.ip(), spec.host()),
    );
    assert(before.upstreams.group(group@).len() <= upstream::MAX_CANDIDATES);
    assert(before.upstreams.group("default"@).len() <= upstream::MAX_CANDIDATES);
    let first = state.upstreams.pick_from_group(group.as_str(), eff);
    let ghost mid = state.upstreams;
    let ghost x1 = choose|x: int| #[trigger]
        before.upstreams.chooses(
            mid,
            before.upstreams.group(group@),
            group@,
            eff@,
            x,
            first,
        );
    if first.is_some() {
        proof {
            crate::state::lemma_rules_keep(before, *state);
            assert(picks_udp_server(before, *state, spec@, eff@, x1, first));
        }
        return first;
    }
    let second = state.upstreams.pick(eff);
    proof {
        let x = choose|x: int| #[trigger]
            mid.chooses(
                state.upstreams,
                mid.group("default"@),
                "default"@,
                eff@,
                x,
                second,
            );
        crate::state::lemma_rules_keep(before, *state);
        assert(picks_udp_server(before, *state, spec@, eff@, x, second));
    }
    second
}

/// What a server is told to send a datagram to: the host if it is known, at the
/// port of the destination, else the destination.
pub open spec fn udp_target_of(spec: SpecView) -> socks5::TargetView {
    match spec.host {
        Some(host) => socks5::TargetView::Domain(
            encode_utf8(host),
            spec.key.target_addr.spec_port(),
        ),
        None => socks5::TargetView::Ip(spec.key.target_addr),
    }
}

/// A datagram as a server gets it. A host that no datagram can carry means that
/// it is dropped.
pub fn frame_for_server(spec: &UdpSessionSpec, payload: &[u8]) -> (r: Option<Vec<u8>>)
    ensures
        match r {
            Some(pkt) => socks5::is_sendable(udp_target_of(spec@)) && pkt@ == socks5::udp_packet(
                udp_target_of(spec@),
                payload@,
            ),
            None => !socks5::is_sendable(udp_target_of(spec@)),
        },
{
    let target = match &spec.sniffed_host {
        Some(host) => Socks5UdpTarget::Domain {
            host: host.as_str(),
            port: spec.key.target_addr.port(),
        },
        None => Socks5UdpTarget::Ip(spec.key.target_addr),
    };
    match build_socks5_udp_packet(target, payload) {
        Ok(pkt) => Some(pkt),
        Err(_) => None,
    }
}

/// The address that a client sees as the source of a reply: an intercepted client
/// sees the address that it sent to, whatever the server says.
pub open spec fn visible_src_of(spec: SpecView, remote_src: SocketAddr) -> SocketAddr {
    match spec.reply_path {
        UdpReplyPath::Tproxy => spec.key.target_addr,
        UdpReplyPath::PortForward => remote_src,
    }
}

/// A reply on its way to a client.
pub struct UdpReply {
    pub src: SocketAddr,
    pub payload: Vec<u8>,
}

/// What becomes of a datagram from a server: a reply to the client, or nothing
/// when it is none.
pub fn reply_from_server(spec: &UdpSessionSpec, packet: &[u8]) -> (r: Option<UdpReply>)
    ensures
        match socks5::read_udp_packet(packet@, spec.key.target_addr) {
            Ok((src, payload)) => {
                &&& r matches Some(reply)
                &&& reply.src == visible_src_of(spec@, src)
                &&& reply.payload@ == payload
            },
            Err(_) => r is None,
        },
{
    match parse_socks5_udp_packet_with_fallback_src(packet, spec.key.target_addr) {
        Ok((src, payload)) => {
            let mut copy: Vec<u8> = Vec::new();
            crate::bytes::append_all(&mut copy, payload);
            assert(copy@ =~= payload@);
            let src = match spec.reply_path {
                UdpReplyPath::Tproxy => spec.key.target_addr,
                UdpReplyPath::PortForward => src,
            };
            Some(UdpReply { src, payload: copy })
        },
        Err(_) => None,
    }
}

/// What a socket gave.
#[derive(Debug, Clone, Copy, PartialEq, Eq, Structural)]
pub enum SocketEvent {
    /// So many bytes went through.
    Bytes(usize),
    /// The datagram is larger than the path or the buffer takes.
    TooBig,
    /// Any other failure.
    Failure,
}

/// What a socket gave, by the number of the error if there was one.
pub fn socket_event(result: Result<usize, Option<i32>>, emsgsize: i32) -> (r: SocketEvent)
    ensures
        r == match result {
            Ok(n) => SocketEvent::Bytes(n),
            Err(code) => if code == Some(emsgsize) {
                SocketEvent::TooBig
            } else {
                SocketEvent::Failure
            },
        },
{
    match result {
        Ok(n) => SocketEvent::Bytes(n),
        Err(code) => if crate::util::is_io_emsgsize(code, emsgsize) {
            SocketEvent::TooBig
        } else {
            SocketEvent::Failure
        },
    }
}

/// What to do with what was received.
#[derive(Debug, Clone, Copy, PartialEq, Eq, Structural)]
pub enum RecvStep {
    /// Handle so many bytes.
    Handle(usize),
    /// Wait for the next datagram.
    Skip,
    /// End the session.
    Stop,
}

/// What to do with what a connected socket received: empty datagrams and those
/// that are too big are passed over.
pub fn connected_udp_recv_result(event: SocketEvent) -> (r: RecvStep)
    ensures
        r == match event {
            SocketEvent::Bytes(n) => if n == 0 {
                RecvStep::Skip
            } else {
                RecvStep::Handle(n)
            },
            SocketEvent::TooBig => RecvStep::Skip,
            SocketEvent::Failure => RecvStep::Stop,
        },
{
    match event {
        SocketEvent::Bytes(n) => if n == 0 {
            RecvStep::Skip
        } else {
            RecvStep::Handle(n)
        },
        SocketEvent::TooBig => RecvStep::Skip,
        SocketEvent::Failure => RecvStep::Stop,
    }
}

/// How many bytes a session sent, by what the socket gave: a datagram that is too
/// big is dropped, which is no failure.
pub fn send_result(event: SocketEvent) -> (r: Option<usize>)
    ensures
        r == match event {
            SocketEvent::Bytes(n) => Some(n),
            SocketEvent::TooBig => Some(0usize),
            SocketEvent::Failure => None,
        },
{
    match event {
        SocketEvent::Bytes(n) => Some(n),
        SocketEvent::TooBig => Some(0),
        SocketEvent::Failure => None,
    }
}

/// A host that was found changes which address a session for servers only names,
/// and nothing else about where it goes.
pub proof fn forced_sessions_ignore_the_host(s: AppState, spec: SpecView, host: Option<Seq<char>>)
    requires
        spec.routing is ForceSocks5,
    ensures
        route_of(s, spec) == UdpRoute::Socks5,
        route_of(s, SpecView { host, ..spec }) == UdpRoute::Socks5,
{
}

/// An intercepted client never sees another source than the address it sent to.
pub proof fn intercepted_clients_see_their_target(spec: SpecView, remote_src: SocketAddr)
    requires
        spec.reply_path is Tproxy,
    ensures
        visible_src_of(spec, remote_src) == spec.key.target_addr,
{
}

/// A session goes directly exactly when the rules may decide and the rules for its
/// destination and its host say so.
pub proof fn sessions_go_by_the_rules(s: AppState, spec: SpecView)
    ensures
        route_of(s, spec) == UdpRoute::Direct <==> spec.routing is Auto && s.goes_direct(
            spec.key.target_addr.spec_ip(),
            spec.host,
        ),
        route_of(s, spec) == UdpRoute::Direct || route_of(s, spec) == UdpRoute::Socks5,
{
}

/// A datagram for a server whose host is known carries the host, its length and the
/// port of the destination; another carries the address of the destination.
pub proof fn servers_are_told_the_host(spec: SpecView, payload: Seq<u8>, v4: u32, port: u16)
    requires
        spec.key.target_addr == SocketAddr::V4(
            net::SocketAddrV4 { ip: net::Ipv4Addr { bits: v4 }, port },
        ),
    ensures
        match spec.host {
            Some(host) => encode_utf8(host).len() <= 255 ==> socks5::udp_packet(
                udp_target_of(spec),
                payload,
            ) == seq![0u8, 0, 0, 3, encode_utf8(host).len() as u8] + encode_utf8(host) + bytes::two(
                port as int,
            ) + payload,
            None => true,
        },
        spec.host is None ==> socks5::udp_packet(udp_target_of(spec), payload) == seq![
            0u8,
            0,
            0,
            1,
        ] + bytes::four(v4 as int) + bytes::two(port as int) + payload,
        spec.host is None ==> socks5::is_sendable(udp_target_of(spec)),
        spec.host matches Some(host) ==> (socks5::is_sendable(udp_target_of(spec)) <==> 1
            <= encode_utf8(host).len() <= 255),
{
    let none = Seq::<u8>::empty();
    match spec.host {
        Some(host) => {
            if encode_utf8(host).len() <= 255 {
                socks5::datagrams_on_the_wire(v4, 0, encode_utf8(host), port, payload);
            }
        },
        None => {
            socks5::datagrams_on_the_wire(v4, 0, none, port, payload);
        },
    }
}

/// The client of a port forward sees the source that the server names.
pub proof fn forwarded_clients_see_the_source(spec: SpecView, remote_src: SocketAddr)
    requires
        spec.reply_path is PortForward,
    ensures
        visible_src_of(spec, remote_src) == remote_src,
{
}

} // verus!
