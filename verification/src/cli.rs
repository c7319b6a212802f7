//! The configuration: its fields, their defaults, and what makes it valid.

use crate::net;
use crate::net::{IpAddr, SocketAddr};
use crate::text;
use crate::upstream;
use crate::upstream::{Upstream, UpstreamSet};
use crate::util;
use crate::util::parse_ip_or_cidr;
use vstd::prelude::*;

verus! {

/// The command line.
pub struct Cli {
    /// The path of the configuration file.
    pub config: String,
}

#[derive(Debug, Clone, Copy, PartialEq, Eq, Structural)]
pub enum PortForwardProto {
    Tcp,
    Udp,
    Both,
}

/// A local port whose traffic goes to a fixed remote address through SOCKS5.
pub struct PortForward {
    /// A name for the log.
    pub name: Option<String>,
    /// The local address, `IP:PORT`.
    pub bind: String,
    /// The remote address, `IP:PORT`.
    pub remote: String,
    pub network: PortForwardProto,
}

/// A SOCKS5 server.
pub struct UpstreamConfig {
    pub id: String,
    pub addr: SocketAddr,
    /// The groups that the server belongs to; `default` when none are set.
    pub groups: Option<Vec<String>>,
    /// The factor on the server's score, as the bits of an IEEE 754 double.
    pub gain_bits: u64,
}

/// The bits of the gain 1.
pub const GAIN_ONE: u64 = 0x3ff0_0000_0000_0000;

/// The bits of positive infinity. The bits of finite positive numbers are the
/// numbers from 1 up to it.
pub const GAIN_INFINITY: u64 = 0x7ff0_0000_0000_0000;

/// The bits of a double that is finite and greater than zero.
pub open spec fn is_valid_gain(bits: u64) -> bool {
    0 < bits < GAIN_INFINITY
}

/// How connections are routed.
#[derive(Debug, Clone, Copy, PartialEq, Eq, Structural)]
pub enum ProxyMode {
    /// By the rules.
    Smart,
    /// All through the proxy.
    Global,
    /// None through the proxy.
    Bypass,
}

impl Default for ProxyMode {
    fn default() -> (r: ProxyMode)
        ensures
            r == ProxyMode::Smart,
    {
        ProxyMode::Smart
    }
}

impl ProxyMode {
    pub open spec fn spec_next(self) -> ProxyMode {
        match self {
            ProxyMode::Smart => ProxyMode::Global,
            ProxyMode::Global => ProxyMode::Bypass,
            ProxyMode::Bypass => ProxyMode::Smart,
        }
    }

    pub open spec fn spec_as_u8(self) -> u8 {
        match self {
            ProxyMode::Smart => 0,
            ProxyMode::Global => 1,
            ProxyMode::Bypass => 2,
        }
    }

    pub open spec fn spec_from_u8(v: u8) -> ProxyMode {
        if v == 1 {
            ProxyMode::Global
        } else if v == 2 {
            ProxyMode::Bypass
        } else {
            ProxyMode::Smart
        }
    }

    pub open spec fn word(self) -> Seq<char> {
        match self {
            ProxyMode::Smart => "smart"@,
            ProxyMode::Global => "global"@,
            ProxyMode::Bypass => "bypass"@,
        }
    }

    /// The mode that follows in the cycle.
    pub fn next(self) -> (r: Self)
        ensures
            r == self.spec_next(),
    {
        match self {
            ProxyMode::Smart => ProxyMode::Global,
            ProxyMode::Global => ProxyMode::Bypass,
            ProxyMode::Bypass => ProxyMode::Smart,
        }
    }

    pub fn as_u8(self) -> (r: u8)
        ensures
            r == self.spec_as_u8(),
    {
        match self {
            ProxyMode::Smart => 0,
            ProxyMode::Global => 1,
            ProxyMode::Bypass => 2,
        }
    }

    /// The mode with a number; a number that no mode has means `Smart`.
    pub fn from_u8(v: u8) -> (r: Self)
        ensures
            r == ProxyMode::spec_from_u8(v),
    {
        match v {
            1 => ProxyMode::Global,
            2 => ProxyMode::Bypass,
            _ => ProxyMode::Smart,
        }
    }

    /// The word for the mode.
    pub fn as_str(self) -> (r: &'static str)
        ensures
            r@ == self.word(),
    {
        match self {
            ProxyMode::Smart => "smart",
            ProxyMode::Global => "global",
            ProxyMode::Bypass => "bypass",
        }
    }
}

/// A mode survives being stored as a number.
pub proof fn proxy_mode_number_round_trip(mode: ProxyMode)
    ensures
        ProxyMode::spec_from_u8(mode.spec_as_u8()) == mode,
{
}

/// Three steps lead back to the mode they started from, and no fewer.
pub proof fn proxy_modes_cycle(mode: ProxyMode)
    ensures
        mode.spec_next().spec_next().spec_next() == mode,
        mode.spec_next() != mode,
        mode.spec_next().spec_next() != mode,
{
}

/// How long the first datagrams of a QUIC flow are held back to find its host.
#[derive(Debug, Clone, Copy, PartialEq, Eq, Structural)]
pub enum QuicSniffMode {
    /// Until the host is found or the time is up.
    Full,
    /// Not at all: only the first datagram is looked at.
    BestEffort,
    /// Not at all.
    Off,
}

/// The clients of an address or network use the servers of a group.
pub struct ClientRoute {
    pub client: String,
    pub group: String,
}

/// Connections to a domain use the servers of a group.
pub struct DomainRoute {
    /// `.example.com` for a domain and those below it, `example.com` for one.
    pub domain: String,
    pub group: String,
}

/// The domain routes of the clients of an address or network.
pub struct ClientDomainRoute {
    pub client: String,
    pub domains: Vec<DomainRoute>,
}

pub struct Config {
    /// The address that intercepted traffic arrives at.
    pub listen: String,
    /// Whether UDP is forwarded too.
    pub udp: bool,
    pub socks5_user: Option<String>,
    pub socks5_password: Option<String>,
    /// The mark of outgoing sockets.
    pub fwmark: u32,
    /// The country database; none when absent or empty.
    pub mmdb_path: Option<String>,
    /// How long a UDP session lives without traffic from the client.
    pub udp_session_timeout_secs: u64,
    /// How long a UDP session lives without a reply; 0 for no limit.
    pub udp_session_idle_timeout_secs: u64,
    pub connect_timeout_secs: u64,
    /// How long a half-closed connection may stay silent; 0 for no limit.
    pub half_close_timeout: u64,
    pub splice: bool,
    pub sniff_tls_sni: bool,
    pub sniff_http_host: bool,
    pub sniff_quic_sni: bool,
    pub quic_sniff_mode: QuicSniffMode,
    pub quic_sniff_pending_timeout_ms: u64,
    /// The most that is looked at of a TCP connection, whatever the protocol.
    pub tcp_peek_buffer_size: usize,
    pub tls_sniff_peek_len: usize,
    pub tls_sniff_max_len: usize,
    pub tls_sniff_max_retries: usize,
    pub tls_sniff_wait_more_ms: u64,
    pub tls_sniff_timeout_ms: u64,
    pub http_sniff_peek_len: usize,
    pub http_sniff_max_len: usize,
    pub http_sniff_max_retries: usize,
    pub http_sniff_wait_more_ms: u64,
    pub http_sniff_timeout_ms: u64,
    pub log_level: Option<String>,
    /// Countries that are reached directly.
    pub direct_countries: Vec<String>,
    pub force_direct_ips: Vec<String>,
    pub force_socks5_ips: Vec<String>,
    pub force_direct_ips_file: Option<String>,
    pub force_socks5_ips_file: Option<String>,
    pub force_direct_domains: Vec<String>,
    pub force_socks5_domains: Vec<String>,
    pub port_forward: Vec<PortForward>,
    /// Whether loopback and link-local addresses are reached directly.
    pub direct_local_ip: bool,
    pub upstream: Vec<UpstreamConfig>,
    pub disable_upstream_score: bool,
    /// How much better a server must be to replace the current one; 0 to choose
    /// anew each time.
    pub upstream_switch_tolerance: u32,
    /// Seconds between health checks; 0 for none.
    pub health_check_interval_secs: u64,
    pub health_check_timeout_secs: u64,
    pub health_check_fail_threshold: u32,
    pub health_check_url: String,
    /// The share of the QUIC probes in a server's score, in percent.
    pub quic_weight: u32,
    pub proxy_mode: ProxyMode,
    pub geosite_path: Option<String>,
    pub proxy_geosite_tags: Vec<String>,
    pub direct_geosite_tags: Vec<String>,
    pub client_routes: Vec<ClientRoute>,
    pub client_domain_routes: Vec<ClientDomainRoute>,
    /// How long a routing decision is reused; 0 for not at all.
    pub route_cache_ttl_secs: u64,
    pub route_cache_max: usize,
}

pub fn default_listen() -> (r: String)
    ensures
        r@ == "[::]:10810"@,
{
    "[::]:10810".to_owned()
}

pub fn default_direct_countries() -> (r: Vec<String>)
    ensures
        r@.len() == 1,
        r@[0]@ == "CN"@,
{
    vec!["CN".to_owned()]
}

pub fn default_health_check_url() -> (r: String)
    ensures
        r@ == "cp.cloudflare.com"@,
{
    "cp.cloudflare.com".to_owned()
}

pub fn default_udp() -> (r: bool)
    ensures
        r,
{
    true
}

pub fn default_fwmark() -> (r: u32)
    ensures
        r == 2,
{
    2
}

pub fn default_udp_session_timeout_secs() -> (r: u64)
    ensures
        r == 60,
{
    60
}

pub fn default_connect_timeout_secs() -> (r: u64)
    ensures
        r == 20,
{
    20
}

pub fn default_splice() -> (r: bool)
    ensures
        !r,
{
    false
}

pub fn default_sniff_tls_sni() -> (r: bool)
    ensures
        !r,
{
    false
}

pub fn default_sniff_http_host() -> (r: bool)
    ensures
        !r,
{
    false
}

pub fn default_sniff_quic_sni() -> (r: bool)
    ensures
        !r,
{
    false
}

pub fn default_tcp_peek_buffer_size() -> (r: usize)
    ensures
        r == 32768,
{
    32768
}

pub fn default_tls_sniff_peek_len() -> (r: usize)
    ensures
        r == 2048,
{
    2048
}

pub fn default_tls_sniff_max_len() -> (r: usize)
    ensures
        r == 32768,
{
    32768
}

pub fn default_tls_sniff_max_retries() -> (r: usize)
    ensures
        r == 5,
{
    5
}

pub fn default_tls_sniff_wait_more_ms() -> (r: u64)
    ensures
        r == 100,
{
    100
}

pub fn default_tls_sniff_timeout_ms() -> (r: u64)
    ensures
        r == 1000,
{
    1000
}

pub fn default_http_sniff_peek_len() -> (r: usize)
    ensures
        r == 512,
{
    512
}

pub fn default_http_sniff_max_len() -> (r: usize)
    ensures
        r == 16384,
{
    16384
}

pub fn default_http_sniff_max_retries() -> (r: usize)
    ensures
        r == 5,
{
    5
}

pub fn default_http_sniff_wait_more_ms() -> (r: u64)
    ensures
        r == 100,
{
    100
}

pub fn default_http_sniff_timeout_ms() -> (r: u64)
    ensures
        r == 1000,
{
    1000
}

pub fn default_direct_local_ip() -> (r: bool)
    ensures
        r,
{
    true
}

pub fn default_disable_upstream_score() -> (r: bool)
    ensures
        !r,
{
    false
}

pub fn default_upstream_switch_tolerance() -> (r: u32)
    ensures
        r == 0,
{
    0
}

pub fn default_health_check_interval_secs() -> (r: u64)
    ensures
        r == 0,
{
    0
}

pub fn default_health_check_timeout_secs() -> (r: u64)
    ensures
        r == 5,
{
    5
}

pub fn default_health_check_fail_threshold() -> (r: u32)
    ensures
        r == 2,
{
    2
}

pub fn default_quic_weight() -> (r: u32)
    ensures
        r == 70,
{
    70
}

pub fn default_route_cache_ttl_secs() -> (r: u64)
    ensures
        r == 5,
{
    5
}

pub fn default_route_cache_max() -> (r: usize)
    ensures
        r == 4096,
{
    4096
}

pub fn default_quic_sniff_pending_timeout_ms() -> (r: u64)
    ensures
        r == 200,
{
    200
}


pub fn default_quic_sniff_mode() -> (r: QuicSniffMode)
    ensures
        r == QuicSniffMode::BestEffort,
{
    QuicSniffMode::BestEffort
}

// ---------------------------------------------------------------------------
// Validation
// ---------------------------------------------------------------------------

/// What is wrong with a configuration. Numbers are positions in its lists.
#[derive(Debug, Clone, Copy, PartialEq, Eq, Structural)]
pub enum ConfigError {
    QuicWeight,
    UdpSessionTimeout,
    ConnectTimeout,
    Gain { upstream: usize },
    NoDefaultGroup,
    ClientRouteAddress { route: usize },
    ClientRouteGroup { route: usize },
    DomainRouteAddress { route: usize },
    DomainRouteGroup { route: usize, domain: usize },
    Listen,
    ForwardBind { forward: usize },
    ForwardConflict { forward: usize },
}

/// What the addresses of a configuration read as.
pub struct ConfigAddrs {
    /// For each client route, whether its client is an address or a network.
    pub client_routes: Vec<bool>,
    /// For each client of domain routes, the same.
    pub client_domain_routes: Vec<bool>,
    pub listen: Option<SocketAddr>,
    /// The local address of each port forward.
    pub binds: Vec<Option<SocketAddr>>,
}

/// The view of [`ConfigAddrs`].
pub struct AddrsView {
    pub client_routes: Seq<bool>,
    pub client_domain_routes: Seq<bool>,
    pub listen: Option<SocketAddr>,
    pub binds: Seq<Option<SocketAddr>>,
}

impl View for ConfigAddrs {
    type V = AddrsView;

    open spec fn view(&self) -> AddrsView {
        AddrsView {
            client_routes: self.client_routes@,
            client_domain_routes: self.client_domain_routes@,
            listen: self.listen,
            binds: self.binds@,
        }
    }
}

impl AddrsView {
    /// There is an answer for every address of the configuration.
    pub open spec fn fits(self, c: &Config) -> bool {
        &&& self.client_routes.len() == c.client_routes@.len()
        &&& self.client_domain_routes.len() == c.client_domain_routes@.len()
        &&& self.binds.len() == c.port_forward@.len()
    }
}

/// What the addresses of a configuration read as.
pub open spec fn addrs_in(c: &Config) -> AddrsView {
    AddrsView {
        client_routes: Seq::new(
            c.client_routes@.len(),
            |i: int| util::net_of_text(c.client_routes@[i].client@) is Ok,
        ),
        client_domain_routes: Seq::new(
            c.client_domain_routes@.len(),
            |i: int| util::net_of_text(c.client_domain_routes@[i].client@) is Ok,
        ),
        listen: net::socket_addr_in_text(c.listen@),
        binds: Seq::new(
            c.port_forward@.len(),
            |i: int| net::socket_addr_in_text(c.port_forward@[i].bind@),
        ),
    }
}

/// A server counts for a group when routes are checked: one of its groups has the
/// name, and a server without groups, whether its list is empty or not set, counts
/// for `default`.
pub open spec fn belongs_to(u: UpstreamConfig, group: Seq<char>) -> bool {
    match u.groups {
        Some(groups) if groups@.len() > 0 => exists|k: int|
            0 <= k < groups@.len() && (#[trigger] groups@[k])@ == group,
        _ => group == "default"@,
    }
}

/// Some server belongs to a group.
pub open spec fn has_group(ups: Seq<UpstreamConfig>, group: Seq<char>) -> bool {
    exists|i: int| 0 <= i < ups.len() && belongs_to(#[trigger] ups[i], group)
}

/// The first server at or after `i` whose gain is no positive number.
pub open spec fn gain_fault(ups: Seq<UpstreamConfig>, i: int) -> Option<ConfigError>
    decreases ups.len() - i,
{
    if i >= ups.len() {
        None
    } else if !is_valid_gain(ups[i].gain_bits) {
        Some(ConfigError::Gain { upstream: i as usize })
    } else {
        gain_fault(ups, i + 1)
    }
}

/// The first client route at or after `i` that is wrong.
pub open spec fn client_route_fault(c: &Config, addrs: AddrsView, i: int) -> Option<ConfigError>
    decreases c.client_routes@.len() - i,
{
    if i >= c.client_routes@.len() {
        None
    } else if !addrs.client_routes[i] {
        Some(ConfigError::ClientRouteAddress { route: i as usize })
    } else if !has_group(c.upstream@, c.client_routes@[i].group@) {
        Some(ConfigError::ClientRouteGroup { route: i as usize })
    } else {
        client_route_fault(c, addrs, i + 1)
    }
}

/// The first domain at or after `j` of the client `i` whose group has no server.
pub open spec fn domain_group_fault(c: &Config, i: int, j: int) -> Option<ConfigError>
    decreases c.client_domain_routes@[i].domains@.len() - j,
{
    let domains = c.client_domain_routes@[i].domains@;
    if j >= domains.len() {
        None
    } else if !has_group(c.upstream@, domains[j].group@) {
        Some(ConfigError::DomainRouteGroup { route: i as usize, domain: j as usize })
    } else {
        domain_group_fault(c, i, j + 1)
    }
}

/// The first client of domain routes at or after `i` with something wrong.
pub open spec fn domain_route_fault(c: &Config, addrs: AddrsView, i: int) -> Option<ConfigError>
    decreases c.client_domain_routes@.len() - i,
{
    if i >= c.client_domain_routes@.len() {
        None
    } else if !addrs.client_domain_routes[i] {
        Some(ConfigError::DomainRouteAddress { route: i as usize })
    } else {
        match domain_group_fault(c, i, 0) {
            Some(e) => Some(e),
            None => domain_route_fault(c, addrs, i + 1),
        }
    }
}

/// Two addresses agree in IP and port.
pub open spec fn same_endpoint(a: SocketAddr, b: SocketAddr) -> bool {
    a.spec_ip() == b.spec_ip() && a.spec_port() == b.spec_port()
}

/// The first port forward at or after `i` whose local address is none, or is
/// that of the intercepted traffic.
pub open spec fn forward_fault(
    listen: SocketAddr,
    binds: Seq<Option<SocketAddr>>,
    i: int,
) -> Option<ConfigError>
    decreases binds.len() - i,
{
    if i >= binds.len() {
        None
    } else {
        match binds[i] {
            None => Some(ConfigError::ForwardBind { forward: i as usize }),
            Some(bind) => if same_endpoint(bind, listen) {
                Some(ConfigError::ForwardConflict { forward: i as usize })
            } else {
                forward_fault(listen, binds, i + 1)
            },
        }
    }
}

/// The first thing that is wrong with a configuration: numbers, gains, groups,
/// routes and addresses in this order.
pub open spec fn config_fault(c: &Config, addrs: AddrsView) -> Option<ConfigError> {
    if c.quic_weight > 100 {
        Some(ConfigError::QuicWeight)
    } else if c.udp_session_timeout_secs == 0 {
        Some(ConfigError::UdpSessionTimeout)
    } else if c.connect_timeout_secs == 0 {
        Some(ConfigError::ConnectTimeout)
    } else if gain_fault(c.upstream@, 0) is Some {
        gain_fault(c.upstream@, 0)
    } else if !has_group(c.upstream@, "default"@) && c.client_routes@.len() == 0
        && c.client_domain_routes@.len() == 0 {
        Some(ConfigError::NoDefaultGroup)
    } else if client_route_fault(c, addrs, 0) is Some {
        client_route_fault(c, addrs, 0)
    } else if domain_route_fault(c, addrs, 0) is Some {
        domain_route_fault(c, addrs, 0)
    } else {
        match addrs.listen {
            None => Some(ConfigError::Listen),
            Some(listen) => forward_fault(listen, addrs.binds, 0),
        }
    }
}

pub open spec fn fault_of(r: Result<(), ConfigError>) -> Option<ConfigError> {
    match r {
        Ok(()) => None,
        Err(e) => Some(e),
    }
}

fn upstream_belongs_to(u: &UpstreamConfig, group: &str) -> (r: bool)
    ensures
        r == belongs_to(*u, group@),
{
    match &u.groups {
        Some(groups) => {
            if groups.len() == 0 {
                return text::str_eq(group, "default");
            }
            let mut k: usize = 0;
            while k < groups.len()
                invariant
                    u.groups == Some(*groups),
                    0 < groups@.len(),
                    k <= groups@.len(),
                    forall|j: int| 0 <= j < k ==> (#[trigger] groups@[j])@ != group@,
                decreases groups@.len() - k,
            {
                if text::str_eq(groups[k].as_str(), group) {
                    return true;
                }
                k += 1;
            }
            false
        },
        None => text::str_eq(group, "default"),
    }
}

/// Whether some server belongs to a group.
pub fn upstreams_have_group(ups: &Vec<UpstreamConfig>, group: &str) -> (r: bool)
    ensures
        r == has_group(ups@, group@),
{
    let mut i: usize = 0;
    while i < ups.len()
        invariant
            i <= ups@.len(),
            forall|j: int| 0 <= j < i ==> !belongs_to(#[trigger] ups@[j], group@),
        decreases ups@.len() - i,
    {
        if upstream_belongs_to(&ups[i], group) {
            return true;
        }
        i += 1;
    }
    false
}

/// The address and the port in the text of a listen address.
pub fn parse_listen_addr(listen: &str) -> (r: Option<(IpAddr, u16)>)
    ensures
        r == match net::socket_addr_in_text(listen@) {
            Some(a) => Some((a.spec_ip(), a.spec_port())),
            None => None,
        },
{
    match net::parse_socket_addr(listen) {
        Some(a) => Some((a.ip(), a.port())),
        None => None,
    }
}

impl Config {
    fn check_gains(&self) -> (r: Result<(), ConfigError>)
        ensures
            fault_of(r) == gain_fault(self.upstream@, 0),
    {
        let mut i: usize = 0;
        while i < self.upstream.len()
            invariant
                i <= self.upstream@.len(),
                gain_fault(self.upstream@, 0) == gain_fault(self.upstream@, i as int),
            decreases self.upstream@.len() - i,
        {
            let bits = self.upstream[i].gain_bits;
            if bits == 0 || bits >= GAIN_INFINITY {
                return Err(ConfigError::Gain { upstream: i });
            }
            i += 1;
        }
        Ok(())
    }

    fn check_client_routes(&self, addrs: &ConfigAddrs) -> (r: Result<(), ConfigError>)
        requires
            addrs@.fits(self),
        ensures
            fault_of(r) == client_route_fault(self, addrs@, 0),
    {
        let mut i: usize = 0;
        while i < self.client_routes.len()
            invariant
                addrs@.fits(self),
                i <= self.client_routes@.len(),
                client_route_fault(self, addrs@, 0) == client_route_fault(self, addrs@, i as int),
            decreases self.client_routes@.len() - i,
        {
            if !addrs.client_routes[i] {
                return Err(ConfigError::ClientRouteAddress { route: i });
            }
            if !upstreams_have_group(&self.upstream, self.client_routes[i].group.as_str()) {
                return Err(ConfigError::ClientRouteGroup { route: i });
            }
            i += 1;
        }
        Ok(())
    }

    fn check_domain_routes(&self, addrs: &ConfigAddrs) -> (r: Result<(), ConfigError>)
        requires
            addrs@.fits(self),
        ensures
            fault_of(r) == domain_route_fault(self, addrs@, 0),
    {
        let mut i: usize = 0;
        while i < self.client_domain_routes.len()
            invariant
                addrs@.fits(self),
                i <= self.client_domain_routes@.len(),
                domain_route_fault(self, addrs@, 0) == domain_route_fault(self, addrs@, i as int),
            decreases self.client_domain_routes@.len() - i,
        {
            if !addrs.client_domain_routes[i] {
                return Err(ConfigError::DomainRouteAddress { route: i });
            }
            let domains = &self.client_domain_routes[i].domains;
            let mut j: usize = 0;
            while j < domains.len()
                invariant
                    addrs@.fits(self),
                    i < self.client_domain_routes@.len(),
                    domains == &self.client_domain_routes@[i as int].domains,
                    j <= domains@.len(),
                    addrs.client_domain_routes@[i as int],
                    domain_route_fault(self, addrs@, 0) == domain_route_fault(self, addrs@, i as int),
                    domain_group_fault(self, i as int, 0) == domain_group_fault(
                        self,
                        i as int,
                        j as int,
                    ),
                decreases domains@.len() - j,
            {
                if !upstreams_have_group(&self.upstream, domains[j].group.as_str()) {
                    return Err(ConfigError::DomainRouteGroup { route: i, domain: j });
                }
                j += 1;
            }
            i += 1;
        }
        Ok(())
    }

    /// Whether the configuration is valid, given what its addresses read as; if
    /// not, the first thing that is wrong.
    pub fn validate_with(&self, addrs: &ConfigAddrs) -> (r: Result<(), ConfigError>)
        requires
            addrs@.fits(self),
        ensures
            fault_of(r) == config_fault(self, addrs@),
    {
        if self.quic_weight > 100 {
            return Err(ConfigError::QuicWeight);
        }
        if self.udp_session_timeout_secs == 0 {
            return Err(ConfigError::UdpSessionTimeout);
        }
        if self.connect_timeout_secs == 0 {
            return Err(ConfigError::ConnectTimeout);
        }
        self.check_gains()?;
        if !upstreams_have_group(&self.upstream, "default") && self.client_routes.len() == 0
            && self.client_domain_routes.len() == 0 {
            return Err(ConfigError::NoDefaultGroup);
        }
        self.check_client_routes(addrs)?;
        self.check_domain_routes(addrs)?;
        let listen = match addrs.listen {
            Some(a) => a,
            None => {
                return Err(ConfigError::Listen);
            },
        };
        let mut i: usize = 0;
        while i < addrs.binds.len()
            invariant
                i <= addrs.binds@.len(),
                addrs.listen == Some(listen),
                config_fault(self, addrs@) == forward_fault(listen, addrs.binds@, i as int),
            decreases addrs.binds@.len() - i,
        {
            match addrs.binds[i] {
                None => {
                    return Err(ConfigError::ForwardBind { forward: i });
                },
                Some(bind) => {
                    if bind.ip() == listen.ip() && bind.port() == listen.port() {
                        return Err(ConfigError::ForwardConflict { forward: i });
                    }
                },
            }
            i += 1;
        }
        Ok(())
    }

    /// What the addresses of the configuration read as.
    pub fn read_addrs(&self) -> (r: ConfigAddrs)
        ensures
            r@ == addrs_in(self),
    {
        let mut client_routes: Vec<bool> = Vec::new();
        let mut i: usize = 0;
        while i < self.client_routes.len()
            invariant
                i <= self.client_routes@.len(),
                client_routes@.len() == i,
                forall|j: int|
                    0 <= j < i ==> #[trigger] client_routes@[j] == util::net_of_text(
                        self.client_routes@[j].client@,
                    ) is Ok,
            decreases self.client_routes@.len() - i,
        {
            client_routes.push(parse_ip_or_cidr(self.client_routes[i].client.as_str()).is_ok());
            i += 1;
        }
        let mut client_domain_routes: Vec<bool> = Vec::new();
        i = 0;
        while i < self.client_domain_routes.len()
            invariant
                i <= self.client_domain_routes@.len(),
                client_domain_routes@.len() == i,
                forall|j: int|
                    0 <= j < i ==> #[trigger] client_domain_routes@[j] == util::net_of_text(
                        self.client_domain_routes@[j].client@,
                    ) is Ok,
            decreases self.client_domain_routes@.len() - i,
        {
            client_domain_routes.push(
                parse_ip_or_cidr(self.client_domain_routes[i].client.as_str()).is_ok(),
            );
            i += 1;
        }
        let mut binds: Vec<Option<SocketAddr>> = Vec::new();
        i = 0;
        while i < self.port_forward.len()
            invariant
                i <= self.port_forward@.len(),
                binds@.len() == i,
                forall|j: int|
                    0 <= j < i ==> #[trigger] binds@[j] == net::socket_addr_in_text(
                        self.port_forward@[j].bind@,
                    ),
            decreases self.port_forward@.len() - i,
        {
            binds.push(net::parse_socket_addr(self.port_forward[i].bind.as_str()));
            i += 1;
        }
        let r = ConfigAddrs {
            client_routes,
            client_domain_routes,
            listen: net::parse_socket_addr(self.listen.as_str()),
            binds,
        };
        assert(r@.client_routes =~= addrs_in(self).client_routes);
        assert(r@.client_domain_routes =~= addrs_in(self).client_domain_routes);
        assert(r@.binds =~= addrs_in(self).binds);
        r
    }

    /// Whether the configuration is valid; if not, the first thing that is wrong.
    pub fn validate(&self) -> (r: Result<(), ConfigError>)
        ensures
            fault_of(r) == config_fault(self, addrs_in(self)),
    {
        let addrs = self.read_addrs();
        self.validate_with(&addrs)
    }
}

// ---------------------------------------------------------------------------
// Tags
// ---------------------------------------------------------------------------

/// A tag without white space around it, in lower case and without `geosite:`
/// before it.
pub open spec fn normalized_tag(tag: Seq<char>) -> Seq<char> {
    let lower = text::lowercase(text::trimmed(tag));
    let prefix = "geosite:"@;
    if prefix.len() <= lower.len() && lower.take(prefix.len() as int) == prefix {
        lower.skip(prefix.len() as int)
    } else {
        lower
    }
}

/// A lower-case tag without `geosite:` before it.
pub fn strip_tag_prefix(lower: &[char]) -> (r: Vec<char>)
    ensures
        r@ == ({
            let prefix = "geosite:"@;
            if prefix.len() <= lower@.len() && lower@.take(prefix.len() as int) == prefix {
                lower@.skip(prefix.len() as int)
            } else {
                lower@
            }
        }),
{
    let prefix = text::chars_of("geosite:");
    if prefix.len() <= lower.len() {
        let head = text::slice_chars(lower, 0, prefix.len());
        assert(head@ =~= lower@.take(prefix@.len() as int));
        if text::chars_eq(head.as_slice(), prefix.as_slice()) {
            let rest = text::slice_chars(lower, prefix.len(), lower.len());
            assert(rest@ =~= lower@.skip(prefix@.len() as int));
            return rest;
        }
    }
    let all = text::slice_chars(lower, 0, lower.len());
    assert(all@ =~= lower@);
    all
}

fn normalize_tag(tag: &str) -> (r: String)
    ensures
        r@ == normalized_tag(tag@),
{
    let chars = text::chars_of(tag);
    let trimmed = text::trim_chars(chars.as_slice());
    let trimmed = text::string_of(trimmed.as_slice());
    let lower = text::lowercase_str(trimmed.as_str());
    let lower = text::chars_of(lower.as_str());
    let bare = strip_tag_prefix(lower.as_slice());
    text::string_of(bare.as_slice())
}

/// The tags of a list in the form in which they are compared.
pub fn normalize_tags(tags: &Vec<String>) -> (r: Vec<String>)
    ensures
        r@.len() == tags@.len(),
        forall|i: int|
            0 <= i < tags@.len() ==> (#[trigger] r@[i])@ == normalized_tag(tags@[i]@),
{
    let mut r: Vec<String> = Vec::new();
    let mut i: usize = 0;
    while i < tags.len()
        invariant
            i <= tags@.len(),
            r@.len() == i,
            forall|j: int| 0 <= j < i ==> (#[trigger] r@[j])@ == normalized_tag(tags@[j]@),
        decreases tags@.len() - i,
    {
        r.push(normalize_tag(tags[i].as_str()));
        i += 1;
    }
    r
}

impl Config {
    /// Brings the tags of the two lists into the form in which they are compared.
    pub fn normalize_geosite_tags(&mut self)
        ensures
            final(self).proxy_geosite_tags@.len() == old(self).proxy_geosite_tags@.len(),
            forall|i: int|
                0 <= i < old(self).proxy_geosite_tags@.len() ==> (
                #[trigger] final(self).proxy_geosite_tags@[i])@ == normalized_tag(
                    old(self).proxy_geosite_tags@[i]@,
                ),
            final(self).direct_geosite_tags@.len() == old(self).direct_geosite_tags@.len(),
            forall|i: int|
                0 <= i < old(self).direct_geosite_tags@.len() ==> (
                #[trigger] final(self).direct_geosite_tags@[i])@ == normalized_tag(
                    old(self).direct_geosite_tags@[i]@,
                ),
            *final(self) == (Config {
                proxy_geosite_tags: final(self).proxy_geosite_tags,
                direct_geosite_tags: final(self).direct_geosite_tags,
                ..*old(self)
            }),
    {
        self.proxy_geosite_tags = normalize_tags(&self.proxy_geosite_tags);
        self.direct_geosite_tags = normalize_tags(&self.direct_geosite_tags);
    }
}

/// Why no servers come out of a configuration.
#[derive(Debug, Clone, Copy, PartialEq, Eq, Structural)]
pub enum UpstreamSetError {
    /// There is no server.
    Empty,
    /// The name of this server is blank.
    EmptyId { upstream: usize },
    /// The name of this server is that of one before it.
    DuplicateId { upstream: usize },
}

/// The name of a server: as it was set, without white space around it.
pub open spec fn server_id(u: UpstreamConfig) -> Seq<char> {
    text::trimmed(u.id@)
}

/// The name of the server `i` is that of one before it.
pub open spec fn repeats_id(ups: Seq<UpstreamConfig>, i: int) -> bool {
    exists|k: int| 0 <= k < i && server_id(#[trigger] ups[k]) == server_id(ups[i])
}

/// The first server at or after `i` without a name of its own.
pub open spec fn id_fault(ups: Seq<UpstreamConfig>, i: int) -> Option<UpstreamSetError>
    decreases ups.len() - i,
{
    if i >= ups.len() {
        None
    } else if server_id(ups[i]).len() == 0 {
        Some(UpstreamSetError::EmptyId { upstream: i as usize })
    } else if repeats_id(ups, i) {
        Some(UpstreamSetError::DuplicateId { upstream: i as usize })
    } else {
        id_fault(ups, i + 1)
    }
}

/// The first thing that is wrong with a list of servers.
pub open spec fn upstreams_fault(ups: Seq<UpstreamConfig>) -> Option<UpstreamSetError> {
    if ups.len() == 0 {
        Some(UpstreamSetError::Empty)
    } else {
        id_fault(ups, 0)
    }
}

/// The groups of a server: those that were set, or `default` where no list was set.
/// A server with a list of no groups is in none.
pub open spec fn server_groups(u: UpstreamConfig) -> Seq<Seq<char>> {
    match u.groups {
        Some(groups) => text::names(groups@),
        None => seq!["default"@],
    }
}

/// A server as it was set, of which nothing is known yet.
pub open spec fn is_server_of(u: Upstream, c: UpstreamConfig) -> bool {
    &&& u.id@ == server_id(c)
    &&& text::names(u.groups@) == server_groups(c)
    &&& u == (Upstream {
        id: u.id,
        addr: c.addr,
        groups: u.groups,
        gain_bits: c.gain_bits,
        tcp_score: upstream::DEFAULT_SCORE,
        tcp_score_initialized: false,
        last_total_recv: 0,
        last_total_sent: 0,
        last_check_secs: 0,
        tcp_info_initialized: false,
        health_failures: 0,
        quic_uplink_score: upstream::DEFAULT_SCORE,
        quic_downlink_score: upstream::DEFAULT_SCORE,
        quic_uplink_last_update_secs: 0,
        quic_downlink_last_update_secs: 0,
        quic_weight: u.quic_weight,
    })
}

fn copy_names(list: &Vec<String>) -> (r: Vec<String>)
    ensures
        text::names(r@) == text::names(list@),
{
    let mut r: Vec<String> = Vec::new();
    let mut i: usize = 0;
    while i < list.len()
        invariant
            i <= list@.len(),
            r@.len() == i,
            forall|k: int| 0 <= k < i ==> (#[trigger] r@[k])@ == list@[k]@,
        decreases list@.len() - i,
    {
        r.push(text::copy_str(list[i].as_str()));
        i += 1;
    }
    assert(text::names(r@) =~= text::names(list@));
    r
}

fn make_server(c: &UpstreamConfig) -> (r: Upstream)
    ensures
        is_server_of(r, *c),
        r.wf(),
{
    let chars = text::chars_of(c.id.as_str());
    let id = text::string_of(text::trim_chars(chars.as_slice()).as_slice());
    let groups = match &c.groups {
        Some(groups) => copy_names(groups),
        None => {
            let groups = vec![text::copy_str("default")];
            assert(text::names(groups@) =~= seq!["default"@]);
            groups
        },
    };
    Upstream::new(id, c.addr, groups, c.gain_bits)
}

fn check_ids(ups: &Vec<UpstreamConfig>) -> (r: Option<UpstreamSetError>)
    ensures
        r == id_fault(ups@, 0),
{
    let mut ids: Vec<Vec<char>> = Vec::new();
    let mut i: usize = 0;
    while i < ups.len()
        invariant
            i <= ups@.len(),
            ids@.len() == i,
            forall|k: int| 0 <= k < i ==> (#[trigger] ids@[k])@ == server_id(ups@[k]),
            id_fault(ups@, 0) == id_fault(ups@, i as int),
        decreases ups@.len() - i,
    {
        let chars = text::chars_of(ups[i].id.as_str());
        let id = text::trim_chars(chars.as_slice());
        if id.len() == 0 {
            return Some(UpstreamSetError::EmptyId { upstream: i });
        }
        let mut k: usize = 0;
        while k < ids.len()
            invariant
                i < ups@.len(),
                ids@.len() == i,
                k <= i,
                id@ == server_id(ups@[i as int]),
                id@.len() > 0,
                forall|j: int| 0 <= j < i ==> (#[trigger] ids@[j])@ == server_id(ups@[j]),
                forall|j: int|
                    0 <= j < k ==> server_id(#[trigger] ups@[j]) != server_id(ups@[i as int]),
                id_fault(ups@, 0) == id_fault(ups@, i as int),
            decreases ids@.len() - k,
        {
            if text::chars_eq(ids[k].as_slice(), id.as_slice()) {
                assert(server_id(ups@[k as int]) == server_id(ups@[i as int]));
                return Some(UpstreamSetError::DuplicateId { upstream: i });
            }
            k += 1;
        }
        assert(!repeats_id(ups@, i as int));
        ids.push(id);
        i += 1;
    }
    None
}

impl Config {
    /// The servers of the configuration. Each has a name of its own, and all have
    /// the same share of QUIC.
    pub fn build_upstream_set(&self) -> (r: Result<UpstreamSet, UpstreamSetError>)
        ensures
            match r {
                Ok(set) => {
                    &&& upstreams_fault(self.upstream@) is None
                    &&& set.items@.len() == self.upstream@.len()
                    &&& forall|i: int|
                        0 <= i < self.upstream@.len() ==> {
                            &&& is_server_of(#[trigger] set.items@[i], self.upstream@[i])
                            &&& set.items@[i].quic_weight == if self.quic_weight <= 100 {
                                self.quic_weight
                            } else {
                                100
                            }
                        }
                    &&& set.current@.len() == 0
                    &&& set.tolerance == self.upstream_switch_tolerance
                    &&& set.wf()
                },
                Err(e) => upstreams_fault(self.upstream@) == Some(e),
            },
    {
        if self.upstream.len() == 0 {
            return Err(UpstreamSetError::Empty);
        }
        if let Some(e) = check_ids(&self.upstream) {
            return Err(e);
        }
        let mut items: Vec<Upstream> = Vec::new();
        let mut i: usize = 0;
        while i < self.upstream.len()
            invariant
                i <= self.upstream@.len(),
                items@.len() == i,
                forall|k: int| 0 <= k < i ==> is_server_of(#[trigger] items@[k], self.upstream@[k]),
            decreases self.upstream@.len() - i,
        {
            items.push(make_server(&self.upstream[i]));
            i += 1;
        }
        let ghost made = items@;
        match UpstreamSet::new(items, self.upstream_switch_tolerance, self.quic_weight) {
            Ok(set) => {
                assert forall|k: int| 0 <= k < self.upstream@.len() implies is_server_of(
                    #[trigger] set.items@[k],
                    self.upstream@[k],
                ) by {
                    assert(is_server_of(made[k], self.upstream@[k]));
                }
                Ok(set)
            },
            Err(_) => Err(UpstreamSetError::Empty),
        }
    }
}

proof fn lemma_id_fault_none(ups: Seq<UpstreamConfig>, from: int, i: int)
    requires
        0 <= from <= i < ups.len(),
        id_fault(ups, from) is None,
    ensures
        server_id(ups[i]).len() > 0,
        !repeats_id(ups, i),
    decreases i - from,
{
    if from < i {
        lemma_id_fault_none(ups, from + 1, i);
    }
}

/// Every server of a configuration that passes has a name, and no two have the
/// same.
pub proof fn server_names_differ(ups: Seq<UpstreamConfig>, i: int, j: int)
    requires
        upstreams_fault(ups) is None,
        0 <= i < j < ups.len(),
    ensures
        server_id(ups[i]).len() > 0,
        server_id(ups[i]) != server_id(ups[j]),
{
    lemma_id_fault_none(ups, 0, i);
    lemma_id_fault_none(ups, 0, j);
}

proof fn lemma_gains(ups: Seq<UpstreamConfig>, from: int, i: int)
    requires
        0 <= from <= i < ups.len(),
        gain_fault(ups, from) is None,
    ensures
        is_valid_gain(ups[i].gain_bits),
    decreases i - from,
{
    if from < i {
        lemma_gains(ups, from + 1, i);
    }
}

proof fn lemma_client_routes(c: &Config, addrs: AddrsView, from: int, i: int)
    requires
        0 <= from <= i < c.client_routes@.len(),
        client_route_fault(c, addrs, from) is None,
    ensures
        addrs.client_routes[i],
        has_group(c.upstream@, c.client_routes@[i].group@),
    decreases i - from,
{
    if from < i {
        lemma_client_routes(c, addrs, from + 1, i);
    }
}

proof fn lemma_domain_groups(c: &Config, i: int, from: int, j: int)
    requires
        0 <= from <= j < c.client_domain_routes@[i].domains@.len(),
        domain_group_fault(c, i, from) is None,
    ensures
        has_group(c.upstream@, c.client_domain_routes@[i].domains@[j].group@),
    decreases j - from,
{
    if from < j {
        lemma_domain_groups(c, i, from + 1, j);
    }
}

proof fn lemma_domain_routes(c: &Config, addrs: AddrsView, from: int, i: int)
    requires
        0 <= from <= i < c.client_domain_routes@.len(),
        domain_route_fault(c, addrs, from) is None,
    ensures
        addrs.client_domain_routes[i],
        domain_group_fault(c, i, 0) is None,
    decreases i - from,
{
    if from < i {
        lemma_domain_routes(c, addrs, from + 1, i);
    }
}

proof fn lemma_forwards(listen: SocketAddr, binds: Seq<Option<SocketAddr>>, from: int, i: int)
    requires
        0 <= from <= i < binds.len(),
        forward_fault(listen, binds, from) is None,
    ensures
        binds[i] matches Some(bind) && !same_endpoint(bind, listen),
    decreases i - from,
{
    if from < i {
        lemma_forwards(listen, binds, from + 1, i);
    }
}

/// In a configuration that passes, every route of a client leads to a group that
/// has a server, and every gain is a positive number.
pub proof fn valid_routes_lead_to_servers(c: &Config, addrs: AddrsView, i: int)
    requires
        addrs.fits(c),
        config_fault(c, addrs) is None,
    ensures
        0 <= i < c.upstream@.len() ==> is_valid_gain(c.upstream@[i].gain_bits),
        0 <= i < c.client_routes@.len() ==> addrs.client_routes[i] && has_group(
            c.upstream@,
            c.client_routes@[i].group@,
        ),
        0 <= i < c.client_domain_routes@.len() ==> addrs.client_domain_routes[i] && forall|j: int|
            0 <= j < c.client_domain_routes@[i].domains@.len() ==> has_group(
                c.upstream@,
                (#[trigger] c.client_domain_routes@[i].domains@[j]).group@,
            ),
        c.client_routes@.len() == 0 && c.client_domain_routes@.len() == 0 ==> has_group(
            c.upstream@,
            "default"@,
        ),
{
    if 0 <= i < c.upstream@.len() {
        lemma_gains(c.upstream@, 0, i);
    }
    if 0 <= i < c.client_routes@.len() {
        lemma_client_routes(c, addrs, 0, i);
    }
    if 0 <= i < c.client_domain_routes@.len() {
        lemma_domain_routes(c, addrs, 0, i);
        assert forall|j: int| 0 <= j < c.client_domain_routes@[i].domains@.len() implies has_group(
            c.upstream@,
            (#[trigger] c.client_domain_routes@[i].domains@[j]).group@,
        ) by {
            lemma_domain_groups(c, i, 0, j);
        }
    }
}

/// In a configuration that passes, no port forward takes the address of the
/// intercepted traffic.
pub proof fn valid_forwards_do_not_collide(c: &Config, addrs: AddrsView, i: int)
    requires
        addrs.fits(c),
        config_fault(c, addrs) is None,
        0 <= i < addrs.binds.len(),
    ensures
        addrs.listen matches Some(listen) && addrs.binds[i] matches Some(bind) && !same_endpoint(
            bind,
            listen,
        ),
{
    lemma_forwards(addrs.listen->0, addrs.binds, 0, i);
}

proof fn lemma_hits(groups: Seq<String>, group: Seq<char>, n: int)
    requires
        0 <= n <= groups.len(),
    ensures
        upstream::hits(groups, group, n) > 0 <==> exists|k: int|
            0 <= k < n && (#[trigger] groups[k])@ == group,
    decreases n,
{
    if n > 0 {
        lemma_hits(groups, group, n - 1);
    }
}

/// Some server is in a group.
pub open spec fn is_in_use(ups: Seq<UpstreamConfig>, group: Seq<char>, n: int) -> bool {
    exists|i: int| 0 <= i < n && (#[trigger] server_groups(ups[i])).contains(group)
}

proof fn lemma_members(items: Seq<Upstream>, ups: Seq<UpstreamConfig>, group: Seq<char>, n: int)
    requires
        0 <= n <= items.len() == ups.len(),
        forall|i: int| 0 <= i < ups.len() ==> is_server_of(#[trigger] items[i], ups[i]),
    ensures
        upstream::members_upto(items, group, n).len() > 0 <==> is_in_use(ups, group, n),
    decreases n,
{
    if n > 0 {
        lemma_members(items, ups, group, n - 1);
        let u = items[n - 1];
        let names = text::names(u.groups@);
        lemma_hits(u.groups@, group, u.groups@.len() as int);
        assert(is_server_of(u, ups[n - 1]));
        assert(names == server_groups(ups[n - 1]));
        assert((exists|k: int| 0 <= k < u.groups@.len() && (#[trigger] u.groups@[k])@ == group)
            <==> names.contains(group)) by {
            if exists|k: int| 0 <= k < u.groups@.len() && (#[trigger] u.groups@[k])@ == group {
                let k = choose|k: int|
                    0 <= k < u.groups@.len() && (#[trigger] u.groups@[k])@ == group;
                assert(names[k] == group);
            }
            if names.contains(group) {
                let k = choose|k: int| 0 <= k < names.len() && names[k] == group;
                assert(u.groups@[k]@ == group);
            }
        }
        if is_in_use(ups, group, n) {
            let i = choose|i: int|
                0 <= i < n && (#[trigger] server_groups(ups[i])).contains(group);
            if i < n - 1 {
                assert(server_groups(ups[i]).contains(group));
            }
        }
    }
}

proof fn lemma_belongs(u: UpstreamConfig, group: Seq<char>)
    ensures
        server_groups(u).contains(group) ==> belongs_to(u, group),
        belongs_to(u, group) && (u.groups matches Some(groups) ==> groups@.len() > 0)
            ==> server_groups(u).contains(group),
{
    let names = server_groups(u);
    match u.groups {
        Some(groups) => {
            if names.contains(group) {
                let k = choose|k: int| 0 <= k < names.len() && names[k] == group;
                assert(groups@[k]@ == group);
            }
            if groups@.len() > 0 && belongs_to(u, group) {
                let k = choose|k: int| 0 <= k < groups@.len() && (#[trigger] groups@[k])@ == group;
                assert(names[k] == group);
            }
        },
        None => {
            assert(names[0] == "default"@);
        },
    }
}

/// Among the servers that a configuration makes, a group has members exactly when
/// the configuration puts a server into it. Where no server has a list of no
/// groups, these are the groups that routes may lead to.
pub proof fn groups_of_the_configuration_have_members(
    items: Seq<Upstream>,
    ups: Seq<UpstreamConfig>,
    group: Seq<char>,
)
    requires
        items.len() == ups.len(),
        forall|i: int| 0 <= i < ups.len() ==> is_server_of(#[trigger] items[i], ups[i]),
    ensures
        upstream::members(items, group).len() > 0 <==> is_in_use(ups, group, ups.len() as int),
        upstream::members(items, group).len() > 0 ==> has_group(ups, group),
        (forall|i: int|
            0 <= i < ups.len() && (#[trigger] ups[i]).groups is Some ==> ups[i].groups->0@.len() > 0)
            ==> (has_group(ups, group) ==> upstream::members(items, group).len() > 0),
{
    lemma_members(items, ups, group, ups.len() as int);
    if is_in_use(ups, group, ups.len() as int) {
        let i = choose|i: int|
            0 <= i < ups.len() && (#[trigger] server_groups(ups[i])).contains(group);
        lemma_belongs(ups[i], group);
        assert(belongs_to(ups[i], group));
    }
    if has_group(ups, group) {
        let i = choose|i: int| 0 <= i < ups.len() && belongs_to(#[trigger] ups[i], group);
        lemma_belongs(ups[i], group);
    }
}

// ---------------------------------------------------------------------------
// Which configurations pass
// ---------------------------------------------------------------------------

/// A gain is finite and greater than zero: its bits are those of no zero, no negative
/// number, no infinity and no NaN.
pub proof fn gains_are_positive_numbers(bits: u64)
    ensures
        is_valid_gain(bits) <==> bits != 0 && bits < 0x8000_0000_0000_0000 && bits
            / 0x10_0000_0000_0000 != 0x7ff,
{
}

/// A server counts for the groups that it names. One that names none counts for
/// `default` alone.
pub proof fn servers_count_for_their_groups(u: UpstreamConfig, group: Seq<char>)
    ensures
        u.groups is None ==> (belongs_to(u, group) <==> group == "default"@),
        u.groups matches Some(g) ==> {
            &&& g@.len() == 0 ==> (belongs_to(u, group) <==> group == "default"@)
            &&& g@.len() > 0 ==> (belongs_to(u, group) <==> text::names(g@).contains(group))
        },
{
    if let Some(g) = u.groups {
        let names = text::names(g@);
        if names.contains(group) {
            let k = choose|k: int| 0 <= k < names.len() && names[k] == group;
            assert(g@[k]@ == group);
        }
        if exists|k: int| 0 <= k < g@.len() && (#[trigger] g@[k])@ == group {
            let k = choose|k: int| 0 <= k < g@.len() && (#[trigger] g@[k])@ == group;
            assert(names[k] == group);
        }
    }
}

proof fn lemma_no_gain_fault(ups: Seq<UpstreamConfig>, i: int)
    requires
        0 <= i,
        forall|k: int| i <= k < ups.len() ==> is_valid_gain((#[trigger] ups[k]).gain_bits),
    ensures
        gain_fault(ups, i) is None,
    decreases ups.len() - i,
{
    if i < ups.len() {
        lemma_no_gain_fault(ups, i + 1);
    }
}

/// A route of a client is right: the client is an address or a network, and the group
/// has a server.
pub open spec fn client_route_is_right(c: &Config, addrs: AddrsView, i: int) -> bool {
    addrs.client_routes[i] && has_group(c.upstream@, c.client_routes@[i].group@)
}

proof fn lemma_no_client_route_fault(c: &Config, addrs: AddrsView, i: int)
    requires
        0 <= i,
        forall|k: int|
            i <= k < c.client_routes@.len() ==> #[trigger] client_route_is_right(c, addrs, k),
    ensures
        client_route_fault(c, addrs, i) is None,
    decreases c.client_routes@.len() - i,
{
    if i < c.client_routes@.len() {
        assert(client_route_is_right(c, addrs, i));
        lemma_no_client_route_fault(c, addrs, i + 1);
    }
}

proof fn lemma_no_domain_group_fault(c: &Config, i: int, j: int)
    requires
        0 <= j,
        forall|k: int|
            j <= k < c.client_domain_routes@[i].domains@.len() ==> has_group(
                c.upstream@,
                (#[trigger] c.client_domain_routes@[i].domains@[k]).group@,
            ),
    ensures
        domain_group_fault(c, i, j) is None,
    decreases c.client_domain_routes@[i].domains@.len() - j,
{
    if j < c.client_domain_routes@[i].domains@.len() {
        assert(has_group(c.upstream@, c.client_domain_routes@[i].domains@[j].group@));
        lemma_no_domain_group_fault(c, i, j + 1);
    }
}

/// The routes of a client by domains are right: the client is an address or a network,
/// and the group of every domain has a server.
pub open spec fn domain_route_is_right(c: &Config, addrs: AddrsView, i: int) -> bool {
    &&& addrs.client_domain_routes[i]
    &&& forall|j: int|
        0 <= j < c.client_domain_routes@[i].domains@.len() ==> has_group(
            c.upstream@,
            (#[trigger] c.client_domain_routes@[i].domains@[j]).group@,
        )
}

proof fn lemma_no_domain_route_fault(c: &Config, addrs: AddrsView, i: int)
    requires
        0 <= i,
        forall|k: int|
            i <= k < c.client_domain_routes@.len() ==> #[trigger] domain_route_is_right(
                c,
                addrs,
                k,
            ),
    ensures
        domain_route_fault(c, addrs, i) is None,
    decreases c.client_domain_routes@.len() - i,
{
    if i < c.client_domain_routes@.len() {
        assert(domain_route_is_right(c, addrs, i));
        lemma_no_domain_group_fault(c, i, 0);
        lemma_no_domain_route_fault(c, addrs, i + 1);
    }
}

proof fn lemma_no_forward_fault(listen: SocketAddr, binds: Seq<Option<SocketAddr>>, i: int)
    requires
        0 <= i,
        forall|k: int|
            i <= k < binds.len() ==> (#[trigger] binds[k]) is Some && !same_endpoint(
                binds[k]->0,
                listen,
            ),
    ensures
        forward_fault(listen, binds, i) is None,
    decreases binds.len() - i,
{
    if i < binds.len() {
        assert(binds[i] is Some);
        lemma_no_forward_fault(listen, binds, i + 1);
    }
}

/// A configuration passes exactly when the share of QUIC is a percentage, no timeout is
/// zero, every gain is a positive number, there is a server for `default` or a route
/// that leads elsewhere, every route is for a client and leads to a group with a server,
/// traffic is intercepted at an address, and every forward has a local address, which
/// is not that one.
pub proof fn configurations_pass_exactly_when_right(c: &Config, addrs: AddrsView)
    requires
        addrs.fits(c),
    ensures
        config_fault(c, addrs) is None <==> {
            &&& c.quic_weight <= 100
            &&& c.udp_session_timeout_secs > 0
            &&& c.connect_timeout_secs > 0
            &&& forall|i: int|
                0 <= i < c.upstream@.len() ==> is_valid_gain((#[trigger] c.upstream@[i]).gain_bits)
            &&& has_group(c.upstream@, "default"@) || c.client_routes@.len() > 0
                || c.client_domain_routes@.len() > 0
            &&& forall|i: int|
                0 <= i < c.client_routes@.len() ==> #[trigger] client_route_is_right(c, addrs, i)
            &&& forall|i: int|
                0 <= i < c.client_domain_routes@.len() ==> #[trigger] domain_route_is_right(
                    c,
                    addrs,
                    i,
                )
            &&& addrs.listen is Some
            &&& forall|i: int|
                0 <= i < addrs.binds.len() ==> (#[trigger] addrs.binds[i]) is Some && (
                addrs.binds[i]->0.spec_ip() != addrs.listen->0.spec_ip()
                    || addrs.binds[i]->0.spec_port() != addrs.listen->0.spec_port())
        },
{
    if config_fault(c, addrs) is None {
        assert forall|i: int| 0 <= i < c.upstream@.len() implies is_valid_gain(
            (#[trigger] c.upstream@[i]).gain_bits,
        ) by {
            valid_routes_lead_to_servers(c, addrs, i);
        }
        assert forall|i: int|
            0 <= i < c.client_routes@.len() implies #[trigger] client_route_is_right(
            c,
            addrs,
            i,
        ) by {
            valid_routes_lead_to_servers(c, addrs, i);
        }
        assert forall|i: int|
            0 <= i < c.client_domain_routes@.len() implies #[trigger] domain_route_is_right(
            c,
            addrs,
            i,
        ) by {
            valid_routes_lead_to_servers(c, addrs, i);
        }
        assert forall|i: int| 0 <= i < addrs.binds.len() implies (#[trigger] addrs.binds[i]) is Some
            && (addrs.binds[i]->0.spec_ip() != addrs.listen->0.spec_ip()
            || addrs.binds[i]->0.spec_port() != addrs.listen->0.spec_port()) by {
            valid_forwards_do_not_collide(c, addrs, i);
        }
    }
    if forall|i: int|
        0 <= i < c.upstream@.len() ==> is_valid_gain((#[trigger] c.upstream@[i]).gain_bits) {
        lemma_no_gain_fault(c.upstream@, 0);
    }
    if forall|i: int|
        0 <= i < c.client_routes@.len() ==> #[trigger] client_route_is_right(c, addrs, i) {
        lemma_no_client_route_fault(c, addrs, 0);
    }
    if forall|i: int|
        0 <= i < c.client_domain_routes@.len() ==> #[trigger] domain_route_is_right(c, addrs, i) {
        lemma_no_domain_route_fault(c, addrs, 0);
    }
    if addrs.listen is Some && forall|i: int|
        0 <= i < addrs.binds.len() ==> (#[trigger] addrs.binds[i]) is Some && (
        addrs.binds[i]->0.spec_ip() != addrs.listen->0.spec_ip() || addrs.binds[i]->0.spec_port()
            != addrs.listen->0.spec_port()) {
        lemma_no_forward_fault(addrs.listen->0, addrs.binds, 0);
    }
}

/// Of several faults the one that is named is the first in this order: the share of
/// QUIC, the two timeouts, gains, a missing `default`, and then the rest.
pub proof fn faults_are_named_in_order(c: &Config, addrs: AddrsView, k: int)
    ensures
        c.quic_weight > 100 ==> config_fault(c, addrs) == Some(ConfigError::QuicWeight),
        c.quic_weight <= 100 && c.udp_session_timeout_secs == 0 ==> config_fault(c, addrs) == Some(
            ConfigError::UdpSessionTimeout,
        ),
        c.quic_weight <= 100 && c.udp_session_timeout_secs > 0 && c.connect_timeout_secs == 0
            ==> config_fault(c, addrs) == Some(ConfigError::ConnectTimeout),
        c.quic_weight <= 100 && c.udp_session_timeout_secs > 0 && c.connect_timeout_secs > 0 && 0
            <= k < c.upstream@.len() && !is_valid_gain(c.upstream@[k].gain_bits) && (forall|i: int|
            0 <= i < k ==> is_valid_gain((#[trigger] c.upstream@[i]).gain_bits)) ==> config_fault(
            c,
            addrs,
        ) == Some(ConfigError::Gain { upstream: k as usize }),
{
    if 0 <= k < c.upstream@.len() && !is_valid_gain(c.upstream@[k].gain_bits) && (forall|i: int|
        0 <= i < k ==> is_valid_gain((#[trigger] c.upstream@[i]).gain_bits)) {
        lemma_first_gain(c.upstream@, 0, k);
    }
}

proof fn lemma_first_gain(ups: Seq<UpstreamConfig>, from: int, k: int)
    requires
        0 <= from <= k < ups.len(),
        !is_valid_gain(ups[k].gain_bits),
        forall|i: int| from <= i < k ==> is_valid_gain((#[trigger] ups[i]).gain_bits),
    ensures
        gain_fault(ups, from) == Some(ConfigError::Gain { upstream: k as usize }),
    decreases k - from,
{
    if from < k {
        lemma_first_gain(ups, from + 1, k);
    }
}

proof fn lemma_no_id_fault(ups: Seq<UpstreamConfig>, i: int)
    requires
        0 <= i,
        forall|k: int| i <= k < ups.len() ==> (#[trigger] server_id(ups[k])).len() > 0,
        forall|k: int| i <= k < ups.len() ==> !#[trigger] repeats_id(ups, k),
    ensures
        id_fault(ups, i) is None,
    decreases ups.len() - i,
{
    if i < ups.len() {
        assert(server_id(ups[i]).len() > 0);
        assert(!repeats_id(ups, i));
        lemma_no_id_fault(ups, i + 1);
    }
}

/// A list of servers passes exactly when it is not empty, every server has a name that
/// is more than white space, and no two have the same.
pub proof fn servers_pass_exactly_when_named(ups: Seq<UpstreamConfig>)
    ensures
        upstreams_fault(ups) is None <==> {
            &&& ups.len() > 0
            &&& forall|i: int|
                0 <= i < ups.len() ==> text::trimmed((#[trigger] ups[i]).id@).len() > 0
            &&& forall|i: int, j: int|
                0 <= i < j < ups.len() ==> text::trimmed((#[trigger] ups[i]).id@) != text::trimmed(
                    (#[trigger] ups[j]).id@,
                )
        },
{
    if upstreams_fault(ups) is None {
        assert forall|i: int| 0 <= i < ups.len() implies text::trimmed(
            (#[trigger] ups[i]).id@,
        ).len() > 0 by {
            lemma_id_fault_none(ups, 0, i);
        }
        assert forall|i: int, j: int| 0 <= i < j < ups.len() implies text::trimmed(
            (#[trigger] ups[i]).id@,
        ) != text::trimmed((#[trigger] ups[j]).id@) by {
            server_names_differ(ups, i, j);
        }
    }
    if ups.len() > 0 && (forall|i: int|
        0 <= i < ups.len() ==> text::trimmed((#[trigger] ups[i]).id@).len() > 0) && (forall|
        i: int,
        j: int,
    |
        0 <= i < j < ups.len() ==> text::trimmed((#[trigger] ups[i]).id@) != text::trimmed(
            (#[trigger] ups[j]).id@,
        )) {
        assert forall|k: int| 0 <= k < ups.len() implies (#[trigger] server_id(ups[k])).len()
            > 0 by {
            assert(text::trimmed(ups[k].id@).len() > 0);
        }
        assert forall|k: int| 0 <= k < ups.len() implies !#[trigger] repeats_id(ups, k) by {
            if repeats_id(ups, k) {
                let i = choose|i: int| 0 <= i < k && server_id(#[trigger] ups[i]) == server_id(ups[k]);
                assert(text::trimmed(ups[i].id@) != text::trimmed(ups[k].id@));
            }
        }
        lemma_no_id_fault(ups, 0);
    }
}

/// A server is in the groups that its list names, and in `default` where it has no
/// list. It starts with scores of 150 that count for nothing yet.
pub proof fn servers_start_unknown(u: Upstream, c: UpstreamConfig)
    requires
        is_server_of(u, c),
    ensures
        u.id@ == text::trimmed(c.id@),
        u.addr == c.addr,
        u.gain_bits == c.gain_bits,
        c.groups is None ==> text::names(u.groups@) == seq!["default"@],
        c.groups matches Some(g) ==> text::names(u.groups@) == text::names(g@),
        upstream::score_of(u) == 150,
        u.health_failures == 0,
{
}

/// A tag is used in lower case, without white space around it and without `geosite:`
/// in front.
pub proof fn tags_are_used_bare(before: Seq<char>, tag: Seq<char>, behind: Seq<char>, name: Seq<char>)
    requires
        text::is_blank(before),
        text::is_blank(behind),
        tag.len() > 0 ==> !text::has_white_space(tag[0]) && !text::has_white_space(tag.last()),
    ensures
        text::lowercase(tag) == "geosite:"@ + name ==> normalized_tag(before + tag + behind)
            == name,
        text::lowercase(tag) == name && !"geosite:"@.is_prefix_of(name) ==> normalized_tag(
            before + tag + behind,
        ) == name,
{
    text::trimming_leaves_the_core(before, tag, behind);
    let prefix = "geosite:"@;
    let lower = text::lowercase(tag);
    if lower == prefix + name {
        assert(lower.take(prefix.len() as int) =~= prefix);
        assert(lower.skip(prefix.len() as int) =~= name);
    }
    if lower == name && !prefix.is_prefix_of(name) {
        if prefix.len() <= lower.len() && lower.take(prefix.len() as int) == prefix {
            assert(prefix == name.subrange(0, prefix.len() as int));
        }
    }
}

/// Modes follow each other by their numbers: 0 is smart, 1 global, 2 bypass, and 0
/// comes after 2. A number that no mode has means smart.
pub proof fn modes_follow_by_number(mode: ProxyMode, n: u8)
    ensures
        mode.spec_next().spec_as_u8() == (mode.spec_as_u8() + 1) % 3,
        mode is Smart <==> mode.spec_as_u8() == 0,
        mode is Global <==> mode.spec_as_u8() == 1,
        mode is Bypass <==> mode.spec_as_u8() == 2,
        n > 2 ==> ProxyMode::spec_from_u8(n) is Smart,
        n <= 2 ==> ProxyMode::spec_from_u8(n).spec_as_u8() == n,
{
}

proof fn lemma_first_client_route(c: &Config, addrs: AddrsView, from: int, k: int)
    requires
        0 <= from <= k < c.client_routes@.len() <= usize::MAX,
        !client_route_is_right(c, addrs, k),
        forall|i: int| from <= i < k ==> #[trigger] client_route_is_right(c, addrs, i),
    ensures
        client_route_fault(c, addrs, from) == Some(
            if addrs.client_routes[k] {
                ConfigError::ClientRouteGroup { route: k as usize }
            } else {
                ConfigError::ClientRouteAddress { route: k as usize }
            },
        ),
    decreases k - from,
{
    if from < k {
        assert(client_route_is_right(c, addrs, from));
        lemma_first_client_route(c, addrs, from + 1, k);
    }
}

/// The route of a client that is named is the first that is wrong: for its client where
/// that is no address or network, else for its group.
pub proof fn first_wrong_route_is_named(c: &Config, addrs: AddrsView, k: int)
    requires
        0 <= k < c.client_routes@.len() <= usize::MAX,
        !client_route_is_right(c, addrs, k),
        forall|i: int| 0 <= i < k ==> #[trigger] client_route_is_right(c, addrs, i),
    ensures
        client_route_fault(c, addrs, 0) == Some(
            if addrs.client_routes[k] {
                ConfigError::ClientRouteGroup { route: k as usize }
            } else {
                ConfigError::ClientRouteAddress { route: k as usize }
            },
        ),
{
    lemma_first_client_route(c, addrs, 0, k);
}

/// The forward that is named is the first that is wrong: for its local address where it
/// has none, else for being where traffic is intercepted.
pub proof fn first_wrong_forward_is_named(listen: SocketAddr, binds: Seq<Option<SocketAddr>>, k: int)
    requires
        0 <= k < binds.len() <= usize::MAX,
        binds[k] is None || same_endpoint(binds[k]->0, listen),
        forall|i: int|
            0 <= i < k ==> (#[trigger] binds[i]) is Some && !same_endpoint(binds[i]->0, listen),
    ensures
        forward_fault(listen, binds, 0) == Some(
            if binds[k] is None {
                ConfigError::ForwardBind { forward: k as usize }
            } else {
                ConfigError::ForwardConflict { forward: k as usize }
            },
        ),
{
    lemma_first_forward(listen, binds, 0, k);
}

proof fn lemma_first_forward(
    listen: SocketAddr,
    binds: Seq<Option<SocketAddr>>,
    from: int,
    k: int,
)
    requires
        0 <= from <= k < binds.len() <= usize::MAX,
        binds[k] is None || same_endpoint(binds[k]->0, listen),
        forall|i: int|
            from <= i < k ==> (#[trigger] binds[i]) is Some && !same_endpoint(binds[i]->0, listen),
    ensures
        forward_fault(listen, binds, from) == Some(
            if binds[k] is None {
                ConfigError::ForwardBind { forward: k as usize }
            } else {
                ConfigError::ForwardConflict { forward: k as usize }
            },
        ),
    decreases k - from,
{
    if from < k {
        assert(binds[from] is Some);
        lemma_first_forward(listen, binds, from + 1, k);
    }
}

/// The server that is named is the first without a name, or with the name of one before
/// it.
pub proof fn first_wrong_server_is_named(ups: Seq<UpstreamConfig>, k: int)
    requires
        0 <= k < ups.len() <= usize::MAX,
        text::trimmed(ups[k].id@).len() == 0 || repeats_id(ups, k),
        forall|i: int| 0 <= i < k ==> (#[trigger] server_id(ups[i])).len() > 0,
        forall|i: int| 0 <= i < k ==> !#[trigger] repeats_id(ups, i),
    ensures
        upstreams_fault(ups) == Some(
            if text::trimmed(ups[k].id@).len() == 0 {
                UpstreamSetError::EmptyId { upstream: k as usize }
            } else {
                UpstreamSetError::DuplicateId { upstream: k as usize }
            },
        ),
        upstreams_fault(Seq::empty()) == Some(UpstreamSetError::Empty),
{
    lemma_first_id(ups, 0, k);
}

proof fn lemma_first_id(ups: Seq<UpstreamConfig>, from: int, k: int)
    requires
        0 <= from <= k < ups.len() <= usize::MAX,
        server_id(ups[k]).len() == 0 || repeats_id(ups, k),
        forall|i: int| from <= i < k ==> (#[trigger] server_id(ups[i])).len() > 0,
        forall|i: int| from <= i < k ==> !#[trigger] repeats_id(ups, i),
    ensures
        id_fault(ups, from) == Some(
            if server_id(ups[k]).len() == 0 {
                UpstreamSetError::EmptyId { upstream: k as usize }
            } else {
                UpstreamSetError::DuplicateId { upstream: k as usize }
            },
        ),
    decreases k - from,
{
    if from < k {
        assert(server_id(ups[from]).len() > 0);
        assert(!repeats_id(ups, from));
        lemma_first_id(ups, from + 1, k);
    }
}

} // verus!
