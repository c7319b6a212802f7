//! The state of a running forwarder: what a destination and a client lead to.

use crate::cache;
use crate::cache::{CacheKey, FlowKey, TtlCache};
use crate::cli::{ClientDomainRoute, ClientRoute, Config, DomainRoute, ProxyMode, UpstreamSetError};
use crate::cli;
use crate::geosite;
use crate::geosite::{geosite_contains, GeoSite, GeositeIndex};
use crate::net;
use crate::net::{IpAddr, IpNet, Ipv4Addr, Ipv6Addr};
use crate::routes;
use crate::sniff;
use crate::sniff::quic::QuicSniUdpSniffer;
use crate::sniff::{build_sniffers, build_udp_sniffers, Sniffer, TcpSniffer};
use crate::sorting;
use crate::text;
use crate::trie;
use crate::trie::{build_ip_tries, Ipv4RTrieSet, Ipv6RTrieSet};
use crate::upstream;
use crate::upstream::{Upstream, UpstreamSet};
use crate::util;
use crate::util::{now_secs, parse_ip_net_list, parse_ip_or_cidr, NetListError, NetTextError};
use vstd::prelude::*;

pub use crate::routes::{
    CidrRoute, ClientCidrRoutes, ClientDomainRoutes, ClientIpRoutes, DomainGroup, DomainRouteTable,
};

verus! {

// ---------------------------------------------------------------------------
// Addresses
// ---------------------------------------------------------------------------

/// Loopback, link-local, broadcast and unspecified addresses.
pub open spec fn is_local(ip: IpAddr) -> bool {
    match ip {
        IpAddr::V4(a) => {
            ||| a.bits / 0x100_0000 == 127
            ||| a.bits / 0x1_0000 == 0xa9fe
            ||| a.bits == 0xffff_ffff
            ||| a.bits == 0
        },
        IpAddr::V6(a) => {
            ||| a.bits == 1
            ||| a.bits == 0
            ||| a.bits / 0x40_0000_0000_0000_0000_0000_0000_0000 == 0x3fa
        },
    }
}

/// Whether an address means this machine or its link: `127.0.0.0/8`,
/// `169.254.0.0/16`, `255.255.255.255`, `0.0.0.0`, `::1`, `::` and `fe80::/10`.
pub fn is_must_direct_local_ip(ip: IpAddr) -> (r: bool)
    ensures
        r == is_local(ip),
{
    match ip {
        IpAddr::V4(a) => is_must_direct_local_ipv4(a),
        IpAddr::V6(a) => is_must_direct_local_ipv6(a),
    }
}

fn is_must_direct_local_ipv4(ip: Ipv4Addr) -> (r: bool)
    ensures
        r == is_local(IpAddr::V4(ip)),
{
    ip.bits / 0x100_0000 == 127 || ip.bits / 0x1_0000 == 0xa9fe || ip.bits == 0xffff_ffff || ip.bits
        == 0
}

fn is_must_direct_local_ipv6(ip: Ipv6Addr) -> (r: bool)
    ensures
        r == is_local(IpAddr::V6(ip)),
{
    ip.bits == 1 || ip.bits == 0 || ip.bits / 0x40_0000_0000_0000_0000_0000_0000_0000 == 0x3fa
}

// ---------------------------------------------------------------------------
// Countries
// ---------------------------------------------------------------------------

/// The bytes make a database that `maxminddb::Reader::from_source` takes.
pub uninterp spec fn is_country_db(data: Seq<u8>) -> bool;

/// `maxminddb::Reader::from_source`: whether the bytes make a database.
#[verifier::external_body]
fn check_country_db(data: &[u8]) -> (r: bool)
    ensures
        r == is_country_db(data@),
{
    maxminddb::Reader::from_source(data).is_ok()
}

/// The ISO code of the country that a database has for an address, as
/// `maxminddb::Reader::lookup` finds it and `LookupResult::decode` reads it.
pub uninterp spec fn country_in(data: Seq<u8>, ip: IpAddr) -> Option<Seq<char>>;

/// `maxminddb::Reader::lookup` and `LookupResult::decode` as
/// `maxminddb::geoip2::Country`: the ISO code of the country of an address. It is
/// none where the bytes make no database, the database has no country for the
/// address, or the record is of another form.
#[verifier::external_body]
fn find_country(data: &[u8], ip: IpAddr) -> (r: Option<String>)
    ensures
        cache::opt_string(r) == country_in(data@, ip),
{
    let reader = maxminddb::Reader::from_source(data).ok()?;
    let addr = match ip {
        IpAddr::V4(a) => core::net::IpAddr::V4(a.bits.into()),
        IpAddr::V6(a) => core::net::IpAddr::V6(a.bits.into()),
    };
    let found = reader.lookup(addr).ok()?;
    let country = found.decode::<maxminddb::geoip2::Country>().ok()??;
    country.country.iso_code.map(String::from)
}

/// A country is one of a list, whatever the case of letters.
pub open spec fn country_listed(countries: Seq<Seq<char>>, code: Option<Seq<char>>) -> bool {
    match code {
        Some(code) => exists|i: int|
            0 <= i < countries.len() && text::same_ignoring_case(#[trigger] countries[i], code),
        None => false,
    }
}

/// Whether a country is one of a list, whatever the case of letters.
pub fn is_listed_country(countries: &[String], code: Option<&str>) -> (r: bool)
    ensures
        r == country_listed(text::names(countries@), text::opt_text(code)),
{
    match code {
        None => false,
        Some(c) => {
            let ghost names = text::names(countries@);
            let code_chars = text::chars_of(c);
            let mut i: usize = 0;
            while i < countries.len()
                invariant
                    i <= countries@.len(),
                    names == text::names(countries@),
                    code == Some(c),
                    code_chars@ == c@,
                    forall|k: int|
                        0 <= k < i ==> !text::same_ignoring_case(#[trigger] names[k], c@),
                decreases countries@.len() - i,
            {
                let country = text::chars_of(countries[i].as_str());
                if text::chars_eq_ignoring_case(country.as_slice(), code_chars.as_slice()) {
                    assert(text::same_ignoring_case(names[i as int], c@));
                    return true;
                }
                assert(names[i as int] == countries@[i as int]@);
                i += 1;
            }
            false
        },
    }
}

// ---------------------------------------------------------------------------
// Domains
// ---------------------------------------------------------------------------

/// A domain matches a pattern: one with a dot in front is for the domain and all
/// below it, one without is for the domain alone.
pub open spec fn pattern_matches(pattern: Seq<char>, domain: Seq<char>) -> bool {
    if routes::is_suffix_pattern(pattern) {
        util::matches_suffix(domain, pattern)
    } else {
        util::canonical(domain) == util::canonical(pattern)
    }
}

/// A domain matches one of a list of patterns.
pub open spec fn some_pattern_matches(patterns: Seq<Seq<char>>, domain: Seq<char>) -> bool {
    exists|i: int| 0 <= i < patterns.len() && pattern_matches(#[trigger] patterns[i], domain)
}

/// Whether a domain matches one of a list of patterns.
pub fn domain_is_listed(patterns: &[String], domain: &str) -> (r: bool)
    ensures
        r == some_pattern_matches(text::names(patterns@), domain@),
{
    let ghost names = text::names(patterns@);
    let chars = text::chars_of(domain);
    let d = util::canonical_chars(chars.as_slice());
    let mut i: usize = 0;
    while i < patterns.len()
        invariant
            i <= patterns@.len(),
            names == text::names(patterns@),
            d@ == util::canonical(domain@),
            forall|k: int| 0 <= k < i ==> !pattern_matches(#[trigger] names[k], domain@),
        decreases patterns@.len() - i,
    {
        let pattern = text::chars_of(patterns[i].as_str());
        let p = util::canonical_chars(pattern.as_slice());
        let hit = if pattern.len() > 0 && pattern[0] == '.' {
            util::chars_at_or_below(d.as_slice(), p.as_slice())
        } else {
            text::chars_eq(d.as_slice(), p.as_slice())
        };
        assert(names[i as int] == patterns@[i as int]@);
        if hit {
            assert(pattern_matches(names[i as int], domain@));
            return true;
        }
        i += 1;
    }
    false
}

/// A domain is in one of the named lists.
pub open spec fn in_some_site(
    sites: Seq<GeoSite>,
    tags: Seq<Seq<char>>,
    domain: Seq<char>,
) -> bool {
    exists|i: int| 0 <= i < tags.len() && geosite::in_site(sites, #[trigger] tags[i], domain)
}

fn is_in_some_site(index: &GeositeIndex, tags: &[String], domain: &str) -> (r: bool)
    ensures
        r == in_some_site(index.sites@, text::names(tags@), domain@),
{
    let ghost names = text::names(tags@);
    let mut i: usize = 0;
    while i < tags.len()
        invariant
            i <= tags@.len(),
            names == text::names(tags@),
            forall|k: int|
                0 <= k < i ==> !geosite::in_site(index.sites@, #[trigger] names[k], domain@),
        decreases tags@.len() - i,
    {
        assert(names[i as int] == tags@[i as int]@);
        if geosite_contains(index, tags[i].as_str(), domain) {
            return true;
        }
        i += 1;
    }
    false
}

// ---------------------------------------------------------------------------
// State
// ---------------------------------------------------------------------------

/// What can change while the forwarder runs, and what clients lead to.
pub struct AppRuntime {
    /// The mode, as a number.
    pub proxy_mode: u8,
    pub client_routes: ClientIpRoutes,
    pub client_domain_routes: ClientDomainRoutes,
}

/// The state of one generation of the forwarder.
pub struct AppState {
    /// The country database.
    pub mmdb: Option<Vec<u8>>,
    pub config: Config,
    pub config_path: String,
    pub force_direct_v4: Ipv4RTrieSet,
    pub force_direct_v6: Ipv6RTrieSet,
    pub force_socks5_v4: Ipv4RTrieSet,
    pub force_socks5_v6: Ipv6RTrieSet,
    pub sniffers: Vec<TcpSniffer>,
    pub udp_sniffers: Vec<QuicSniUdpSniffer>,
    pub upstreams: UpstreamSet,
    pub runtime: AppRuntime,
    pub geosite: Option<GeositeIndex>,
    /// What the rules for addresses said lately.
    pub route_cache: TtlCache<IpAddr, bool>,
    /// The names of the servers that were used lately.
    pub upstream_cache: TtlCache<FlowKey, String>,
}

impl AppState {
    pub open spec fn forced_socks5(self, ip: IpAddr) -> bool {
        match ip {
            IpAddr::V4(a) => self.force_socks5_v4.covers(a),
            IpAddr::V6(a) => self.force_socks5_v6.covers(a),
        }
    }

    pub open spec fn forced_direct(self, ip: IpAddr) -> bool {
        match ip {
            IpAddr::V4(a) => self.force_direct_v4.covers(a),
            IpAddr::V6(a) => self.force_direct_v6.covers(a),
        }
    }

    /// The country of an address is reached directly.
    pub open spec fn in_direct_country(self, ip: IpAddr) -> bool {
        match self.mmdb {
            Some(data) => country_listed(
                text::names(self.config.direct_countries@),
                country_in(data@, ip),
            ),
            None => false,
        }
    }

    /// What the rules for addresses say: lists first, then local addresses, then
    /// countries.
    pub open spec fn ip_rules(self, ip: IpAddr) -> bool {
        if self.forced_socks5(ip) {
            false
        } else if self.forced_direct(ip) {
            true
        } else {
            (self.config.direct_local_ip && is_local(ip)) || self.in_direct_country(ip)
        }
    }

    /// What the rules for domains say, if anything: lists of patterns first, then
    /// named lists.
    pub open spec fn domain_rules(self, domain: Option<Seq<char>>) -> Option<bool> {
        match domain {
            None => None,
            Some(d) => if some_pattern_matches(text::names(self.config.force_socks5_domains@), d) {
                Some(false)
            } else if some_pattern_matches(text::names(self.config.force_direct_domains@), d) {
                Some(true)
            } else {
                match self.geosite {
                    None => None,
                    Some(index) => if in_some_site(
                        index.sites@,
                        text::names(self.config.proxy_geosite_tags@),
                        d,
                    ) {
                        Some(false)
                    } else if in_some_site(
                        index.sites@,
                        text::names(self.config.direct_geosite_tags@),
                        d,
                    ) {
                        Some(true)
                    } else {
                        None
                    },
                }
            },
        }
    }

    /// The mode that the forwarder is in.
    pub open spec fn mode(self) -> ProxyMode {
        ProxyMode::spec_from_u8(self.runtime.proxy_mode)
    }

    /// A destination is reached directly.
    pub open spec fn goes_direct(self, ip: IpAddr, domain: Option<Seq<char>>) -> bool {
        match self.mode() {
            ProxyMode::Global => false,
            ProxyMode::Bypass => true,
            ProxyMode::Smart => match self.domain_rules(domain) {
                Some(direct) => direct,
                None => self.ip_rules(ip),
            },
        }
    }

    /// The state after it was asked about a destination at `now`: what the rules for
    /// the address say is kept if they decided and it was not there, and nothing
    /// else changes.
    pub open spec fn asked_at(
        self,
        after: AppState,
        ip: IpAddr,
        domain: Option<Seq<char>>,
        now: u64,
    ) -> bool {
        &&& after.route_cache.entries@ == if self.mode() is Smart && self.domain_rules(domain) is None
            && self.route_cache.value(ip, now) is None {
            self.route_cache.entries_with(ip, self.ip_rules(ip), now)
        } else {
            self.route_cache.entries@
        }
        &&& after.route_cache.ttl_secs == self.route_cache.ttl_secs
        &&& after.route_cache.max == self.route_cache.max
        &&& after == (AppState { route_cache: after.route_cache, ..self })
    }

    /// The state after it was asked about a destination at some time.
    pub open spec fn asked(self, after: AppState, ip: IpAddr, domain: Option<Seq<char>>) -> bool {
        exists|now: u64| #[trigger] self.asked_at(after, ip, domain, now)
    }

    /// The cache says what the rules say.
    pub open spec fn cache_is_true(self) -> bool {
        forall|i: int|
            0 <= i < self.route_cache.entries@.len() ==> (
            #[trigger] self.route_cache.entries@[i]).value == self.ip_rules(
                self.route_cache.entries@[i].key,
            )
    }

    pub open spec fn wf(self) -> bool {
        &&& self.force_direct_v4.wf()
        &&& self.force_direct_v6.wf()
        &&& self.force_socks5_v4.wf()
        &&& self.force_socks5_v6.wf()
        &&& self.upstreams.wf()
        &&& self.route_cache.wf()
        &&& self.upstream_cache.wf()
        &&& self.cache_is_true()
    }

    /// The group that a client uses for a domain.
    pub open spec fn group_for(self, client: IpAddr, domain: Option<Seq<char>>) -> Seq<char> {
        let by_domain = match (
            domain,
            routes::route_value(self.runtime.client_domain_routes.routes@, client),
        ) {
            (Some(d), Some(table)) => table.group(d),
            _ => None,
        };
        match by_domain {
            Some(group) => group,
            None => match routes::route_value(self.runtime.client_routes.routes@, client) {
                Some(group) => group@,
                None => "default"@,
            },
        }
    }

    /// Whether the rules for named lists need to know the domain.
    pub fn need_geosite_sniff(&self) -> (r: bool)
        ensures
            r == (self.geosite is Some && (self.config.proxy_geosite_tags@.len() > 0
                || self.config.direct_geosite_tags@.len() > 0) && self.mode() is Smart),
    {
        self.geosite.is_some() && (self.config.proxy_geosite_tags.len() > 0
            || self.config.direct_geosite_tags.len() > 0) && ProxyMode::from_u8(
            self.runtime.proxy_mode,
        ) == ProxyMode::Smart
    }

    /// Whether the lists of domains need to know the domain.
    pub fn need_forced_domain_sniff(&self) -> (r: bool)
        ensures
            r == (self.config.force_direct_domains@.len() > 0
                || self.config.force_socks5_domains@.len() > 0),
    {
        self.config.force_direct_domains.len() > 0 || self.config.force_socks5_domains.len() > 0
    }

    /// Whether the routes of a client need to know the domain.
    pub fn need_upstream_domain_sniff(&self, client_ip: IpAddr) -> (r: bool)
        ensures
            r == (self.config.client_domain_routes@.len() > 0 && routes::route_value(
                self.runtime.client_domain_routes.routes@,
                client_ip,
            ) is Some),
    {
        self.config.client_domain_routes.len() > 0 && self.runtime.client_domain_routes.lookup(
            client_ip,
        ).is_some()
    }

    /// Whether the country of an address is reached directly.
    pub fn is_direct_country_ip(&self, ip: IpAddr) -> (r: bool)
        ensures
            r == self.in_direct_country(ip),
            r <==> {
                &&& self.mmdb matches Some(data)
                &&& country_in(data@, ip) matches Some(code)
                &&& exists|i: int|
                    0 <= i < self.config.direct_countries@.len() && text::same_ignoring_case(
                        (#[trigger] self.config.direct_countries@[i])@,
                        code,
                    )
            },
    {
        proof {
            let countries = self.config.direct_countries@;
            let names = text::names(countries);
            assert forall|i: int| 0 <= i < countries.len() implies (#[trigger] countries[i])@
                == names[i] by {}
            assert forall|i: int| 0 <= i < names.len() implies #[trigger] names[i]
                == countries[i]@ by {}
        }
        match &self.mmdb {
            None => false,
            Some(data) => {
                let code = find_country(data.as_slice(), ip);
                match &code {
                    Some(code) => is_listed_country(
                        self.config.direct_countries.as_slice(),
                        Some(code.as_str()),
                    ),
                    None => is_listed_country(self.config.direct_countries.as_slice(), None),
                }
            },
        }
    }

    /// What the rules for addresses say.
    pub fn direct_by_ip_rules(&self, ip: IpAddr) -> (r: bool)
        requires
            self.wf(),
        ensures
            r == self.ip_rules(ip),
    {
        match ip {
            IpAddr::V4(a) => {
                if self.force_socks5_v4.contains(a) {
                    return false;
                }
                if self.force_direct_v4.contains(a) {
                    return true;
                }
            },
            IpAddr::V6(a) => {
                if self.force_socks5_v6.contains(a) {
                    return false;
                }
                if self.force_direct_v6.contains(a) {
                    return true;
                }
            },
        }
        (self.config.direct_local_ip && is_must_direct_local_ip(ip)) || self.is_direct_country_ip(ip)
    }

    /// What the rules for domains say, if anything.
    pub fn direct_by_domain_rules(&self, domain: Option<&str>) -> (r: Option<bool>)
        ensures
            r == self.domain_rules(text::opt_text(domain)),
    {
        let domain = match domain {
            Some(d) => d,
            None => return None,
        };
        if domain_is_listed(self.config.force_socks5_domains.as_slice(), domain) {
            return Some(false);
        }
        if domain_is_listed(self.config.force_direct_domains.as_slice(), domain) {
            return Some(true);
        }
        match &self.geosite {
            None => None,
            Some(index) => if is_in_some_site(
                index,
                self.config.proxy_geosite_tags.as_slice(),
                domain,
            ) {
                Some(false)
            } else if is_in_some_site(index, self.config.direct_geosite_tags.as_slice(), domain) {
                Some(true)
            } else {
                None
            },
        }
    }

    /// Whether a destination is reached directly. In the modes `global` and
    /// `bypass` nothing and everything is; else the rules for the domain decide,
    /// and where they say nothing those for the address. What the rules for the
    /// address said is kept for a while.
    pub fn should_direct(&mut self, ip: IpAddr, domain: Option<&str>) -> (r: bool)
        requires
            old(self).wf(),
        ensures
            r == old(self).goes_direct(ip, text::opt_text(domain)),
            final(self).wf(),
            old(self).asked(*final(self), ip, text::opt_text(domain)),
            final(self).route_cache.ttl_secs == old(self).route_cache.ttl_secs,
            final(self).route_cache.max == old(self).route_cache.max,
            *final(self) == (AppState { route_cache: final(self).route_cache, ..*old(self) }),
            forall|ip: IpAddr, domain: Option<Seq<char>>| #[trigger]
                final(self).goes_direct(ip, domain) == old(self).goes_direct(ip, domain),
    {
        let now = now_secs();
        self.should_direct_at(ip, domain, now)
    }

    /// Whether a destination is reached directly, at `now`.
    pub fn should_direct_at(&mut self, ip: IpAddr, domain: Option<&str>, now: u64) -> (r: bool)
        requires
            old(self).wf(),
        ensures
            r == old(self).goes_direct(ip, text::opt_text(domain)),
            final(self).wf(),
            old(self).asked_at(*final(self), ip, text::opt_text(domain), now),
            final(self).route_cache.ttl_secs == old(self).route_cache.ttl_secs,
            final(self).route_cache.max == old(self).route_cache.max,
            *final(self) == (AppState { route_cache: final(self).route_cache, ..*old(self) }),
            forall|ip: IpAddr, domain: Option<Seq<char>>| #[trigger]
                final(self).goes_direct(ip, domain) == old(self).goes_direct(ip, domain),
    {
        match ProxyMode::from_u8(self.runtime.proxy_mode) {
            ProxyMode::Global => return false,
            ProxyMode::Bypass => return true,
            ProxyMode::Smart => {},
        }
        if let Some(direct) = self.direct_by_domain_rules(domain) {
            return direct;
        }
        let cached = match self.route_cache.get(&ip, now) {
            Some(direct) => Some(*direct),
            None => None,
        };
        if let Some(direct) = cached {
            proof {
                cache::lemma_entry_found(self.route_cache.entries@, ip);
            }
            return direct;
        }
        let direct = self.direct_by_ip_rules(ip);
        let ghost before = self.route_cache;
        self.route_cache.put(ip, direct, now);
        proof {
            cache::lemma_put_entries(before, ip, direct, now);
            let entries = self.route_cache.entries@;
            assert forall|i: int| 0 <= i < entries.len() implies (#[trigger] entries[i]).value
                == self.ip_rules(entries[i].key) by {
                let e = entries[i];
                if before.entries@.contains(e) {
                    let k = choose|k: int| 0 <= k < before.entries@.len() && before.entries@[k] == e;
                    assert(before.entries@[k].value == old(self).ip_rules(before.entries@[k].key));
                }
            }
        }
        direct
    }

    /// The user and the password for the servers, when both are set.
    pub fn socks5_credentials(&self) -> (r: Option<(&str, &str)>)
        ensures
            match r {
                Some((u, p)) => {
                    &&& self.config.socks5_user matches Some(user)
                    &&& user@ == u@
                    &&& self.config.socks5_password matches Some(password)
                    &&& password@ == p@
                },
                None => self.config.socks5_user is None || self.config.socks5_password is None,
            },
    {
        match (&self.config.socks5_user, &self.config.socks5_password) {
            (Some(u), Some(p)) => Some((u.as_str(), p.as_str())),
            _ => None,
        }
    }

    /// The group that a client uses: that of its routes for the domain, else that
    /// of its route, else `default`.
    pub fn lookup_upstream_group(&self, client_ip: IpAddr, domain: Option<&str>) -> (r: &str)
        ensures
            r@ == self.group_for(client_ip, text::opt_text(domain)),
    {
        if let Some(domain) = domain {
            if let Some(table) = self.runtime.client_domain_routes.lookup(client_ip) {
                if let Some(group) = table.lookup(domain) {
                    return group;
                }
            }
        }
        match self.runtime.client_routes.lookup(client_ip) {
            Some(group) => group.as_str(),
            None => "default",
        }
    }
}

/// The name that a cache has for a client and a destination, as the place of the
/// server.
pub open spec fn cached_server(state: AppState, key: (IpAddr, IpAddr, Option<Seq<char>>), now: u64) -> Option<
    usize,
> {
    match state.upstream_cache.value(key, now) {
        Some(id) => upstream::server_named(state.upstreams.items@, id@, 0),
        None => None,
    }
}

impl AppState {
    /// The server that a client used lately for a destination.
    pub fn get_cached_upstream(
        &self,
        client_ip: IpAddr,
        target_ip: IpAddr,
        domain: Option<&str>,
        now: u64,
    ) -> (r: Option<usize>)
        ensures
            r == cached_server(*self, (client_ip, target_ip, text::opt_text(domain)), now),
            r matches Some(i) ==> i < self.upstreams.items@.len(),
    {
        let key = FlowKey::new(client_ip, target_ip, domain);
        match self.upstream_cache.get(&key, now) {
            Some(id) => self.upstreams.find_by_id(id.as_str()),
            None => None,
        }
    }

    /// Forgets the server that a client used for a destination.
    pub fn remove_cached_upstream(
        &mut self,
        client_ip: IpAddr,
        target_ip: IpAddr,
        domain: Option<&str>,
    )
        requires
            old(self).wf(),
        ensures
            final(self).wf(),
            final(self).upstream_cache.entries@ == cache::without_key(
                old(self).upstream_cache.entries@,
                (client_ip, target_ip, text::opt_text(domain)),
                old(self).upstream_cache.entries@.len() as int,
            ),
            final(self).upstream_cache.ttl_secs == old(self).upstream_cache.ttl_secs,
            final(self).upstream_cache.max == old(self).upstream_cache.max,
            *final(self) == (AppState { upstream_cache: final(self).upstream_cache, ..*old(self) }),
    {
        let key = FlowKey::new(client_ip, target_ip, domain);
        self.upstream_cache.remove(&key);
        assert(self.cache_is_true()) by {
            lemma_rules_keep(*old(self), *self);
        }
    }

    /// Remembers the server that a client used for a destination.
    pub fn cache_upstream(
        &mut self,
        client_ip: IpAddr,
        target_ip: IpAddr,
        domain: Option<&str>,
        server: usize,
        now: u64,
    )
        requires
            old(self).wf(),
            server < old(self).upstreams.items@.len(),
        ensures
            final(self).wf(),
            exists|key: FlowKey, id: String|
                key.key() == (client_ip, target_ip, text::opt_text(domain)) && id@ == old(
                    self,
                ).upstreams.items@[server as int].id@ && final(self).upstream_cache.entries@
                    == #[trigger] old(self).upstream_cache.entries_with(key, id, now),
            final(self).upstream_cache.ttl_secs == old(self).upstream_cache.ttl_secs,
            final(self).upstream_cache.max == old(self).upstream_cache.max,
            *final(self) == (AppState { upstream_cache: final(self).upstream_cache, ..*old(self) }),
    {
        let key = FlowKey::new(client_ip, target_ip, domain);
        let id = text::copy_str(self.upstreams.items[server].id.as_str());
        self.upstream_cache.put(key, id, now);
        assert(self.cache_is_true()) by {
            lemma_rules_keep(*old(self), *self);
        }
    }
}

/// The rules for addresses do not depend on the servers, the caches or the mode.
pub proof fn lemma_rules_keep(a: AppState, b: AppState)
    requires
        b == (AppState {
            upstreams: b.upstreams,
            upstream_cache: b.upstream_cache,
            route_cache: b.route_cache,
            ..a
        }),
    ensures
        forall|ip: IpAddr| #[trigger] b.ip_rules(ip) == a.ip_rules(ip),
        forall|ip: IpAddr, d: Option<Seq<char>>| #[trigger]
            b.goes_direct(ip, d) == a.goes_direct(ip, d),
        a.cache_is_true() && b.route_cache == a.route_cache ==> b.cache_is_true(),
{
}

/// What was cached for a client and a destination is the server that is found for
/// them, while it is good.
pub proof fn cached_server_is_found(
    before: AppState,
    after: AppState,
    key: FlowKey,
    id: String,
    server: usize,
    now: u64,
    later: u64,
)
    requires
        before.wf(),
        after.wf(),
        before.upstream_cache.ttl_secs > 0,
        before.upstream_cache.max > 0,
        server < before.upstreams.items@.len() <= usize::MAX,
        id@ == before.upstreams.items@[server as int].id@,
        forall|k: int|
            0 <= k < server ==> (#[trigger] before.upstreams.items@[k]).id@ != id@,
        after.upstream_cache.entries@ == before.upstream_cache.entries_with(key, id, now),
        after.upstream_cache.ttl_secs == before.upstream_cache.ttl_secs,
        after.upstreams == before.upstreams,
        later - now < before.upstream_cache.ttl_secs,
    ensures
        cached_server(after, key.key(), later) == Some(server),
{
    cache::put_is_found(before.upstream_cache, after.upstream_cache, key, id, now, later);
    lemma_server_named(before.upstreams.items@, id@, 0, server as int);
}

proof fn lemma_server_named(items: Seq<Upstream>, id: Seq<char>, from: int, at: int)
    requires
        0 <= from <= at < items.len() <= usize::MAX,
        items[at].id@ == id,
        forall|k: int| from <= k < at ==> (#[trigger] items[k]).id@ != id,
    ensures
        upstream::server_named(items, id, from) == Some(at as usize),
    decreases at - from,
{
    if from < at {
        lemma_server_named(items, id, from + 1, at);
    }
}

/// In global mode everything goes to the servers, and in bypass mode nothing
/// does, whatever the lists and the addresses are.
pub proof fn modes_decide_alone(state: AppState, ip: IpAddr, domain: Option<Seq<char>>)
    ensures
        state.mode() is Global ==> !state.goes_direct(ip, domain),
        state.mode() is Bypass ==> state.goes_direct(ip, domain),
{
}

/// In smart mode a domain that is listed for the servers goes there, whatever
/// else the rules say.
pub proof fn listed_domains_go_to_the_servers(state: AppState, ip: IpAddr, domain: Seq<char>)
    requires
        state.mode() is Smart,
        some_pattern_matches(text::names(state.config.force_socks5_domains@), domain),
    ensures
        !state.goes_direct(ip, Some(domain)),
{
}

/// In smart mode an address on the list for the servers goes there, unless the
/// rules for domains say otherwise: that list comes before the one for direct
/// addresses, local addresses and countries.
pub proof fn listed_addresses_go_to_the_servers(
    state: AppState,
    ip: IpAddr,
    domain: Option<Seq<char>>,
)
    requires
        state.mode() is Smart,
        state.domain_rules(domain) is None,
        state.forced_socks5(ip),
    ensures
        !state.goes_direct(ip, domain),
{
}

/// In smart mode a domain that is listed to be reached directly, and not for the
/// servers, is reached directly, whatever its address is.
pub proof fn listed_domains_go_direct(state: AppState, ip: IpAddr, domain: Seq<char>)
    requires
        state.mode() is Smart,
        !some_pattern_matches(text::names(state.config.force_socks5_domains@), domain),
        some_pattern_matches(text::names(state.config.force_direct_domains@), domain),
    ensures
        state.goes_direct(ip, Some(domain)),
{
}

/// In smart mode an address that is listed to be reached directly, and not for
/// the servers, is reached directly, unless the rules for domains say otherwise.
pub proof fn listed_addresses_go_direct(state: AppState, ip: IpAddr, domain: Option<Seq<char>>)
    requires
        state.mode() is Smart,
        state.domain_rules(domain) is None,
        !state.forced_socks5(ip),
        state.forced_direct(ip),
    ensures
        state.goes_direct(ip, domain),
{
}

proof fn lemma_patterns_ignore_spelling(patterns: Seq<Seq<char>>, a: Seq<char>, b: Seq<char>)
    requires
        util::canonical(a) == util::canonical(b),
        some_pattern_matches(patterns, a),
    ensures
        some_pattern_matches(patterns, b),
{
    let i = choose|i: int| 0 <= i < patterns.len() && pattern_matches(#[trigger] patterns[i], a);
    assert(pattern_matches(patterns[i], b));
}

proof fn lemma_sites_ignore_spelling(
    sites: Seq<GeoSite>,
    tags: Seq<Seq<char>>,
    a: Seq<char>,
    b: Seq<char>,
)
    requires
        util::canonical(a) == util::canonical(b),
        in_some_site(sites, tags, a),
    ensures
        in_some_site(sites, tags, b),
{
    let i = choose|i: int|
        0 <= i < tags.len() && geosite::in_site(sites, #[trigger] tags[i], a);
    geosite::lists_ignore_spelling(sites, tags[i], a, b);
    assert(geosite::in_site(sites, tags[i], b));
}

proof fn lemma_rules_ignore_spelling(state: AppState, a: Seq<char>, b: Seq<char>)
    requires
        util::canonical(a) == util::canonical(b),
    ensures
        state.domain_rules(Some(a)) == state.domain_rules(Some(b)),
{
    let socks5 = text::names(state.config.force_socks5_domains@);
    let direct = text::names(state.config.force_direct_domains@);
    assert(some_pattern_matches(socks5, a) == some_pattern_matches(socks5, b)) by {
        if some_pattern_matches(socks5, a) {
            lemma_patterns_ignore_spelling(socks5, a, b);
        }
        if some_pattern_matches(socks5, b) {
            lemma_patterns_ignore_spelling(socks5, b, a);
        }
    }
    assert(some_pattern_matches(direct, a) == some_pattern_matches(direct, b)) by {
        if some_pattern_matches(direct, a) {
            lemma_patterns_ignore_spelling(direct, a, b);
        }
        if some_pattern_matches(direct, b) {
            lemma_patterns_ignore_spelling(direct, b, a);
        }
    }
    if let Some(index) = state.geosite {
        let sites = index.sites@;
        let proxy = text::names(state.config.proxy_geosite_tags@);
        let direct_tags = text::names(state.config.direct_geosite_tags@);
        assert(in_some_site(sites, proxy, a) == in_some_site(sites, proxy, b)) by {
            if in_some_site(sites, proxy, a) {
                lemma_sites_ignore_spelling(sites, proxy, a, b);
            }
            if in_some_site(sites, proxy, b) {
                lemma_sites_ignore_spelling(sites, proxy, b, a);
            }
        }
        assert(in_some_site(sites, direct_tags, a) == in_some_site(sites, direct_tags, b)) by {
            if in_some_site(sites, direct_tags, a) {
                lemma_sites_ignore_spelling(sites, direct_tags, a, b);
            }
            if in_some_site(sites, direct_tags, b) {
                lemma_sites_ignore_spelling(sites, direct_tags, b, a);
            }
        }
    }
}

/// How a domain is written, in capitals or with a dot at its end, does not change
/// where a destination goes.
pub proof fn spelling_does_not_change_the_way(
    state: AppState,
    ip: IpAddr,
    a: Seq<char>,
    b: Seq<char>,
)
    requires
        util::canonical(a) == util::canonical(b),
    ensures
        state.goes_direct(ip, Some(a)) == state.goes_direct(ip, Some(b)),
{
    lemma_rules_ignore_spelling(state, a, b);
}

/// A destination of which no rule says anything goes to the servers.
pub proof fn unlisted_goes_to_the_servers(state: AppState, ip: IpAddr, domain: Option<Seq<char>>)
    requires
        state.mode() is Smart,
        state.domain_rules(domain) is None,
        !state.forced_direct(ip),
        !(state.config.direct_local_ip && is_local(ip)),
        !state.in_direct_country(ip),
    ensures
        !state.goes_direct(ip, domain),
{
}

// ---------------------------------------------------------------------------
// Building
// ---------------------------------------------------------------------------

/// The files that a configuration names.
pub struct ConfigFiles {
    pub mmdb: Option<String>,
    pub force_direct_ips: Option<String>,
    pub force_socks5_ips: Option<String>,
    pub geosite: Option<String>,
}

/// The country database is used: it is named, and not by an empty name.
pub open spec fn mmdb_file(c: Config) -> Option<Seq<char>> {
    match c.mmdb_path {
        Some(path) if path@.len() > 0 => Some(path@),
        _ => None,
    }
}

fn copy_opt(s: &Option<String>) -> (r: Option<String>)
    ensures
        cache::opt_string(r) == cache::opt_string(*s),
{
    match s {
        Some(t) => Some(text::copy_str(t.as_str())),
        None => None,
    }
}

/// The files that have to be read for a configuration. An empty name of the
/// country database means none.
pub fn files_to_read(config: &Config) -> (r: ConfigFiles)
    ensures
        cache::opt_string(r.mmdb) == mmdb_file(*config),
        cache::opt_string(r.force_direct_ips) == cache::opt_string(config.force_direct_ips_file),
        cache::opt_string(r.force_socks5_ips) == cache::opt_string(config.force_socks5_ips_file),
        cache::opt_string(r.geosite) == cache::opt_string(config.geosite_path),
{
    let mmdb = match &config.mmdb_path {
        Some(path) => {
            let chars = text::chars_of(path.as_str());
            if chars.len() > 0 {
                Some(text::copy_str(path.as_str()))
            } else {
                None
            }
        },
        None => None,
    };
    ConfigFiles {
        mmdb,
        force_direct_ips: copy_opt(&config.force_direct_ips_file),
        force_socks5_ips: copy_opt(&config.force_socks5_ips_file),
        geosite: copy_opt(&config.geosite_path),
    }
}

/// What the files of a configuration hold.
pub struct BuildInputs {
    pub mmdb: Option<Vec<u8>>,
    pub force_direct_ips: Option<String>,
    pub force_socks5_ips: Option<String>,
    pub geosite: Option<Vec<u8>>,
}

/// Why a configuration makes no state.
#[derive(Debug, Clone, Copy, PartialEq, Eq, Structural)]
pub enum BuildError {
    /// The country database is none.
    Mmdb,
    /// An entry of the list of direct addresses is no network.
    DirectIps(NetListError),
    /// An entry of the list of addresses for the servers is no network.
    Socks5Ips(NetListError),
    Upstreams(UpstreamSetError),
    /// The file with lists of domains does not decode.
    Geosite,
    /// The client of a route is no network.
    ClientRoute { route: usize },
    /// The client of routes for domains is no network.
    DomainRouteClient { route: usize },
    /// A pattern for domains stands for none.
    DomainPattern { route: usize, domain: usize },
}

/// The lines among the first `n` that are not blank, without white space around
/// them.
pub open spec fn filled_lines(lines: Seq<Seq<char>>, n: int) -> Seq<Seq<char>>
    decreases n,
{
    if n <= 0 {
        Seq::empty()
    } else {
        let before = filled_lines(lines, n - 1);
        let line = text::trimmed(lines[n - 1]);
        if line.len() == 0 {
            before
        } else {
            before.push(line)
        }
    }
}

/// The entries of a file: its lines that are not blank.
pub open spec fn file_entries(content: Seq<char>) -> Seq<Seq<char>> {
    let lines = text::split_at_each(content, seq!['\n']);
    filled_lines(lines, lines.len() as int)
}

/// A list, with the entries of a file behind it.
pub open spec fn list_and_file(list: Seq<Seq<char>>, file: Option<Seq<char>>) -> Seq<Seq<char>> {
    match file {
        Some(content) => list + file_entries(content),
        None => list,
    }
}

/// A list, with the entries of a file behind it.
pub fn extend_list(list: &[String], file: Option<&str>) -> (r: Vec<String>)
    ensures
        text::names(r@) == list_and_file(text::names(list@), text::opt_text(file)),
{
    let mut r: Vec<String> = Vec::new();
    let mut i: usize = 0;
    while i < list.len()
        invariant
            i <= list@.len(),
            r@.len() == i,
            forall|k: int| 0 <= k < i ==> (#[trigger] r@[k])@ == list@[k]@,
        decreases list@.len() - i,
    {
        r.push(text::copy_str(list[i].as_str()));
        i += 1;
    }
    assert(text::names(r@) =~= text::names(list@));
    if let Some(content) = file {
        let chars = text::chars_of(content);
        let newline: Vec<char> = vec!['\n'];
        assert(newline@ =~= seq!['\n']);
        let lines = text::split_chars(chars.as_slice(), newline.as_slice());
        let ghost views = text::texts(lines@);
        let ghost start = text::names(list@);
        let mut j: usize = 0;
        assert(text::names(r@) =~= start + filled_lines(views, 0));
        while j < lines.len()
            invariant
                j <= lines@.len(),
                views == text::texts(lines@),
                text::names(r@) == start + filled_lines(views, j as int),
            decreases lines@.len() - j,
        {
            let line = text::trim_chars(lines[j].as_slice());
            assert(views[j as int] == lines@[j as int]@);
            if line.len() > 0 {
                let ghost before = r@;
                let entry = text::string_of(line.as_slice());
                r.push(entry);
                assert(text::names(r@) =~= text::names(before).push(line@));
            }
            assert(text::names(r@) =~= start + filled_lines(views, j + 1));
            j += 1;
        }
    }
    r
}

/// The first entry of a list from `i` on that is no network.
pub open spec fn list_fault(list: Seq<Seq<char>>, i: int) -> Option<NetListError>
    decreases list.len() - i,
{
    if i < 0 || i >= list.len() {
        None
    } else {
        match util::net_of_entry(list[i]) {
            Err(error) => Some(NetListError { index: i as usize, error }),
            Ok(_) => list_fault(list, i + 1),
        }
    }
}

/// The networks of a list.
pub open spec fn list_nets(list: Seq<Seq<char>>) -> Seq<IpNet> {
    list.map_values(|e: Seq<char>| util::net_of_entry(e)->Ok_0)
}

/// Every entry of a list that is an IPv4 network or address is that network.
pub open spec fn entries_are_read(list: Seq<Seq<char>>) -> bool {
    forall|i: int, n: IpNet|
        0 <= i < list.len() && #[trigger] util::is_net_text(text::trimmed(list[i]), n)
            ==> list_nets(list)[i] == n
}

proof fn lemma_list_fault(list: Seq<Seq<char>>, from: int, at: int)
    requires
        0 <= from <= at <= list.len() <= usize::MAX,
        forall|i: int| from <= i < at ==> util::net_of_entry(#[trigger] list[i]) is Ok,
    ensures
        list_fault(list, from) == list_fault(list, at),
    decreases at - from,
{
    if from < at {
        lemma_list_fault(list, from + 1, at);
    }
}

fn read_list(list: &[String], file: Option<&str>) -> (r: Result<Vec<IpNet>, NetListError>)
    ensures
        ({
            let all = list_and_file(text::names(list@), text::opt_text(file));
            match r {
                Ok(nets) => list_fault(all, 0) is None && nets@ == list_nets(all)
                    && trie::all_nets_wf(nets@) && entries_are_read(all),
                Err(e) => list_fault(all, 0) == Some(e) && util::is_no_net_text(
                    text::trimmed(all[e.index as int]),
                ),
            }
        }),
{
    let full = extend_list(list, file);
    let r = parse_ip_net_list(full.as_slice());
    proof {
        let all = text::names(full@);
        assert(full.len() == all.len());
        match &r {
            Ok(nets) => {
                assert forall|i: int| 0 <= i < all.len() implies util::net_of_entry(
                    #[trigger] all[i],
                ) == Ok::<IpNet, NetTextError>(nets@[i]) by {
                    assert(all[i] == full@[i]@);
                }
                lemma_list_fault(all, 0, all.len() as int);
                assert(nets@ =~= list_nets(all));
                assert forall|i: int, n: IpNet|
                    0 <= i < all.len() && #[trigger] util::is_net_text(
                        text::trimmed(all[i]),
                        n,
                    ) implies list_nets(all)[i] == n by {
                    assert(all[i] == full@[i]@);
                }
            },
            Err(e) => {
                assert forall|i: int| 0 <= i < e.index implies util::net_of_entry(
                    #[trigger] all[i],
                ) is Ok by {
                    assert(all[i] == full@[i]@);
                }
                lemma_list_fault(all, 0, e.index as int);
                assert(all[e.index as int] == full@[e.index as int]@);
            },
        }
    }
    r
}

/// The first route of clients from `i` on whose client is no network.
pub open spec fn client_fault(list: Seq<ClientRoute>, i: int) -> Option<BuildError>
    decreases list.len() - i,
{
    if i < 0 || i >= list.len() {
        None
    } else if util::net_of_text(list[i].client@) is Err {
        Some(BuildError::ClientRoute { route: i as usize })
    } else {
        client_fault(list, i + 1)
    }
}

/// The first pattern from `j` on that stands for no domain.
pub open spec fn blank_pattern(domains: Seq<DomainRoute>, j: int) -> Option<usize>
    decreases domains.len() - j,
{
    if j < 0 || j >= domains.len() {
        None
    } else if routes::pattern_domain(domains[j].domain@).len() == 0 {
        Some(j as usize)
    } else {
        blank_pattern(domains, j + 1)
    }
}

/// The first client of routes for domains from `i` on with something wrong.
pub open spec fn domains_fault(list: Seq<ClientDomainRoute>, i: int) -> Option<BuildError>
    decreases list.len() - i,
{
    if i < 0 || i >= list.len() {
        None
    } else if util::net_of_text(list[i].client@) is Err {
        Some(BuildError::DomainRouteClient { route: i as usize })
    } else {
        match blank_pattern(list[i].domains@, 0) {
            Some(domain) => Some(BuildError::DomainPattern { route: i as usize, domain }),
            None => domains_fault(list, i + 1),
        }
    }
}

proof fn lemma_blank_pattern(domains: Seq<DomainRoute>, from: int, at: int)
    requires
        0 <= from <= at <= domains.len() <= usize::MAX,
        forall|i: int|
            from <= i < at ==> routes::pattern_domain((#[trigger] domains[i]).domain@).len() > 0,
    ensures
        blank_pattern(domains, from) == blank_pattern(domains, at),
    decreases at - from,
{
    if from < at {
        lemma_blank_pattern(domains, from + 1, at);
    }
}

/// A text that is an IPv4 network or address is this network.
pub open spec fn reads_as(s: Seq<char>, net: IpNet) -> bool {
    forall|n: IpNet| #[trigger] util::is_net_text(s, n) ==> net == n
}

/// Routes of clients, as they were set.
pub open spec fn is_client_routes(made: Seq<CidrRoute<String>>, list: Seq<ClientRoute>) -> bool {
    &&& made.len() == list.len()
    &&& forall|i: int|
        0 <= i < list.len() ==> util::net_of_text(list[i].client@) == Ok::<IpNet, NetTextError>(
            (#[trigger] made[i]).net,
        ) && reads_as(list[i].client@, made[i].net) && made[i].value@ == list[i].group@
}

/// Routes for domains, as they were set.
pub open spec fn is_domain_routes(
    made: Seq<CidrRoute<DomainRouteTable>>,
    list: Seq<ClientDomainRoute>,
) -> bool {
    &&& made.len() == list.len()
    &&& forall|i: int|
        0 <= i < list.len() ==> util::net_of_text(list[i].client@) == Ok::<IpNet, NetTextError>(
            (#[trigger] made[i]).net,
        ) && reads_as(list[i].client@, made[i].net) && routes::is_table_of(
            made[i].value,
            list[i].domains@,
        )
}

fn make_client_routes(list: &Vec<ClientRoute>) -> (r: Result<ClientIpRoutes, BuildError>)
    ensures
        match r {
            Ok(t) => client_fault(list@, 0) is None && exists|made: Seq<CidrRoute<String>>|
                is_client_routes(made, list@) && t.routes@ == #[trigger] sorting::falling(
                    made,
                    routes::prefix_key(),
                ),
            Err(e) => client_fault(list@, 0) == Some(e) && (e matches BuildError::ClientRoute {
                route,
            } && route < list@.len() && util::is_no_net_text(list@[route as int].client@)),
        },
{
    let mut t = ClientIpRoutes::new();
    let mut i: usize = 0;
    while i < list.len()
        invariant
            i <= list@.len(),
            is_client_routes(t.routes@, list@.take(i as int)),
            client_fault(list@, 0) == client_fault(list@, i as int),
        decreases list@.len() - i,
    {
        match parse_ip_or_cidr(list[i].client.as_str()) {
            Ok(net) => {
                let ghost before = t.routes@;
                t.insert(net, text::copy_str(list[i].group.as_str()));
                proof {
                    let some = list@.take(i as int);
                    let more = list@.take(i + 1);
                    assert forall|k: int| 0 <= k < more.len() implies util::net_of_text(
                        more[k].client@,
                    ) == Ok::<IpNet, NetTextError>((#[trigger] t.routes@[k]).net)
                        && reads_as(more[k].client@, t.routes@[k].net) && t.routes@[k].value@
                        == more[k].group@ by {
                        if k < i {
                            assert(more[k] == some[k]);
                            assert(before[k] == t.routes@[k]);
                        }
                    }
                }
            },
            Err(_) => {
                return Err(BuildError::ClientRoute { route: i });
            },
        }
        i += 1;
    }
    assert(list@.take(i as int) =~= list@);
    t.finalize();
    Ok(t)
}

fn make_domain_routes(list: &Vec<ClientDomainRoute>) -> (r: Result<ClientDomainRoutes, BuildError>)
    ensures
        match r {
            Ok(t) => domains_fault(list@, 0) is None && exists|
                made: Seq<CidrRoute<DomainRouteTable>>,
            |
                is_domain_routes(made, list@) && t.routes@ == #[trigger] sorting::falling(
                    made,
                    routes::prefix_key(),
                ),
            Err(e) => domains_fault(list@, 0) == Some(e) && match e {
                BuildError::DomainRouteClient { route } => route < list@.len()
                    && util::is_no_net_text(list@[route as int].client@),
                BuildError::DomainPattern { .. } => true,
                _ => false,
            },
        },
{
    let mut t = ClientDomainRoutes::new();
    let mut i: usize = 0;
    while i < list.len()
        invariant
            i <= list@.len(),
            is_domain_routes(t.routes@, list@.take(i as int)),
            domains_fault(list@, 0) == domains_fault(list@, i as int),
        decreases list@.len() - i,
    {
        let net = match parse_ip_or_cidr(list[i].client.as_str()) {
            Ok(net) => net,
            Err(_) => {
                return Err(BuildError::DomainRouteClient { route: i });
            },
        };
        let ghost domains = list@[i as int].domains@;
        assert(list[i as int].domains.len() == domains.len());
        match DomainRouteTable::build(list[i].domains.as_slice()) {
            Ok(table) => {
                let ghost before = t.routes@;
                t.insert(net, table);
                proof {
                    lemma_blank_pattern(domains, 0, domains.len() as int);
                    let some = list@.take(i as int);
                    let more = list@.take(i + 1);
                    assert forall|k: int| 0 <= k < more.len() implies util::net_of_text(
                        more[k].client@,
                    ) == Ok::<IpNet, NetTextError>((#[trigger] t.routes@[k]).net)
                        && reads_as(more[k].client@, t.routes@[k].net) && routes::is_table_of(
                        t.routes@[k].value,
                        more[k].domains@,
                    ) by {
                        if k < i {
                            assert(more[k] == some[k]);
                            assert(before[k] == t.routes@[k]);
                        }
                    }
                }
            },
            Err(domain) => {
                proof {
                    lemma_blank_pattern(domains, 0, domain as int);
                }
                return Err(BuildError::DomainPattern { route: i, domain });
            },
        }
        i += 1;
    }
    assert(list@.take(i as int) =~= list@);
    t.finalize();
    Ok(t)
}

/// The view of the bytes of a file.
pub open spec fn opt_data(d: Option<Vec<u8>>) -> Option<Seq<u8>> {
    match d {
        Some(v) => Some(v@),
        None => None,
    }
}

/// The list of direct addresses.
pub open spec fn direct_list(c: Config, inputs: BuildInputs) -> Seq<Seq<char>> {
    list_and_file(
        text::names(c.force_direct_ips@),
        cache::opt_string(inputs.force_direct_ips),
    )
}

/// The list of addresses for the servers.
pub open spec fn socks5_list(c: Config, inputs: BuildInputs) -> Seq<Seq<char>> {
    list_and_file(
        text::names(c.force_socks5_ips@),
        cache::opt_string(inputs.force_socks5_ips),
    )
}

/// The first thing that keeps a configuration from making a state.
pub open spec fn build_fault(c: Config, inputs: BuildInputs) -> Option<BuildError> {
    if inputs.mmdb matches Some(data) && !is_country_db(data@) {
        Some(BuildError::Mmdb)
    } else if list_fault(direct_list(c, inputs), 0) is Some {
        Some(BuildError::DirectIps(list_fault(direct_list(c, inputs), 0)->0))
    } else if list_fault(socks5_list(c, inputs), 0) is Some {
        Some(BuildError::Socks5Ips(list_fault(socks5_list(c, inputs), 0)->0))
    } else if cli::upstreams_fault(c.upstream@) is Some {
        Some(BuildError::Upstreams(cli::upstreams_fault(c.upstream@)->0))
    } else if inputs.geosite matches Some(data) && geosite::sites_in_dat(data@) is None {
        Some(BuildError::Geosite)
    } else if client_fault(c.client_routes@, 0) is Some {
        client_fault(c.client_routes@, 0)
    } else {
        domains_fault(c.client_domain_routes@, 0)
    }
}

/// What is refused because it is no network is no IPv4 network and no IPv4 address.
pub open spec fn refused_is_no_net(e: BuildError, c: Config, inputs: BuildInputs) -> bool {
    match e {
        BuildError::DirectIps(fault) => util::is_no_net_text(
            text::trimmed(direct_list(c, inputs)[fault.index as int]),
        ),
        BuildError::Socks5Ips(fault) => util::is_no_net_text(
            text::trimmed(socks5_list(c, inputs)[fault.index as int]),
        ),
        BuildError::ClientRoute { route } => util::is_no_net_text(
            c.client_routes@[route as int].client@,
        ),
        BuildError::DomainRouteClient { route } => util::is_no_net_text(
            c.client_domain_routes@[route as int].client@,
        ),
        _ => true,
    }
}

/// The state that a configuration makes.
pub open spec fn is_built(s: AppState, c: Config, path: String, inputs: BuildInputs) -> bool {
    &&& s.wf()
    &&& s.config == c
    &&& s.config_path == path
    &&& opt_data(s.mmdb) == opt_data(inputs.mmdb)
    &&& s.force_direct_v4.prefixes() == trie::v4_net_prefixes(
        list_nets(direct_list(c, inputs)),
    )
    &&& s.force_direct_v6.prefixes() == trie::v6_net_prefixes(
        list_nets(direct_list(c, inputs)),
    )
    &&& s.force_socks5_v4.prefixes() == trie::v4_net_prefixes(
        list_nets(socks5_list(c, inputs)),
    )
    &&& s.force_socks5_v6.prefixes() == trie::v6_net_prefixes(
        list_nets(socks5_list(c, inputs)),
    )
    &&& entries_are_read(direct_list(c, inputs))
    &&& entries_are_read(socks5_list(c, inputs))
    &&& trie::all_nets_wf(list_nets(direct_list(c, inputs)))
    &&& trie::all_nets_wf(list_nets(socks5_list(c, inputs)))
    &&& s.sniffers@.len() == (if c.sniff_tls_sni {
        1int
    } else {
        0
    }) + (if c.sniff_http_host {
        1int
    } else {
        0
    })
    &&& c.sniff_tls_sni ==> s.sniffers@[0] is Tls && s.sniffers@[0].limits() == sniff::tls_limits(&c)
    &&& c.sniff_http_host ==> s.sniffers@.last() is Http && s.sniffers@.last().limits()
        == sniff::http_limits(&c)
    &&& s.udp_sniffers@.len() == (if c.sniff_quic_sni {
        1int
    } else {
        0
    })
    &&& s.upstreams.items@.len() == c.upstream@.len()
    &&& forall|i: int|
        0 <= i < c.upstream@.len() ==> cli::is_server_of(
            #[trigger] s.upstreams.items@[i],
            c.upstream@[i],
        ) && s.upstreams.items@[i].quic_weight == if c.quic_weight <= 100 {
            c.quic_weight
        } else {
            100
        }
    &&& s.upstreams.current@.len() == 0
    &&& s.upstreams.tolerance == c.upstream_switch_tolerance
    &&& s.runtime.proxy_mode == c.proxy_mode.spec_as_u8()
    &&& exists|made: Seq<CidrRoute<String>>|
        is_client_routes(made, c.client_routes@) && s.runtime.client_routes.routes@
            == #[trigger] sorting::falling(made, routes::prefix_key())
    &&& exists|made: Seq<CidrRoute<DomainRouteTable>>|
        is_domain_routes(made, c.client_domain_routes@) && s.runtime.client_domain_routes.routes@
            == #[trigger] sorting::falling(made, routes::prefix_key())
    &&& match (inputs.geosite, s.geosite) {
        (Some(data), Some(index)) => geosite::is_index_of(
            index,
            geosite::sites_in_dat(data@)->0,
            text::names(c.proxy_geosite_tags@) + text::names(c.direct_geosite_tags@),
        ),
        (None, None) => true,
        _ => false,
    }
    &&& s.route_cache.entries@.len() == 0
    &&& s.route_cache.ttl_secs == c.route_cache_ttl_secs
    &&& s.route_cache.max == c.route_cache_max
    &&& s.upstream_cache.entries@.len() == 0
    &&& s.upstream_cache.ttl_secs == c.route_cache_ttl_secs
    &&& s.upstream_cache.max == c.route_cache_max
}

fn opt_str(s: &Option<String>) -> (r: Option<&str>)
    ensures
        text::opt_text(r) == cache::opt_string(*s),
{
    match s {
        Some(t) => Some(t.as_str()),
        None => None,
    }
}

impl AppState {
    /// The state that a configuration and its files make. Nothing of an earlier
    /// state is kept.
    pub fn build(config: Config, config_path: String, inputs: BuildInputs) -> (r: Result<
        AppState,
        BuildError,
    >)
        ensures
            match r {
                Ok(s) => build_fault(config, inputs) is None && is_built(
                    s,
                    config,
                    config_path,
                    inputs,
                ),
                Err(e) => build_fault(config, inputs) == Some(e) && refused_is_no_net(
                    e,
                    config,
                    inputs,
                ),
            },
    {
        if let Some(data) = &inputs.mmdb {
            if !check_country_db(data.as_slice()) {
                return Err(BuildError::Mmdb);
            }
        }
        let direct_nets = match read_list(
            config.force_direct_ips.as_slice(),
            opt_str(&inputs.force_direct_ips),
        ) {
            Ok(nets) => nets,
            Err(e) => {
                return Err(BuildError::DirectIps(e));
            },
        };
        let socks5_nets = match read_list(
            config.force_socks5_ips.as_slice(),
            opt_str(&inputs.force_socks5_ips),
        ) {
            Ok(nets) => nets,
            Err(e) => {
                return Err(BuildError::Socks5Ips(e));
            },
        };
        let upstreams = match config.build_upstream_set() {
            Ok(set) => set,
            Err(e) => {
                return Err(BuildError::Upstreams(e));
            },
        };
        let geosite = match &inputs.geosite {
            Some(data) => match geosite::read_sites(data.as_slice()) {
                Some(sites) => Some(
                    GeositeIndex::build(
                        sites,
                        config.proxy_geosite_tags.as_slice(),
                        config.direct_geosite_tags.as_slice(),
                    ),
                ),
                None => {
                    return Err(BuildError::Geosite);
                },
            },
            None => None,
        };
        let client_routes = make_client_routes(&config.client_routes)?;
        let client_domain_routes = make_domain_routes(&config.client_domain_routes)?;
        let (force_direct_v4, force_direct_v6) = build_ip_tries(direct_nets.as_slice()).unwrap();
        let (force_socks5_v4, force_socks5_v6) = build_ip_tries(socks5_nets.as_slice()).unwrap();
        let sniffers = build_sniffers(&config);
        let udp_sniffers = build_udp_sniffers(&config);
        let BuildInputs { mmdb, force_direct_ips: _, force_socks5_ips: _, geosite: _ } = inputs;
        let runtime = AppRuntime {
            proxy_mode: config.proxy_mode.as_u8(),
            client_routes,
            client_domain_routes,
        };
        let route_cache: TtlCache<IpAddr, bool> = TtlCache::new(
            config.route_cache_ttl_secs,
            config.route_cache_max,
        );
        let upstream_cache: TtlCache<FlowKey, String> = TtlCache::new(
            config.route_cache_ttl_secs,
            config.route_cache_max,
        );
        Ok(
            AppState {
                mmdb,
                config,
                config_path,
                force_direct_v4,
                force_direct_v6,
                force_socks5_v4,
                force_socks5_v6,
                sniffers,
                udp_sniffers,
                upstreams,
                runtime,
                geosite,
                route_cache,
                upstream_cache,
            },
        )
    }
}

/// A network of a list has an address.
pub open spec fn some_net_has(nets: Seq<IpNet>, ip: IpAddr) -> bool {
    exists|i: int| 0 <= i < nets.len() && (#[trigger] nets[i]).has(ip)
}

/// In a state that was built, an address is on a list exactly when a network of
/// the list has it.
pub proof fn built_lists_decide(
    s: AppState,
    c: Config,
    path: String,
    inputs: BuildInputs,
    ip: IpAddr,
)
    requires
        is_built(s, c, path, inputs),
    ensures
        s.forced_direct(ip) <==> some_net_has(list_nets(direct_list(c, inputs)), ip),
        s.forced_socks5(ip) <==> some_net_has(list_nets(socks5_list(c, inputs)), ip),
{
    trie::tries_cover_what_the_networks_have(list_nets(direct_list(c, inputs)), ip);
    trie::tries_cover_what_the_networks_have(list_nets(socks5_list(c, inputs)), ip);
}

/// In a state that was built, every address of an IPv4 network that is written in a
/// list is on that list, however small the prefix of the network is.
pub proof fn listed_networks_count(
    s: AppState,
    c: Config,
    path: String,
    inputs: BuildInputs,
    i: int,
    n: IpNet,
    ip: IpAddr,
)
    requires
        is_built(s, c, path, inputs),
        n.has(ip),
    ensures
        0 <= i < direct_list(c, inputs).len() && util::is_net_text(
            text::trimmed(direct_list(c, inputs)[i]),
            n,
        ) ==> s.forced_direct(ip),
        0 <= i < socks5_list(c, inputs).len() && util::is_net_text(
            text::trimmed(socks5_list(c, inputs)[i]),
            n,
        ) ==> s.forced_socks5(ip),
{
    let direct = direct_list(c, inputs);
    let socks5 = socks5_list(c, inputs);
    built_lists_decide(s, c, path, inputs, ip);
    if 0 <= i < direct.len() && util::is_net_text(text::trimmed(direct[i]), n) {
        assert(list_nets(direct)[i].has(ip));
    }
    if 0 <= i < socks5.len() && util::is_net_text(text::trimmed(socks5[i]), n) {
        assert(list_nets(socks5)[i].has(ip));
    }
}

/// A text stands for a network.
pub open spec fn stands_for(s: Seq<char>, net: IpNet) -> bool {
    util::is_net_text(s, net) || util::net_of_text(s) == Ok::<IpNet, NetTextError>(net)
}

/// In a state that was built, a client in the network of a route for domains uses
/// the group of the pattern that decides for the domain, unless another route has
/// a smaller network with the client, or one as small and set before.
pub proof fn clients_use_the_groups_of_domains(
    s: AppState,
    c: Config,
    path: String,
    inputs: BuildInputs,
    i: int,
    net: IpNet,
    k: int,
    client: IpAddr,
    domain: Seq<char>,
)
    requires
        is_built(s, c, path, inputs),
        0 <= i < c.client_domain_routes@.len(),
        stands_for(c.client_domain_routes@[i].client@, net),
        routes::net_has(net, client),
        forall|j: int, other: IpNet|
            0 <= j < c.client_domain_routes@.len() && j != i && #[trigger] stands_for(
                c.client_domain_routes@[j].client@,
                other,
            ) && routes::net_has(other, client) ==> other.prefix_len < net.prefix_len || (i < j
                && other.prefix_len == net.prefix_len),
        0 <= k < c.client_domain_routes@[i].domains@.len(),
        routes::decides(c.client_domain_routes@[i].domains@, k, domain),
    ensures
        s.group_for(client, Some(domain)) == c.client_domain_routes@[i].domains@[k].group@,
{
    let list = c.client_domain_routes@;
    let made = choose|made: Seq<CidrRoute<DomainRouteTable>>|
        is_domain_routes(made, list) && s.runtime.client_domain_routes.routes@
            == #[trigger] sorting::falling(made, routes::prefix_key());
    assert(made[i].net == net);
    routes::longest_prefix_wins(made, client);
    let value = routes::route_value(s.runtime.client_domain_routes.routes@, client)->0;
    let w = choose|w: int| {
        &&& 0 <= w < made.len()
        &&& (#[trigger] made[w]).value == value
        &&& routes::net_has(made[w].net, client)
        &&& forall|j: int|
            0 <= j < made.len() && routes::net_has((#[trigger] made[j]).net, client)
                ==> made[j].net.prefix_len <= made[w].net.prefix_len && (j < w
                ==> made[j].net.prefix_len < made[w].net.prefix_len)
    };
    assert(stands_for(list[w].client@, made[w].net));
    assert(w == i);
    routes::deciding_pattern_gives_the_group(value, list[i].domains@, k, domain);
}

/// In a state that was built, a client in the network of a route uses the group of
/// the route where no domain decides, unless another route has a smaller network
/// with the client, or one as small and set before.
pub proof fn clients_use_their_groups(
    s: AppState,
    c: Config,
    path: String,
    inputs: BuildInputs,
    i: int,
    net: IpNet,
    client: IpAddr,
)
    requires
        is_built(s, c, path, inputs),
        0 <= i < c.client_routes@.len(),
        stands_for(c.client_routes@[i].client@, net),
        routes::net_has(net, client),
        forall|j: int, other: IpNet|
            0 <= j < c.client_routes@.len() && j != i && #[trigger] stands_for(
                c.client_routes@[j].client@,
                other,
            ) && routes::net_has(other, client) ==> other.prefix_len < net.prefix_len || (i < j
                && other.prefix_len == net.prefix_len),
    ensures
        s.group_for(client, None) == c.client_routes@[i].group@,
{
    let list = c.client_routes@;
    let made = choose|made: Seq<CidrRoute<String>>|
        is_client_routes(made, list) && s.runtime.client_routes.routes@ == #[trigger] sorting::falling(
            made,
            routes::prefix_key(),
        );
    assert(made[i].net == net);
    routes::longest_prefix_wins(made, client);
    let value = routes::route_value(s.runtime.client_routes.routes@, client)->0;
    let w = choose|w: int| {
        &&& 0 <= w < made.len()
        &&& (#[trigger] made[w]).value == value
        &&& routes::net_has(made[w].net, client)
        &&& forall|j: int|
            0 <= j < made.len() && routes::net_has((#[trigger] made[j]).net, client)
                ==> made[j].net.prefix_len <= made[w].net.prefix_len && (j < w
                ==> made[j].net.prefix_len < made[w].net.prefix_len)
    };
    assert(stands_for(list[w].client@, made[w].net));
    assert(w == i);
}

} // verus!
