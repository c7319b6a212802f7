//! Where destinations go, told from the names, the addresses and the lists alone.

use crate::cache;
use crate::cli;
use crate::cli::{ClientDomainRoute, ClientRoute, Config, DomainRoute};
use crate::geosite;
use crate::net;
use crate::net::{IpAddr, IpNet, Ipv4Addr, Ipv6Addr};
use crate::routes;
use crate::state;
use crate::state::{AppState, BuildError, BuildInputs};
use crate::text;
use crate::util;
use crate::util::NetListError;
use vstd::arithmetic::power2::pow2;
use vstd::prelude::*;

verus! {

// ---------------------------------------------------------------------------
// Names
// ---------------------------------------------------------------------------

/// A name that neither starts nor ends with a dot.
pub open spec fn is_bare(name: Seq<char>) -> bool {
    name.len() > 0 ==> name[0] != '.' && name.last() != '.'
}

/// Dots and nothing else.
pub open spec fn are_dots(s: Seq<char>) -> bool {
    forall|i: int| 0 <= i < s.len() ==> #[trigger] s[i] == '.'
}

/// Dots around a name do not count, and neither does the case of its letters: it is
/// compared as itself in lower case.
pub proof fn names_are_compared_bare(front: Seq<char>, name: Seq<char>, back: Seq<char>)
    requires
        are_dots(front),
        are_dots(back),
        is_bare(name),
    ensures
        util::canonical(front + name + back) == text::lowered(name),
{
    let dot = |c: char| util::is_dot(c);
    if name.len() > 0 {
        assert((name + back)[0] == name[0]);
        assert(front + name + back =~= front + (name + back));
        text::lemma_trimmed_start(front, name + back, dot);
        text::lemma_trimmed_end(name, back, dot);
    } else {
        let all = front + name + back;
        let none = Seq::<char>::empty();
        assert(all + none =~= all);
        text::lemma_trimmed_start(all, none, dot);
        assert(none + none =~= none);
        text::lemma_trimmed_end(none, none, dot);
        assert(name =~= none);
    }
}

proof fn lemma_bare(name: Seq<char>)
    requires
        is_bare(name),
    ensures
        util::canonical(name) == text::lowered(name),
{
    let none = Seq::<char>::empty();
    names_are_compared_bare(none, name, none);
    assert(none + name + none =~= name);
}

proof fn lemma_lowered_dot(s: Seq<char>, i: int)
    requires
        0 <= i < s.len(),
    ensures
        text::lowered(s)[i] == '.' <==> s[i] == '.',
{
}

proof fn lemma_lowered_part(s: Seq<char>, pat: Seq<char>, i: int)
    requires
        0 <= i,
        i + pat.len() <= s.len(),
    ensures
        text::occurs_at(text::lowered(s), text::lowered(pat), i) <==> text::differ_in_case_alone(
            s.subrange(i, i + pat.len()),
            pat,
        ),
{
    let part = s.subrange(i, i + pat.len());
    text::case_is_ignored(part, pat);
    assert(text::lowered(s).subrange(i, i + pat.len()) =~= text::lowered(part));
}

/// A domain is at or below another: they are the same but for case, or the domain
/// ends with a dot and the other.
pub open spec fn reaches(domain: Seq<char>, above: Seq<char>) -> bool {
    ||| text::differ_in_case_alone(domain, above)
    ||| {
        &&& domain.len() > above.len()
        &&& domain[domain.len() - above.len() - 1] == '.'
        &&& text::differ_in_case_alone(domain.skip(domain.len() - above.len()), above)
    }
}

proof fn lemma_reaches(domain: Seq<char>, above: Seq<char>)
    requires
        is_bare(domain),
        is_bare(above),
    ensures
        util::is_at_or_below(text::lowered(domain), text::lowered(above)) <==> reaches(
            domain,
            above,
        ),
        text::lowered(domain) == text::lowered(above) <==> text::differ_in_case_alone(
            domain,
            above,
        ),
{
    text::case_is_ignored(domain, above);
    if domain.len() > above.len() {
        let at = domain.len() - above.len();
        lemma_lowered_part(domain, above, at);
        assert(domain.subrange(at, at + above.len()) =~= domain.skip(at));
        lemma_lowered_dot(domain, at - 1);
    }
}

/// A pattern that starts with a dot is for a domain and everything below it, and
/// for no name that merely ends alike. A pattern without is for its domain alone.
pub proof fn patterns_hit_what_they_name(name: Seq<char>, domain: Seq<char>)
    requires
        name.len() > 0,
        is_bare(name),
        is_bare(domain),
    ensures
        state::pattern_matches(seq!['.'] + name, domain) <==> reaches(domain, name),
        state::pattern_matches(name, domain) <==> text::differ_in_case_alone(domain, name),
{
    lemma_reaches(domain, name);
    lemma_bare(name);
    lemma_bare(domain);
    let none = Seq::<char>::empty();
    names_are_compared_bare(seq!['.'], name, none);
    assert(seq!['.'] + name + none =~= seq!['.'] + name);
}

/// What the kinds of rules of a list hit: a keyword (0) every domain that it occurs
/// in, a domain (2) itself and everything below it, a full name (3) itself alone,
/// and every other kind nothing.
pub proof fn rules_hit_by_their_kind(kind: i32, value: Seq<char>, domain: Seq<char>)
    requires
        value.len() > 0,
        is_bare(value),
        is_bare(domain),
    ensures
        geosite::rule_matches(0, value, domain) <==> exists|i: int|
            0 <= i && i + value.len() <= domain.len() && text::differ_in_case_alone(
                #[trigger] domain.subrange(i, i + value.len()),
                value,
            ),
        geosite::rule_matches(2, value, domain) <==> reaches(domain, value),
        geosite::rule_matches(3, value, domain) <==> text::differ_in_case_alone(domain, value),
        kind != 0 && kind != 2 && kind != 3 ==> !geosite::rule_matches(kind, value, domain),
{
    lemma_reaches(domain, value);
    lemma_bare(value);
    lemma_bare(domain);
    let d = text::lowered(domain);
    let v = text::lowered(value);
    if text::contains_seq(d, v) {
        let i = choose|i: int| #[trigger] text::occurs_at(d, v, i);
        lemma_lowered_part(domain, value, i);
        assert(text::differ_in_case_alone(domain.subrange(i, i + value.len()), value));
    }
    if exists|i: int|
        0 <= i && i + value.len() <= domain.len() && text::differ_in_case_alone(
            #[trigger] domain.subrange(i, i + value.len()),
            value,
        ) {
        let i = choose|i: int|
            0 <= i && i + value.len() <= domain.len() && text::differ_in_case_alone(
                #[trigger] domain.subrange(i, i + value.len()),
                value,
            );
        lemma_lowered_part(domain, value, i);
        assert(text::occurs_at(d, v, i));
    }
}

/// Of several lists of one name the last is the one that counts, and the names of
/// lists are compared in lower case.
pub proof fn last_list_of_a_name_counts(
    sites: Seq<geosite::GeoSite>,
    k: int,
    tag: Seq<char>,
    domain: Seq<char>,
)
    requires
        0 <= k < sites.len(),
        text::lowercase(sites[k].tag@) == text::lowercase(tag),
        forall|i: int|
            k < i < sites.len() ==> text::lowercase((#[trigger] sites[i]).tag@) != text::lowercase(
                tag,
            ),
    ensures
        geosite::in_site(sites, tag, domain) <==> exists|j: int|
            0 <= j < sites[k].rules@.len() && geosite::rule_matches(
                (#[trigger] sites[k].rules@[j]).kind,
                sites[k].rules@[j].value@,
                domain,
            ),
{
    lemma_last_list(sites, k, text::lowercase(tag), sites.len() as int);
}

proof fn lemma_last_list(sites: Seq<geosite::GeoSite>, k: int, tag: Seq<char>, n: int)
    requires
        0 <= k < n <= sites.len(),
        text::lowercase(sites[k].tag@) == tag,
        forall|i: int| k < i < n ==> text::lowercase((#[trigger] sites[i]).tag@) != tag,
    ensures
        geosite::rules_named(sites, tag, n) == Some(sites[k].rules@),
    decreases n,
{
    if k < n - 1 {
        lemma_last_list(sites, k, tag, n - 1);
    }
}

/// A domain is in no list of a name that no list has.
pub proof fn missing_list_has_nobody(
    sites: Seq<geosite::GeoSite>,
    tag: Seq<char>,
    domain: Seq<char>,
)
    requires
        forall|i: int|
            0 <= i < sites.len() ==> text::lowercase((#[trigger] sites[i]).tag@)
                != text::lowercase(tag),
    ensures
        !geosite::in_site(sites, tag, domain),
{
    lemma_missing_list(sites, text::lowercase(tag), sites.len() as int);
}

proof fn lemma_missing_list(sites: Seq<geosite::GeoSite>, tag: Seq<char>, n: int)
    requires
        0 <= n <= sites.len(),
        forall|i: int| 0 <= i < n ==> text::lowercase((#[trigger] sites[i]).tag@) != tag,
    ensures
        geosite::rules_named(sites, tag, n) is None,
    decreases n,
{
    if n > 0 {
        lemma_missing_list(sites, tag, n - 1);
    }
}

// ---------------------------------------------------------------------------
// Addresses
// ---------------------------------------------------------------------------

/// The IPv4 address of four octets.
pub open spec fn v4(a: u8, b: u8, c: u8, d: u8) -> IpAddr {
    IpAddr::V4(Ipv4Addr { bits: (a * 0x100_0000 + b * 0x1_0000 + c * 0x100 + d) as u32 })
}

/// The IPv6 address of a first group of 16 bits and the 112 bits behind it.
pub open spec fn v6(first: u16, rest: nat) -> IpAddr {
    IpAddr::V6(
        Ipv6Addr { bits: (first * 0x1_0000_0000_0000_0000_0000_0000_0000 + rest) as u128 },
    )
}

/// The IPv4 addresses that are always local: those that start with 127, those that
/// start with 169.254, 255.255.255.255 and 0.0.0.0.
pub proof fn local_ipv4_addresses(a: u8, b: u8, c: u8, d: u8)
    ensures
        state::is_local(v4(a, b, c, d)) <==> {
            ||| a == 127
            ||| a == 169 && b == 254
            ||| a == 255 && b == 255 && c == 255 && d == 255
            ||| a == 0 && b == 0 && c == 0 && d == 0
        },
{
}

/// The IPv6 addresses that are always local: `::1`, `::` and those from `fe80::` up
/// to the last that starts with `febf`.
pub proof fn local_ipv6_addresses(first: u16, rest: nat)
    requires
        rest < 0x1_0000_0000_0000_0000_0000_0000_0000,
    ensures
        state::is_local(v6(first, rest)) <==> {
            ||| first == 0 && rest == 1
            ||| first == 0 && rest == 0
            ||| 0xfe80 <= first <= 0xfebf
        },
{
}

/// A network is all addresses of its family from its first one on, as many as the
/// bits behind its prefix can tell apart.
pub proof fn networks_are_intervals(first: IpAddr, len: u8, ip: IpAddr, number: nat)
    requires
        len <= net::width(first),
        net::ip_value(first) == number * pow2((net::width(first) - len) as nat),
    ensures
        (IpNet { addr: first, prefix_len: len }).has(ip) <==> {
            &&& (first is V4) == (ip is V4)
            &&& net::ip_value(first) <= net::ip_value(ip)
            &&& net::ip_value(ip) < net::ip_value(first) + pow2(
                (net::width(first) - len) as nat,
            )
        },
{
    let size = pow2((net::width(first) - len) as nat) as int;
    vstd::arithmetic::power2::lemma_pow2_pos((net::width(first) - len) as nat);
    let base = net::ip_value(first) as int;
    let value = net::ip_value(ip) as int;
    vstd::arithmetic::div_mod::lemma_div_multiples_vanish(number as int, size);
    assert(number * size == size * number) by (nonlinear_arith);
    assert(base / size == number);
    vstd::arithmetic::div_mod::lemma_fundamental_div_mod(value, size);
    let q = value / size;
    let r = value % size;
    if q == number {
        assert(size * q == base);
    }
    if base <= value < base + size {
        assert(q == number) by (nonlinear_arith)
            requires
                value == size * q + r,
                0 <= r < size,
                size > 0,
                number * size <= value < number * size + size,
        ;
    }
}

// ---------------------------------------------------------------------------
// Destinations
// ---------------------------------------------------------------------------

/// The number of the mode says what the rules are for: with 1 every destination
/// goes to the servers, with 2 every one goes directly, and with any other the rules
/// decide, those for the domain before those for the address.
pub proof fn mode_says_who_decides(s: AppState, ip: IpAddr, domain: Option<Seq<char>>)
    ensures
        s.runtime.proxy_mode == 1 ==> !s.goes_direct(ip, domain),
        s.runtime.proxy_mode == 2 ==> s.goes_direct(ip, domain),
        s.runtime.proxy_mode != 1 && s.runtime.proxy_mode != 2 && s.domain_rules(domain) is Some
            ==> s.goes_direct(ip, domain) == s.domain_rules(domain)->0,
        s.runtime.proxy_mode != 1 && s.runtime.proxy_mode != 2 && s.domain_rules(domain) is None
            ==> s.goes_direct(ip, domain) == s.ip_rules(ip),
{
}

/// In smart mode, where the rules for domains say nothing, no list of addresses has
/// the address and it is not a local one, a destination goes directly exactly when a
/// database is loaded and the country that it holds for the address is one of those
/// to be reached directly, but for the case of letters: for IPv4 and IPv6 alike.
pub proof fn country_decides(s: AppState, ip: IpAddr, domain: Option<Seq<char>>)
    requires
        s.runtime.proxy_mode != 1 && s.runtime.proxy_mode != 2,
        s.domain_rules(domain) is None,
        match ip {
            IpAddr::V4(a) => !s.force_socks5_v4.covers(a) && !s.force_direct_v4.covers(a),
            IpAddr::V6(a) => !s.force_socks5_v6.covers(a) && !s.force_direct_v6.covers(a),
        },
        !(s.config.direct_local_ip && state::is_local(ip)),
    ensures
        s.goes_direct(ip, domain) <==> {
            &&& s.mmdb matches Some(data)
            &&& state::country_in(data@, ip) matches Some(code)
            &&& exists|i: int|
                0 <= i < s.config.direct_countries@.len() && text::differ_in_case_alone(
                    (#[trigger] s.config.direct_countries@[i])@,
                    code,
                )
        },
{
    let countries = s.config.direct_countries@;
    let names = text::names(countries);
    if let Some(data) = s.mmdb {
        if let Some(code) = state::country_in(data@, ip) {
            assert forall|i: int| 0 <= i < countries.len() implies text::differ_in_case_alone(
                (#[trigger] countries[i])@,
                code,
            ) == text::same_ignoring_case(names[i], code) by {
                text::case_is_ignored(names[i], code);
            }
            if exists|i: int|
                0 <= i < countries.len() && text::differ_in_case_alone(
                    (#[trigger] countries[i])@,
                    code,
                ) {
                let i = choose|i: int|
                    0 <= i < countries.len() && text::differ_in_case_alone(
                        (#[trigger] countries[i])@,
                        code,
                    );
                assert(text::same_ignoring_case(names[i], code));
            }
            if s.goes_direct(ip, domain) {
                let i = choose|i: int|
                    0 <= i < names.len() && text::same_ignoring_case(#[trigger] names[i], code);
                assert(text::differ_in_case_alone(countries[i]@, code));
            }
        }
    }
}

/// In smart mode a local address of either family goes directly when that is
/// switched on, unless a rule for domains or the list for the servers says
/// otherwise.
pub proof fn local_addresses_go_direct(s: AppState, ip: IpAddr, domain: Option<Seq<char>>)
    requires
        s.runtime.proxy_mode != 1 && s.runtime.proxy_mode != 2,
        s.domain_rules(domain) is None,
        match ip {
            IpAddr::V4(a) => !s.force_socks5_v4.covers(a),
            IpAddr::V6(a) => !s.force_socks5_v6.covers(a),
        },
        s.config.direct_local_ip,
        state::is_local(ip),
    ensures
        s.goes_direct(ip, domain),
{
}

/// In smart mode the lists of addresses come before all else that is known of an
/// address, and the list for the servers comes first: for IPv4 and IPv6 alike.
pub proof fn lists_of_addresses_come_first(s: AppState, ip: IpAddr, domain: Option<Seq<char>>)
    requires
        s.runtime.proxy_mode != 1 && s.runtime.proxy_mode != 2,
        s.domain_rules(domain) is None,
    ensures
        match ip {
            IpAddr::V4(a) => {
                &&& s.force_socks5_v4.covers(a) ==> !s.goes_direct(ip, domain)
                &&& !s.force_socks5_v4.covers(a) && s.force_direct_v4.covers(a) ==> s.goes_direct(
                    ip,
                    domain,
                )
            },
            IpAddr::V6(a) => {
                &&& s.force_socks5_v6.covers(a) ==> !s.goes_direct(ip, domain)
                &&& !s.force_socks5_v6.covers(a) && s.force_direct_v6.covers(a) ==> s.goes_direct(
                    ip,
                    domain,
                )
            },
        },
{
}

/// A text of a list hits a domain.
pub open spec fn some_hits(patterns: Seq<String>, domain: Seq<char>) -> bool {
    exists|i: int|
        0 <= i < patterns.len() && state::pattern_matches((#[trigger] patterns[i])@, domain)
}

/// A list of one of the names has a domain.
pub open spec fn some_list_has(
    sites: Seq<geosite::GeoSite>,
    tags: Seq<String>,
    domain: Seq<char>,
) -> bool {
    exists|i: int|
        0 <= i < tags.len() && geosite::in_site(sites, (#[trigger] tags[i])@, domain)
}

proof fn lemma_some_hits(patterns: Seq<String>, domain: Seq<char>)
    ensures
        some_hits(patterns, domain) == state::some_pattern_matches(text::names(patterns), domain),
{
    let names = text::names(patterns);
    if some_hits(patterns, domain) {
        let i = choose|i: int|
            0 <= i < patterns.len() && state::pattern_matches((#[trigger] patterns[i])@, domain);
        assert(state::pattern_matches(names[i], domain));
    }
    if state::some_pattern_matches(names, domain) {
        let i = choose|i: int|
            0 <= i < names.len() && state::pattern_matches(#[trigger] names[i], domain);
        assert(state::pattern_matches(patterns[i]@, domain));
    }
}

proof fn lemma_some_list_has(sites: Seq<geosite::GeoSite>, tags: Seq<String>, domain: Seq<char>)
    ensures
        some_list_has(sites, tags, domain) == state::in_some_site(sites, text::names(tags), domain),
{
    let names = text::names(tags);
    if some_list_has(sites, tags, domain) {
        let i = choose|i: int|
            0 <= i < tags.len() && geosite::in_site(sites, (#[trigger] tags[i])@, domain);
        assert(geosite::in_site(sites, names[i], domain));
    }
    if state::in_some_site(sites, names, domain) {
        let i = choose|i: int|
            0 <= i < names.len() && geosite::in_site(sites, #[trigger] names[i], domain);
        assert(geosite::in_site(sites, tags[i]@, domain));
    }
}

/// In smart mode a domain goes where the first that has it says: the patterns for
/// the servers, the patterns for the direct way, the named lists for the servers,
/// the named lists for the direct way. Where none has it, its address decides.
pub proof fn domains_are_asked_in_turn(s: AppState, ip: IpAddr, domain: Seq<char>)
    requires
        s.runtime.proxy_mode != 1 && s.runtime.proxy_mode != 2,
    ensures
        some_hits(s.config.force_socks5_domains@, domain) ==> !s.goes_direct(ip, Some(domain)),
        !some_hits(s.config.force_socks5_domains@, domain) && some_hits(
            s.config.force_direct_domains@,
            domain,
        ) ==> s.goes_direct(ip, Some(domain)),
        !some_hits(s.config.force_socks5_domains@, domain) && !some_hits(
            s.config.force_direct_domains@,
            domain,
        ) ==> match s.geosite {
            Some(index) => {
                &&& some_list_has(index.sites@, s.config.proxy_geosite_tags@, domain)
                    ==> !s.goes_direct(ip, Some(domain))
                &&& !some_list_has(index.sites@, s.config.proxy_geosite_tags@, domain)
                    && some_list_has(index.sites@, s.config.direct_geosite_tags@, domain)
                    ==> s.goes_direct(ip, Some(domain))
                &&& !some_list_has(index.sites@, s.config.proxy_geosite_tags@, domain)
                    && !some_list_has(index.sites@, s.config.direct_geosite_tags@, domain)
                    ==> s.goes_direct(ip, Some(domain)) == s.goes_direct(ip, None)
            },
            None => s.goes_direct(ip, Some(domain)) == s.goes_direct(ip, None),
        },
{
    lemma_some_hits(s.config.force_socks5_domains@, domain);
    lemma_some_hits(s.config.force_direct_domains@, domain);
    if let Some(index) = s.geosite {
        lemma_some_list_has(index.sites@, s.config.proxy_geosite_tags@, domain);
        lemma_some_list_has(index.sites@, s.config.direct_geosite_tags@, domain);
    }
}

// ---------------------------------------------------------------------------
// What a configuration leads to
// ---------------------------------------------------------------------------

/// Lines without the white space around them.
pub open spec fn trimmed_lines(lines: Seq<Seq<char>>) -> Seq<Seq<char>> {
    lines.map_values(|l: Seq<char>| text::trimmed(l))
}

proof fn lemma_filled(lines: Seq<Seq<char>>, n: int)
    requires
        0 <= n <= lines.len(),
    ensures
        state::filled_lines(lines, n) == trimmed_lines(lines).take(n).filter(
            |l: Seq<char>| l.len() > 0,
        ),
    decreases n,
{
    reveal(Seq::filter);
    let all = trimmed_lines(lines);
    if n > 0 {
        lemma_filled(lines, n - 1);
        assert(all.take(n).drop_last() =~= all.take(n - 1));
        assert(all.take(n).last() == text::trimmed(lines[n - 1]));
    }
}

/// The entries of a file are its lines, without the white space around them and
/// without those that are blank.
pub proof fn files_hold_one_entry_a_line(lines: Seq<Seq<char>>)
    requires
        lines.len() > 0,
        forall|i: int| 0 <= i < lines.len() ==> !(#[trigger] lines[i]).contains('\n'),
    ensures
        state::file_entries(text::joined(lines, seq!['\n'])) == trimmed_lines(lines).filter(
            |l: Seq<char>| l.len() > 0,
        ),
{
    let newline = seq!['\n'];
    assert(newline.last() == '\n');
    text::splitting_undoes_joining(lines, newline);
    lemma_filled(lines, lines.len() as int);
    let all = trimmed_lines(lines);
    assert(all.take(lines.len() as int) =~= all);
}

/// Each of the two lists of addresses is what the configuration says, and behind it
/// what the file of that list holds.
pub proof fn lists_are_set_and_read(c: Config, inputs: BuildInputs)
    ensures
        inputs.force_direct_ips is None ==> state::direct_list(c, inputs) == text::names(
            c.force_direct_ips@,
        ),
        inputs.force_direct_ips matches Some(content) ==> state::direct_list(c, inputs)
            == text::names(c.force_direct_ips@) + state::file_entries(content@),
        inputs.force_socks5_ips is None ==> state::socks5_list(c, inputs) == text::names(
            c.force_socks5_ips@,
        ),
        inputs.force_socks5_ips matches Some(content) ==> state::socks5_list(c, inputs)
            == text::names(c.force_socks5_ips@) + state::file_entries(content@),
{
}

/// A state starts in the mode of its configuration, remembers nothing, and keeps what
/// it will remember as long as the configuration says.
pub proof fn states_start_as_configured(
    s: AppState,
    c: Config,
    path: String,
    inputs: BuildInputs,
    ip: IpAddr,
    domain: Option<Seq<char>>,
    key: (IpAddr, IpAddr, Option<Seq<char>>),
    now: u64,
)
    requires
        state::is_built(s, c, path, inputs),
    ensures
        c.proxy_mode is Global ==> !s.goes_direct(ip, domain),
        c.proxy_mode is Bypass ==> s.goes_direct(ip, domain),
        c.proxy_mode is Smart && domain is None ==> s.goes_direct(ip, domain) == s.ip_rules(ip),
        s.route_cache.value(ip, now) is None,
        s.upstream_cache.value(key, now) is None,
        s.route_cache.ttl_secs == c.route_cache_ttl_secs,
        s.upstream_cache.ttl_secs == c.route_cache_ttl_secs,
        s.upstreams.sticky(key.2->0) is None,
        c.sniff_quic_sni <==> s.udp_sniffers@.len() > 0,
        !c.sniff_tls_sni && !c.sniff_http_host ==> s.sniffers@.len() == 0,
{
}

/// In a state of smart mode, an address that is in no listed network and is not a local
/// one goes directly exactly when the database that was read has a country for it that
/// the configuration names.
pub proof fn configured_countries_decide(
    s: AppState,
    c: Config,
    path: String,
    inputs: BuildInputs,
    ip: IpAddr,
)
    requires
        state::is_built(s, c, path, inputs),
        c.proxy_mode is Smart,
        !state::some_net_has(state::list_nets(state::direct_list(c, inputs)), ip),
        !state::some_net_has(state::list_nets(state::socks5_list(c, inputs)), ip),
        !(c.direct_local_ip && state::is_local(ip)),
    ensures
        s.goes_direct(ip, None) <==> {
            &&& inputs.mmdb matches Some(data)
            &&& state::country_in(data@, ip) matches Some(code)
            &&& exists|i: int|
                0 <= i < c.direct_countries@.len() && text::differ_in_case_alone(
                    (#[trigger] c.direct_countries@[i])@,
                    code,
                )
        },
{
    state::built_lists_decide(s, c, path, inputs, ip);
    country_decides(s, ip, None);
    assert(state::opt_data(s.mmdb) == state::opt_data(inputs.mmdb));
}

/// In a state of smart mode, an address in a network of the list for the servers goes
/// there; one that is in none of these, but in a network of the list for the direct way,
/// goes directly.
pub proof fn configured_networks_decide(
    s: AppState,
    c: Config,
    path: String,
    inputs: BuildInputs,
    ip: IpAddr,
)
    requires
        state::is_built(s, c, path, inputs),
        c.proxy_mode is Smart,
    ensures
        state::some_net_has(state::list_nets(state::socks5_list(c, inputs)), ip)
            ==> !s.goes_direct(ip, None),
        !state::some_net_has(state::list_nets(state::socks5_list(c, inputs)), ip)
            && state::some_net_has(state::list_nets(state::direct_list(c, inputs)), ip)
            ==> s.goes_direct(ip, None),
{
    state::built_lists_decide(s, c, path, inputs, ip);
}

/// A named list of a file has a domain: one of its keywords occurs in it, one of its
/// domains is at or above it, or one of its full names is it.
pub open spec fn list_has(d: geosite::DatView, domain: Seq<char>) -> bool {
    ||| exists|i: int|
        0 <= i < d.plain.len() && geosite::rule_matches(0, #[trigger] d.plain[i], domain)
    ||| exists|i: int|
        0 <= i < d.domain.len() && geosite::rule_matches(2, #[trigger] d.domain[i], domain)
    ||| exists|i: int|
        0 <= i < d.full.len() && geosite::rule_matches(3, #[trigger] d.full[i], domain)
}

/// In a state, a named list that the configuration uses has the domains that the last
/// list of that name in the file has.
pub proof fn configured_lists_are_read(
    s: AppState,
    c: Config,
    path: String,
    inputs: BuildInputs,
    tag: Seq<char>,
    k: int,
    domain: Seq<char>,
)
    requires
        state::is_built(s, c, path, inputs),
        text::names(c.proxy_geosite_tags@).contains(tag) || text::names(
            c.direct_geosite_tags@,
        ).contains(tag),
        inputs.geosite is Some,
        ({
            let dat = geosite::sites_in_dat(inputs.geosite->0@)->0;
            &&& 0 <= k < dat.len()
            &&& text::lowercase(dat[k].tag) == text::lowercase(tag)
            &&& forall|i: int|
                k < i < dat.len() ==> text::lowercase((#[trigger] dat[i]).tag) != text::lowercase(
                    tag,
                )
        }),
    ensures
        s.geosite is Some,
        geosite::in_site(s.geosite->0.sites@, tag, domain) <==> list_has(
            geosite::sites_in_dat(inputs.geosite->0@)->0[k],
            domain,
        ),
{
    let dat = geosite::sites_in_dat(inputs.geosite->0@)->0;
    let proxy = text::names(c.proxy_geosite_tags@);
    let direct = text::names(c.direct_geosite_tags@);
    let tags = proxy + direct;
    let index = s.geosite->0;
    assert(geosite::is_index_of(index, dat, tags));
    let sites = choose|sites: Seq<geosite::GeoSite>|
        geosite::are_sites_of(sites, dat) && index.sites@ == #[trigger] geosite::needed_sites(
            sites,
            tags,
            dat.len() as int,
        );
    assert(tags.contains(tag)) by {
        if proxy.contains(tag) {
            let i = choose|i: int| 0 <= i < proxy.len() && proxy[i] == tag;
            assert(tags[i] == tag);
        } else {
            let i = choose|i: int| 0 <= i < direct.len() && direct[i] == tag;
            assert(tags[proxy.len() + i] == tag);
        }
    }
    geosite::index_answers_for_its_tags(sites, tags, tag, domain);
    assert(geosite::is_site_of(sites[k], dat[k]));
    assert forall|i: int| k < i < sites.len() implies text::lowercase((#[trigger] sites[i]).tag@)
        != text::lowercase(tag) by {
        assert(geosite::is_site_of(sites[i], dat[i]));
        assert(text::lowercase(dat[i].tag) != text::lowercase(tag));
    }
    lemma_last_list(sites, k, text::lowercase(tag), sites.len() as int);
    geosite::file_lists_answer_by_kind(sites[k], dat[k], domain);
}

/// A database is read where one is named, and not by an empty name.
pub proof fn named_databases_are_read(c: Config)
    ensures
        c.mmdb_path is None ==> state::mmdb_file(c) is None,
        c.mmdb_path matches Some(path) ==> (path@.len() == 0 ==> state::mmdb_file(c) is None) && (
        path@.len() > 0 ==> state::mmdb_file(c) == Some(path@)),
{
}

/// In a table of one pattern, a domain leads to the group of the pattern exactly when
/// the pattern is for it: a pattern that starts with a dot is for a domain and
/// everything below it, one without is for its domain alone.
pub proof fn patterns_lead_to_their_group(
    t: routes::DomainRouteTable,
    domains: Seq<DomainRoute>,
    name: Seq<char>,
    domain: Seq<char>,
)
    requires
        routes::is_table_of(t, domains),
        domains.len() == 1,
        name.len() > 0,
        is_bare(name),
        is_bare(domain),
    ensures
        domains[0].domain@ == seq!['.'] + name ==> t.group(domain) == if reaches(domain, name) {
            Some(domains[0].group@)
        } else {
            None
        },
        domains[0].domain@ == name ==> t.group(domain) == if text::differ_in_case_alone(
            domain,
            name,
        ) {
            Some(domains[0].group@)
        } else {
            None
        },
{
    let none = Seq::<char>::empty();
    lemma_bare(domain);
    lemma_bare(name);
    lemma_reaches(domain, name);
    names_are_compared_bare(seq!['.'], name, none);
    assert(seq!['.'] + name + none =~= seq!['.'] + name);
    util::canonical_idempotent(seq!['.'] + name);
    util::canonical_idempotent(name);
    let exact = routes::entries_of(domains, false, 1);
    let suffixes = routes::entries_of(domains, true, 1);
    assert(routes::entries_of(domains, false, 0) =~= Seq::empty());
    assert(routes::entries_of(domains, true, 0) =~= Seq::empty());
    reveal_with_fuel(routes::exact_group, 2);
    if domains[0].domain@ == seq!['.'] + name {
        assert(exact =~= Seq::empty());
        assert(suffixes =~= seq![(util::canonical(seq!['.'] + name), domains[0].group@)]);
        if reaches(domain, name) {
            routes::deciding_pattern_gives_the_group(t, domains, 0, domain);
        } else {
            routes::longest_suffix_wins(t, domains, domain);
        }
    }
    if domains[0].domain@ == name {
        assert(suffixes =~= Seq::empty());
        assert(exact =~= seq![(util::canonical(name), domains[0].group@)]);
        if text::differ_in_case_alone(domain, name) {
            routes::deciding_pattern_gives_the_group(t, domains, 0, domain);
        } else {
            routes::longest_suffix_wins(t, domains, domain);
        }
    }
}

// ---------------------------------------------------------------------------
// What is remembered
// ---------------------------------------------------------------------------

/// In smart mode, where no domain decides, the answer for an address that is not
/// remembered is remembered from then on, for as long as answers are. Where the mode or
/// the domain decides, or the answer is remembered already, nothing new is.
pub proof fn answers_are_remembered(
    s: AppState,
    after: AppState,
    ip: IpAddr,
    domain: Option<Seq<char>>,
    now: u64,
    later: u64,
)
    requires
        s.wf(),
        after.wf(),
        s.asked_at(after, ip, domain, now),
    ensures
        s.runtime.proxy_mode != 1 && s.runtime.proxy_mode != 2 && s.domain_rules(domain) is None
            && s.route_cache.value(ip, now) is None && s.route_cache.ttl_secs > 0
            && s.route_cache.max > 0 ==> after.route_cache.value(ip, later) == if later
            < now + s.route_cache.ttl_secs {
            Some(s.ip_rules(ip))
        } else {
            None
        },
        s.runtime.proxy_mode == 1 || s.runtime.proxy_mode == 2 || s.domain_rules(domain) is Some
            || s.route_cache.value(ip, now) is Some ==> after.route_cache.entries@
            == s.route_cache.entries@,
        after.goes_direct(ip, domain) == s.goes_direct(ip, domain),
{
    if s.runtime.proxy_mode != 1 && s.runtime.proxy_mode != 2 && s.domain_rules(domain) is None
        && s.route_cache.value(ip, now) is None && s.route_cache.ttl_secs > 0 && s.route_cache.max
        > 0 {
        cache::put_is_found(s.route_cache, after.route_cache, ip, s.ip_rules(ip), now, later);
    }
}

// ---------------------------------------------------------------------------
// What is refused
// ---------------------------------------------------------------------------

/// A configuration is refused for the first of these that is wrong: the database, the
/// list for the direct way, the list for the servers, the servers, the file with named
/// lists, the routes of clients, and their routes by domains.
pub proof fn faults_of_files_are_named_in_order(c: Config, inputs: BuildInputs)
    ensures
        ({
            let db = inputs.mmdb is Some && !state::is_country_db(inputs.mmdb->0@);
            let direct = state::list_fault(state::direct_list(c, inputs), 0);
            let socks5 = state::list_fault(state::socks5_list(c, inputs), 0);
            let servers = cli::upstreams_fault(c.upstream@);
            let sites = inputs.geosite is Some && geosite::sites_in_dat(inputs.geosite->0@) is None;
            let fault = state::build_fault(c, inputs);
            &&& db <==> fault == Some(BuildError::Mmdb)
            &&& !db && direct is Some ==> fault == Some(BuildError::DirectIps(direct->0))
            &&& !db && direct is None && socks5 is Some ==> fault == Some(
                BuildError::Socks5Ips(socks5->0),
            )
            &&& !db && direct is None && socks5 is None && servers is Some ==> fault == Some(
                BuildError::Upstreams(servers->0),
            )
            &&& !db && direct is None && socks5 is None && servers is None && sites ==> fault
                == Some(BuildError::Geosite)
        }),
{
    lemma_client_fault_kind(c.client_routes@, 0);
    lemma_domains_fault_kind(c.client_domain_routes@, 0);
}

proof fn lemma_client_fault_kind(list: Seq<ClientRoute>, i: int)
    ensures
        state::client_fault(list, i) matches Some(e) ==> e is ClientRoute,
    decreases list.len() - i,
{
    if 0 <= i < list.len() {
        lemma_client_fault_kind(list, i + 1);
    }
}

proof fn lemma_domains_fault_kind(list: Seq<ClientDomainRoute>, i: int)
    ensures
        state::domains_fault(list, i) matches Some(e) ==> e is DomainRouteClient
            || e is DomainPattern,
    decreases list.len() - i,
{
    if 0 <= i < list.len() {
        lemma_domains_fault_kind(list, i + 1);
    }
}

/// The entry of a list that is named is the first that is no network, with what is wrong
/// with it.
pub proof fn first_wrong_entry_is_named(list: Seq<Seq<char>>, k: int)
    requires
        0 <= k < list.len() <= usize::MAX,
        util::net_of_entry(list[k]) is Err,
        forall|i: int| 0 <= i < k ==> util::net_of_entry(#[trigger] list[i]) is Ok,
    ensures
        state::list_fault(list, 0) == Some(
            NetListError { index: k as usize, error: util::net_of_entry(list[k])->Err_0 },
        ),
{
    lemma_first_wrong_entry(list, 0, k);
}

proof fn lemma_first_wrong_entry(list: Seq<Seq<char>>, from: int, k: int)
    requires
        0 <= from <= k < list.len() <= usize::MAX,
        util::net_of_entry(list[k]) is Err,
        forall|i: int| from <= i < k ==> util::net_of_entry(#[trigger] list[i]) is Ok,
    ensures
        state::list_fault(list, from) == Some(
            NetListError { index: k as usize, error: util::net_of_entry(list[k])->Err_0 },
        ),
    decreases k - from,
{
    if from < k {
        lemma_first_wrong_entry(list, from + 1, k);
    }
}

} // verus!
