use xtp_rs::cli::{
    ClientDomainRoute, ClientRoute, Config, DomainRoute, ProxyMode, QuicSniffMode, UpstreamConfig,
    UpstreamSetError, GAIN_ONE,
};
use xtp_rs::geosite::{
    geosite_contains, geosite_domain_match, read_sites, GeoRule, GeoSite, GeositeDomainType, GeositeIndex,
};
use xtp_rs::net::{IpAddr, IpNet, Ipv4Addr, Ipv6Addr, SocketAddr};
use xtp_rs::routes::{
    ClientDomainRoutes, ClientIpRoutes, DomainGroup, DomainRouteTable,
};
use xtp_rs::state::{
    domain_is_listed, extend_list, files_to_read, is_listed_country, is_must_direct_local_ip,
    AppState, BuildError, BuildInputs,
};
use xtp_rs::util::{build_ip_tries, parse_ip_net_list, parse_ip_or_cidr, NetListError, NetTextError};

fn ip(text: &str) -> IpAddr {
    match text.parse::<core::net::IpAddr>().unwrap() {
        core::net::IpAddr::V4(a) => IpAddr::V4(Ipv4Addr { bits: a.to_bits() }),
        core::net::IpAddr::V6(a) => IpAddr::V6(Ipv6Addr { bits: a.to_bits() }),
    }
}

fn net(text: &str) -> IpNet {
    parse_ip_or_cidr(text).unwrap()
}

fn create_test_config() -> Config {
    Config {
        listen: "[::]:10810".into(),
        udp: true,
        socks5_user: None,
        socks5_password: None,
        fwmark: 2,
        mmdb_path: None,
        udp_session_timeout_secs: 60,
        udp_session_idle_timeout_secs: 0,
        connect_timeout_secs: 20,
        half_close_timeout: 0,
        splice: false,
        sniff_tls_sni: false,
        sniff_http_host: false,
        sniff_quic_sni: false,
        quic_sniff_mode: QuicSniffMode::Full,
        quic_sniff_pending_timeout_ms: 200,
        tcp_peek_buffer_size: 32 * 1024,
        tls_sniff_peek_len: 2048,
        tls_sniff_max_len: 32 * 1024,
        tls_sniff_max_retries: 5,
        tls_sniff_wait_more_ms: 100,
        tls_sniff_timeout_ms: 1000,
        http_sniff_peek_len: 512,
        http_sniff_max_len: 16 * 1024,
        http_sniff_max_retries: 5,
        http_sniff_wait_more_ms: 100,
        http_sniff_timeout_ms: 1000,
        log_level: None,
        direct_countries: vec![],
        force_direct_ips: vec![],
        force_socks5_ips: vec![],
        force_direct_ips_file: None,
        force_socks5_ips_file: None,
        force_direct_domains: vec![],
        force_socks5_domains: vec![],
        port_forward: vec![],
        direct_local_ip: true,
        upstream: vec![UpstreamConfig {
            id: "test".into(),
            addr: SocketAddr::new(ip("127.0.0.1"), 1080),
            groups: None,
            gain_bits: GAIN_ONE,
        }],
        disable_upstream_score: false,
        upstream_switch_tolerance: 0,
        health_check_interval_secs: 0,
        health_check_timeout_secs: 5,
        health_check_fail_threshold: 2,
        health_check_url: "cp.cloudflare.com".into(),
        quic_weight: 70,
        proxy_mode: ProxyMode::default(),
        geosite_path: None,
        proxy_geosite_tags: vec![],
        direct_geosite_tags: vec![],
        client_routes: vec![],
        client_domain_routes: vec![],
        route_cache_ttl_secs: 5,
        route_cache_max: 4096,
    }
}

fn no_inputs() -> BuildInputs {
    BuildInputs { mmdb: None, force_direct_ips: None, force_socks5_ips: None, geosite: None }
}

fn build(config: Config) -> AppState {
    AppState::build(config, "config.toml".to_string(), no_inputs()).unwrap()
}

fn minimal_app_state() -> AppState {
    build(create_test_config())
}

fn strings(list: &[&str]) -> Vec<String> {
    list.iter().map(|s| s.to_string()).collect()
}

#[test]
fn local_ipv4_loopback() {
    assert!(is_must_direct_local_ip(ip("127.0.0.1")));
}

#[test]
fn local_ipv4_link_local() {
    assert!(is_must_direct_local_ip(ip("169.254.1.1")));
}

#[test]
fn local_ipv4_broadcast() {
    assert!(is_must_direct_local_ip(ip("255.255.255.255")));
}

#[test]
fn local_ipv4_unspecified() {
    assert!(is_must_direct_local_ip(ip("0.0.0.0")));
}

#[test]
fn local_ipv6_loopback() {
    assert!(is_must_direct_local_ip(ip("::1")));
}

#[test]
fn local_ipv6_unspecified() {
    assert!(is_must_direct_local_ip(ip("::")));
}

#[test]
fn local_ipv6_link_local() {
    assert!(is_must_direct_local_ip(ip("fe80::1")));
}

#[test]
fn not_local_public_ip() {
    assert!(!is_must_direct_local_ip(ip("8.8.8.8")));
    assert!(!is_must_direct_local_ip(ip("2001:4860:4860::8888")));
}

#[test]
fn should_direct_local_with_flag_true() {
    let mut state = minimal_app_state();
    assert!(state.should_direct(ip("127.0.0.1"), None));
    assert!(state.should_direct(ip("::1"), None));
}

#[test]
fn should_direct_force_socks5_has_higher_priority() {
    let socks5_nets = parse_ip_net_list(&["8.8.8.8".to_string()]).unwrap();
    let (force_socks5_v4, _) = build_ip_tries(&socks5_nets).unwrap();
    let mut state = AppState { force_socks5_v4, ..minimal_app_state() };
    assert!(!state.should_direct(ip("8.8.8.8"), None));
}

#[test]
fn force_socks5_has_higher_priority_than_force_direct() {
    let nets = parse_ip_net_list(&["8.8.8.8".to_string()]).unwrap();
    let mut state = minimal_app_state();
    let (v4, v6) = build_ip_tries(&nets).unwrap();
    state.force_direct_v4 = v4;
    state.force_direct_v6 = v6;
    let (v4, v6) = build_ip_tries(&nets).unwrap();
    state.force_socks5_v4 = v4;
    state.force_socks5_v6 = v6;
    assert!(!state.should_direct(ip("8.8.8.8"), None));
}

#[test]
fn force_direct_returns_true() {
    let nets = parse_ip_net_list(&["8.8.8.8".to_string()]).unwrap();
    let (v4, v6) = build_ip_tries(&nets).unwrap();
    let mut state = minimal_app_state();
    state.force_direct_v4 = v4;
    state.force_direct_v6 = v6;
    assert!(state.should_direct(ip("8.8.8.8"), None));
}

#[test]
fn local_ip_not_direct_when_flag_false() {
    let mut state = minimal_app_state();
    state.config.direct_local_ip = false;
    assert!(!state.should_direct(ip("127.0.0.1"), None));
}

#[test]
fn client_ip_routes_exact_ip_match() {
    let mut routes = ClientIpRoutes::new();
    routes.insert(net("192.168.1.10/32"), "a".to_string());
    routes.finalize();

    assert_eq!(routes.lookup(ip("192.168.1.10")), Some(&"a".to_string()));
    assert_eq!(routes.lookup(ip("192.168.1.11")), None);
}

#[test]
fn client_ip_routes_cidr_match() {
    let mut routes = ClientIpRoutes::new();
    routes.insert(net("192.168.1.0/24"), "lan".to_string());
    routes.finalize();

    assert_eq!(routes.lookup(ip("192.168.1.55")), Some(&"lan".to_string()));
    assert_eq!(routes.lookup(ip("192.168.2.1")), None);
}

#[test]
fn client_ip_routes_longest_prefix_match() {
    let mut routes = ClientIpRoutes::new();
    routes.insert(net("192.168.0.0/16"), "broad".to_string());
    routes.insert(net("192.168.1.0/24"), "narrow".to_string());
    routes.finalize();

    assert_eq!(routes.lookup(ip("192.168.1.42")), Some(&"narrow".to_string()));
    assert_eq!(routes.lookup(ip("192.168.2.42")), Some(&"broad".to_string()));
}

#[test]
fn client_ip_routes_ipv6_match() {
    let mut routes = ClientIpRoutes::new();
    routes.insert(net("2001:db8::/32"), "v6".to_string());
    routes.finalize();

    assert_eq!(routes.lookup(ip("2001:db8::1")), Some(&"v6".to_string()));
    assert_eq!(routes.lookup(ip("2001:dead::1")), None);
}

fn groups(list: &[(&str, &str)]) -> Vec<DomainGroup> {
    list.iter()
        .map(|(d, g)| DomainGroup { domain: d.to_string(), group: g.to_string() })
        .collect()
}

fn group_for<'a>(routes: &'a ClientDomainRoutes, client: &str, domain: &str) -> Option<&'a str> {
    routes.lookup(ip(client)).and_then(|t| t.lookup(domain))
}

fn exact(list: &[(&str, &str)]) -> DomainRouteTable {
    DomainRouteTable { exact: groups(list), suffixes: vec![] }
}

fn suffixes(list: &[(&str, &str)]) -> DomainRouteTable {
    DomainRouteTable { exact: vec![], suffixes: groups(list) }
}

#[test]
fn client_domain_routes_exact_ip_match() {
    let mut routes = ClientDomainRoutes::new();
    routes.insert(net("192.168.1.10/32"), exact(&[("example.com", "group_a")]));
    routes.finalize();

    assert_eq!(group_for(&routes, "192.168.1.10", "example.com"), Some("group_a"));
    assert_eq!(group_for(&routes, "192.168.1.11", "example.com"), None);
}

#[test]
fn client_domain_routes_cidr_suffix_match() {
    let mut routes = ClientDomainRoutes::new();
    routes.insert(net("192.168.1.0/24"), suffixes(&[("google.com", "group_b")]));
    routes.finalize();

    assert_eq!(group_for(&routes, "192.168.1.55", "www.google.com"), Some("group_b"));
    assert_eq!(group_for(&routes, "192.168.2.1", "www.google.com"), None);
}

#[test]
fn client_domain_routes_longest_prefix_match() {
    let mut routes = ClientDomainRoutes::new();
    routes.insert(net("192.168.0.0/16"), exact(&[("youtube.com", "broad")]));
    routes.insert(net("192.168.1.0/24"), exact(&[("youtube.com", "narrow")]));
    routes.finalize();

    assert_eq!(group_for(&routes, "192.168.1.42", "youtube.com"), Some("narrow"));
    assert_eq!(group_for(&routes, "192.168.2.42", "youtube.com"), Some("broad"));
}

#[test]
fn client_domain_routes_canonicalization() {
    let mut routes = ClientDomainRoutes::new();
    routes.insert(net("10.0.0.0/8"), exact(&[("example.com", "group_x")]));
    routes.finalize();

    assert_eq!(group_for(&routes, "10.0.0.1", "Example.COM"), Some("group_x"));
    assert_eq!(group_for(&routes, "10.0.0.1", "EXAMPLE.COM."), Some("group_x"));
}

#[test]
fn client_domain_routes_suffix_priority() {
    let mut routes = ClientDomainRoutes::new();
    routes.insert(net("10.0.0.0/8"), suffixes(&[("google.com", "g1"), ("com", "g2")]));
    routes.finalize();

    assert_eq!(group_for(&routes, "10.0.0.1", "www.google.com"), Some("g1"));
    assert_eq!(group_for(&routes, "10.0.0.1", "example.com"), Some("g2"));
}

#[test]
fn client_domain_routes_ipv6_match() {
    let mut routes = ClientDomainRoutes::new();
    routes.insert(net("2001:db8::/32"), exact(&[("test.com", "v6")]));
    routes.finalize();

    assert_eq!(group_for(&routes, "2001:db8::1", "test.com"), Some("v6"));
    assert_eq!(group_for(&routes, "2001:dead::1", "test.com"), None);
}

fn route(domain: &str, group: &str) -> DomainRoute {
    DomainRoute { domain: domain.to_string(), group: group.to_string() }
}

#[test]
fn patterns_are_sorted_by_length() {
    let table = DomainRouteTable::build(&[
        route(".com", "wide"),
        route("Example.COM.", "exactly"),
        route(".sub.example.com", "deep"),
        route(".example.com", "near"),
    ])
    .unwrap();
    assert_eq!(table.lookup("example.com"), Some("exactly"));
    assert_eq!(table.lookup("a.example.com"), Some("near"));
    assert_eq!(table.lookup("x.sub.example.com"), Some("deep"));
    assert_eq!(table.lookup("other.com"), Some("wide"));
    assert_eq!(table.lookup("other.org"), None);
}

#[test]
fn built_routes_give_clients_their_groups() {
    for turn in 0..3 {
        let mut domains = vec![route(".com", "g2"), route(".google.com", "g1"), route("a.com", "e")];
        domains.rotate_left(turn);
        let state = build(Config {
            client_domain_routes: vec![ClientDomainRoute {
                client: "10.0.0.0/8".to_string(),
                domains,
            }],
            ..create_test_config()
        });
        let table = state.runtime.client_domain_routes.lookup(ip("10.0.0.1")).unwrap();
        assert_eq!(table.lookup("www.google.com"), Some("g1"));
        assert_eq!(table.lookup("a.com"), Some("e"));
        assert_eq!(table.lookup("x.a.com"), Some("g2"));
        assert_eq!(state.lookup_upstream_group(ip("10.9.9.9"), Some("WWW.Google.com.")), "g1");
        assert!(state.runtime.client_domain_routes.lookup(ip("11.0.0.1")).is_none());
    }
}

#[test]
fn the_first_of_equal_routes_counts() {
    let mut routes = ClientIpRoutes::new();
    routes.insert(net("10.0.0.0/8"), "wide".to_string());
    routes.insert(net("10.1.0.0/16"), "first".to_string());
    routes.insert(net("10.1.0.0/16"), "second".to_string());
    routes.finalize();
    assert_eq!(routes.lookup(ip("10.1.2.3")), Some(&"first".to_string()));
    assert_eq!(routes.lookup(ip("10.2.2.3")), Some(&"wide".to_string()));
}

#[test]
fn built_servers_have_the_share_of_quic() {
    let state = build(Config { quic_weight: 30, ..create_test_config() });
    assert!(state.upstreams.items.iter().all(|u| u.quic_weight == 30));
    let state = build(Config { quic_weight: 130, ..create_test_config() });
    assert!(state.upstreams.items.iter().all(|u| u.quic_weight == 100));
}

#[test]
fn a_listed_network_of_all_addresses_counts() {
    let mut state = build(Config {
        force_direct_ips: strings(&[" 0.0.0.0/0 "]),
        force_socks5_ips: strings(&["8.8.8.8"]),
        ..create_test_config()
    });
    assert!(state.should_direct(ip("1.2.3.4"), None));
    assert!(!state.should_direct(ip("8.8.8.8"), None));
    assert!(!state.should_direct(ip("2001:db8::1"), None));
}

#[test]
fn empty_patterns_are_refused() {
    assert!(matches!(
        DomainRouteTable::build(&[route("a.b", "x"), route("..", "y")]),
        Err(1)
    ));
    assert!(matches!(DomainRouteTable::build(&[route(".", "y")]), Err(0)));
}

fn site(tag: &str, rules: &[(i32, &str)]) -> GeoSite {
    GeoSite {
        tag: tag.to_string(),
        rules: rules
            .iter()
            .map(|(kind, value)| GeoRule { kind: *kind, value: value.to_string() })
            .collect(),
    }
}

#[test]
fn rules_match_by_kind() {
    let rule = |kind, value: &str| GeoRule { kind, value: value.to_string() };
    assert!(geosite_domain_match(&rule(0, "oogl"), "www.google.com"));
    assert!(geosite_domain_match(&rule(2, "google.com"), "www.google.com"));
    assert!(!geosite_domain_match(&rule(2, "google.com"), "notgoogle.com"));
    assert!(geosite_domain_match(&rule(3, "google.com"), "google.com"));
    assert!(!geosite_domain_match(&rule(3, "google.com"), "www.google.com"));
    assert!(!geosite_domain_match(&rule(1, ".*"), "google.com"));
    assert!(!geosite_domain_match(&rule(9, "google.com"), "google.com"));
    assert_eq!(GeositeDomainType::from(7), GeositeDomainType::Unknown(7));
}

#[test]
fn index_holds_the_needed_lists() {
    let index = GeositeIndex::build(
        vec![site("CN", &[(2, "qq.com")]), site("GFW", &[(3, "x.org")]), site("ADS", &[(2, "ad")])],
        &strings(&["gfw"]),
        &strings(&["cn"]),
    );
    assert!(geosite_contains(&index, "cn", "www.qq.com"));
    assert!(geosite_contains(&index, "gfw", "x.org"));
    assert!(!geosite_contains(&index, "gfw", "a.x.org"));
    assert!(!geosite_contains(&index, "ads", "ad"));
    assert!(!geosite_contains(&index, "none", "qq.com"));
    assert!(geosite_contains(&index, "cn", "WWW.QQ.com."));
}

#[test]
fn lists_of_domains_decide_first() {
    let mut state = build(Config {
        force_direct_domains: strings(&[".direct.example"]),
        force_socks5_domains: strings(&["proxied.example"]),
        force_direct_ips: strings(&["9.9.9.9"]),
        ..create_test_config()
    });
    assert!(state.need_forced_domain_sniff());
    assert!(state.should_direct(ip("8.8.8.8"), Some("www.direct.example")));
    assert!(state.should_direct(ip("8.8.8.8"), Some("WWW.Direct.Example.")));
    assert!(!state.should_direct(ip("9.9.9.9"), Some("proxied.example")));
    assert!(!state.should_direct(ip("9.9.9.9"), Some("Proxied.EXAMPLE.")));
    assert!(state.should_direct(ip("9.9.9.9"), Some("other.example")));
    assert!(!state.should_direct(ip("8.8.8.8"), Some("other.example")));
    assert!(domain_is_listed(&strings(&["c", ".a.b"]), "X.A.B."));
    assert!(domain_is_listed(&strings(&["a.b"]), "A.B."));
    assert!(!domain_is_listed(&strings(&["a.b"]), "x.a.b"));
    assert!(!domain_is_listed(&strings(&[".a.b"]), "xa.b"));
}

/// One list of a file: field 1 its name, field 2 each rule.
fn dat_site(tag: &str, rules: &[(u8, &str)]) -> Vec<u8> {
    let mut site = vec![0x0a, tag.len() as u8];
    site.extend_from_slice(tag.as_bytes());
    for (kind, value) in rules {
        site.extend_from_slice(&[0x12, value.len() as u8 + 4, 0x08, *kind, 0x12, value.len() as u8]);
        site.extend_from_slice(value.as_bytes());
    }
    let mut entry = vec![0x0a, site.len() as u8];
    entry.extend_from_slice(&site);
    entry
}

#[test]
fn lists_are_read_from_a_file() {
    let mut dat = dat_site("CN", &[(3, "f"), (2, "d"), (1, "r"), (0, "p"), (2, "e")]);
    dat.extend(dat_site("US", &[]));
    let sites = read_sites(&dat).unwrap();
    assert_eq!(sites.len(), 2);
    assert_eq!((sites[0].tag.as_str(), sites[1].tag.as_str()), ("CN", "US"));
    let rules: Vec<(i32, &str)> =
        sites[0].rules.iter().map(|r| (r.kind, r.value.as_str())).collect();
    assert_eq!(rules, vec![(0, "p"), (1, "r"), (2, "d"), (2, "e"), (3, "f")]);
    assert!(sites[1].rules.is_empty());
    assert!(read_sites(&[0x0a, 0xff]).is_none());
}

#[test]
fn sites_decide_between_lists_and_addresses() {
    let config = Config {
        proxy_geosite_tags: strings(&["gfw"]),
        direct_geosite_tags: strings(&["cn"]),
        force_direct_ips: strings(&["9.9.9.9"]),
        ..create_test_config()
    };
    let mut dat = dat_site("GFW", &[(2, "x.org"), (1, "y.org")]);
    dat.extend(dat_site("CN", &[(0, "qq"), (3, "full.cn"), (9, "z.org")]));
    dat.extend(dat_site("ADS", &[(2, "ads.org")]));
    let inputs = BuildInputs { geosite: Some(dat), ..no_inputs() };
    let mut state = AppState::build(config, String::new(), inputs).unwrap();
    assert!(state.need_geosite_sniff());
    assert!(!state.should_direct(ip("8.8.8.8"), Some("x.org")));
    assert!(state.should_direct(ip("8.8.8.8"), Some("qq.com")));
    assert!(state.should_direct(ip("8.8.8.8"), Some("full.cn")));
    assert_eq!(state.direct_by_domain_rules(Some("x.full.cn")), None);
    assert_eq!(state.direct_by_domain_rules(Some("y.org")), None);
    assert_eq!(state.direct_by_domain_rules(Some("z.org")), None);
    assert_eq!(state.direct_by_domain_rules(Some("ads.org")), None);
    assert_eq!(state.direct_by_domain_rules(None), None);
}

#[test]
fn proxy_modes_decide_alone() {
    let mut state = minimal_app_state();
    state.runtime.proxy_mode = ProxyMode::Global.as_u8();
    assert!(!state.should_direct_at(ip("8.8.8.8"), None, 1));
    state.runtime.proxy_mode = ProxyMode::Bypass.as_u8();
    assert!(state.should_direct_at(ip("8.8.8.8"), None, 1));
}

#[test]
fn decisions_are_kept_for_a_while() {
    let mut state = build(Config {
        force_direct_ips: strings(&["9.9.9.9"]),
        ..create_test_config()
    });
    assert!(state.should_direct_at(ip("9.9.9.9"), None, 100));
    assert!(state.should_direct_at(ip("9.9.9.9"), None, 104));
    assert!(state.route_cache.get(&ip("9.9.9.9"), 104).is_some());
    assert!(state.route_cache.get(&ip("9.9.9.9"), 200).is_none());
}

#[test]
fn servers_of_flows_are_kept() {
    let mut state = minimal_app_state();
    let (c, t) = (ip("10.0.0.1"), ip("8.8.8.8"));
    assert_eq!(state.get_cached_upstream(c, t, None, 10), None);
    state.cache_upstream(c, t, Some("a.b"), 0, 10);
    assert_eq!(state.get_cached_upstream(c, t, Some("a.b"), 11), Some(0));
    assert_eq!(state.get_cached_upstream(c, t, None, 11), None);
    assert_eq!(state.get_cached_upstream(c, ip("8.8.4.4"), Some("a.b"), 11), None);
    state.remove_cached_upstream(c, t, Some("a.b"));
    assert_eq!(state.get_cached_upstream(c, t, Some("a.b"), 11), None);
}

#[test]
fn clients_and_domains_lead_to_groups() {
    let state = build(Config {
        client_routes: vec![ClientRoute {
            client: "10.0.0.0/8".to_string(),
            group: "office".to_string(),
        }],
        client_domain_routes: vec![ClientDomainRoute {
            client: "10.0.0.7".to_string(),
            domains: vec![route(".tv", "video")],
        }],
        ..create_test_config()
    });
    assert_eq!(state.lookup_upstream_group(ip("10.0.0.7"), Some("a.tv")), "video");
    assert_eq!(state.lookup_upstream_group(ip("10.0.0.7"), Some("a.org")), "office");
    assert_eq!(state.lookup_upstream_group(ip("10.0.0.8"), Some("a.tv")), "office");
    assert_eq!(state.lookup_upstream_group(ip("11.0.0.8"), None), "default");
    assert!(state.need_upstream_domain_sniff(ip("10.0.0.7")));
    assert!(!state.need_upstream_domain_sniff(ip("10.0.0.8")));
}

#[test]
fn both_credentials_are_needed() {
    let user = Config { socks5_user: Some("u".to_string()), ..create_test_config() };
    assert_eq!(build(user).socks5_credentials(), None);
    let both = Config {
        socks5_user: Some("u".to_string()),
        socks5_password: Some("p".to_string()),
        ..create_test_config()
    };
    assert_eq!(build(both).socks5_credentials(), Some(("u", "p")));
}

#[test]
fn lists_are_extended_by_files() {
    assert_eq!(
        extend_list(&strings(&["1.1.1.1"]), Some(" 2.2.2.2 \r\n\n3.3.3.0/24\n")),
        strings(&["1.1.1.1", "2.2.2.2", "3.3.3.0/24"])
    );
    assert_eq!(extend_list(&strings(&["1.1.1.1"]), None), strings(&["1.1.1.1"]));
    let config = Config {
        force_direct_ips: strings(&["1.1.1.1"]),
        force_direct_ips_file: Some("list".to_string()),
        ..create_test_config()
    };
    assert_eq!(files_to_read(&config).force_direct_ips, Some("list".to_string()));
    assert_eq!(files_to_read(&config).mmdb, None);
    let inputs =
        BuildInputs { force_direct_ips: Some("2.2.2.0/24".to_string()), ..no_inputs() };
    let mut state = AppState::build(config, String::new(), inputs).unwrap();
    assert!(state.should_direct(ip("2.2.2.9"), None));
    assert!(state.should_direct(ip("1.1.1.1"), None));
    assert!(!state.should_direct(ip("2.2.3.9"), None));
}

#[test]
fn countries_are_listed_by_code() {
    assert!(is_listed_country(&strings(&["us", "cn"]), Some("CN")));
    assert!(!is_listed_country(&strings(&["CN"]), Some("DE")));
    assert!(!is_listed_country(&strings(&["CN"]), None));
    assert!(!minimal_app_state().is_direct_country_ip(ip("8.8.8.8")));
}

fn country_db() -> Vec<u8> {
    // One node: addresses below 128.0.0.0 lead to a record, the others to none.
    let mut db = Vec::new();
    db.extend_from_slice(&[0x00, 0x00, 0x11, 0x00, 0x00, 0x01]);
    db.extend_from_slice(&[0u8; 16]);
    db.extend_from_slice(&[0xe1, 0x47]);
    db.extend_from_slice(b"country");
    db.extend_from_slice(&[0xe1, 0x48]);
    db.extend_from_slice(b"iso_code");
    db.extend_from_slice(&[0x42]);
    db.extend_from_slice(b"CN");
    db.extend_from_slice(b"\xab\xcd\xefMaxMind.com");
    db.push(0xe9);
    let mut key = |k: &str, v: &[u8]| {
        db.push(0x40 | k.len() as u8);
        db.extend_from_slice(k.as_bytes());
        db.extend_from_slice(v);
    };
    key("node_count", &[0xc1, 1]);
    key("record_size", &[0xa1, 24]);
    key("ip_version", &[0xa1, 4]);
    key("database_type", &[0x44, b'T', b'e', b's', b't']);
    key("languages", &[0x00, 0x04]);
    key("binary_format_major_version", &[0xa1, 2]);
    key("binary_format_minor_version", &[0xa1, 0]);
    key("build_epoch", &[0x01, 0x02, 1]);
    key("description", &[0xe0]);
    db
}

#[test]
fn addresses_of_listed_countries_are_direct() {
    let config = Config { direct_countries: strings(&["CN"]), ..create_test_config() };
    let inputs = BuildInputs { mmdb: Some(country_db()), ..no_inputs() };
    let mut state = AppState::build(config, String::new(), inputs).unwrap();
    assert!(state.is_direct_country_ip(ip("1.2.3.4")));
    assert!(!state.is_direct_country_ip(ip("200.2.3.4")));
    assert!(state.should_direct(ip("1.2.3.4"), None));
    assert!(!state.should_direct(ip("200.2.3.4"), None));
}

#[test]
fn every_build_fault_has_its_error() {
    let try_build = |config: Config, inputs: BuildInputs| {
        AppState::build(config, String::new(), inputs).err()
    };
    assert_eq!(
        try_build(create_test_config(), BuildInputs { mmdb: Some(vec![1, 2, 3]), ..no_inputs() }),
        Some(BuildError::Mmdb)
    );
    assert_eq!(
        try_build(create_test_config(), BuildInputs { geosite: Some(vec![0x0a, 9]), ..no_inputs() }),
        Some(BuildError::Geosite)
    );
    let bad = strings(&["1.1.1.1", "x"]);
    let fault = NetListError { index: 1, error: NetTextError::Invalid };
    assert_eq!(
        try_build(Config { force_direct_ips: bad.clone(), ..create_test_config() }, no_inputs()),
        Some(BuildError::DirectIps(fault))
    );
    assert_eq!(
        try_build(Config { force_socks5_ips: bad, ..create_test_config() }, no_inputs()),
        Some(BuildError::Socks5Ips(fault))
    );
    assert_eq!(
        try_build(Config { upstream: vec![], ..create_test_config() }, no_inputs()),
        Some(BuildError::Upstreams(UpstreamSetError::Empty))
    );
    let client = |c: &str| ClientRoute { client: c.to_string(), group: "default".to_string() };
    assert_eq!(
        try_build(
            Config { client_routes: vec![client("1.1.1.1"), client("?")], ..create_test_config() },
            no_inputs()
        ),
        Some(BuildError::ClientRoute { route: 1 })
    );
    let domains = |c: &str, d: &str| ClientDomainRoute {
        client: c.to_string(),
        domains: vec![route(d, "default")],
    };
    assert_eq!(
        try_build(
            Config { client_domain_routes: vec![domains("?", "a.b")], ..create_test_config() },
            no_inputs()
        ),
        Some(BuildError::DomainRouteClient { route: 0 })
    );
    assert_eq!(
        try_build(
            Config { client_domain_routes: vec![domains("::1", ".")], ..create_test_config() },
            no_inputs()
        ),
        Some(BuildError::DomainPattern { route: 0, domain: 0 })
    );
}
