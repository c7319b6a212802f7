use xtp_rs::cli::{
    default_connect_timeout_secs, default_direct_countries, default_listen, default_quic_weight,
    default_route_cache_max, default_route_cache_ttl_secs, parse_listen_addr,
    ClientDomainRoute, ClientRoute, Config, ConfigError, DomainRoute, PortForward,
    PortForwardProto, ProxyMode, QuicSniffMode, UpstreamConfig, UpstreamSetError, GAIN_ONE,
};
use xtp_rs::net::{IpAddr, Ipv4Addr, Ipv6Addr, SocketAddr};

fn addr(ip: [u8; 4], port: u16) -> SocketAddr {
    SocketAddr::new(IpAddr::V4(Ipv4Addr { bits: u32::from_be_bytes(ip) }), port)
}

fn server(id: &str, port: u16, gain: f64) -> UpstreamConfig {
    UpstreamConfig {
        id: id.to_string(),
        addr: addr([127, 0, 0, 1], port),
        groups: None,
        gain_bits: gain.to_bits(),
    }
}

fn minimal_config() -> Config {
    Config {
        listen: "[::]:10810".to_string(),
        udp: true,
        socks5_user: None,
        socks5_password: None,
        fwmark: 2,
        mmdb_path: None,
        udp_session_timeout_secs: 60,
        udp_session_idle_timeout_secs: 0,
        connect_timeout_secs: 20,
        half_close_timeout: 0,
        splice: false,
        sniff_tls_sni: false,
        sniff_http_host: false,
        sniff_quic_sni: false,
        quic_sniff_mode: QuicSniffMode::Full,
        quic_sniff_pending_timeout_ms: 200,
        tcp_peek_buffer_size: 32 * 1024,
        tls_sniff_peek_len: 2048,
        tls_sniff_max_len: 32 * 1024,
        tls_sniff_max_retries: 5,
        tls_sniff_wait_more_ms: 100,
        tls_sniff_timeout_ms: 1000,
        http_sniff_peek_len: 512,
        http_sniff_max_len: 16 * 1024,
        http_sniff_max_retries: 5,
        http_sniff_wait_more_ms: 100,
        http_sniff_timeout_ms: 1000,
        log_level: None,
        direct_countries: vec![],
        force_direct_ips: vec![],
        force_socks5_ips: vec![],
        force_direct_ips_file: None,
        force_socks5_ips_file: None,
        force_direct_domains: vec![],
        force_socks5_domains: vec![],
        port_forward: vec![],
        direct_local_ip: true,
        upstream: vec![server("u1", 1080, 1.0)],
        disable_upstream_score: false,
        upstream_switch_tolerance: 0,
        health_check_interval_secs: 0,
        health_check_timeout_secs: 5,
        health_check_fail_threshold: 2,
        health_check_url: "cp.cloudflare.com".to_string(),
        quic_weight: 70,
        proxy_mode: ProxyMode::Smart,
        geosite_path: None,
        proxy_geosite_tags: vec![],
        direct_geosite_tags: vec![],
        client_routes: vec![],
        client_domain_routes: vec![],
        route_cache_ttl_secs: 5,
        route_cache_max: 4096,
    }
}

fn forward(bind: &str, network: PortForwardProto) -> PortForward {
    PortForward {
        name: None,
        bind: bind.to_string(),
        remote: "8.8.8.8:53".to_string(),
        network,
    }
}

#[test]
fn parse_listen_addr_invalid() {
    assert!(parse_listen_addr("not_an_addr").is_none());
    assert!(parse_listen_addr("127.0.0.1:999999").is_none());
}

#[test]
fn validate_port_forward_conflict() {
    let cfg = Config {
        listen: "0.0.0.0:12345".to_string(),
        port_forward: vec![forward("0.0.0.0:12345", PortForwardProto::Both)],
        upstream: vec![server("x", 1080, 1.0)],
        ..minimal_config()
    };
    assert!(cfg.validate().is_err());
    assert!(matches!(cfg.validate(), Err(ConfigError::ForwardConflict { forward: 0 })));
}

#[test]
fn build_upstream_set_empty() {
    let cfg = Config { upstream: vec![], ..minimal_config() };
    assert!(cfg.build_upstream_set().is_err());
    assert!(matches!(cfg.build_upstream_set(), Err(UpstreamSetError::Empty)));
}

#[test]
fn build_upstream_set_duplicate_id() {
    let cfg = Config {
        upstream: vec![server("dup", 1, 1.0), server("dup", 2, 1.0)],
        ..minimal_config()
    };
    assert!(cfg.build_upstream_set().is_err());
    assert!(matches!(
        cfg.build_upstream_set(),
        Err(UpstreamSetError::DuplicateId { upstream: 1 })
    ));
}

#[test]
fn parse_listen_addr_valid_ipv4_and_ipv6() {
    let (ip, port) = parse_listen_addr("127.0.0.1:1080").unwrap();
    assert_eq!(ip, IpAddr::V4(Ipv4Addr { bits: 0x7f00_0001 }));
    assert_eq!(port, 1080);

    let (ip, port) = parse_listen_addr("[::]:1080").unwrap();
    assert_eq!(ip, IpAddr::V6(Ipv6Addr { bits: 0 }));
    assert_eq!(port, 1080);
}

#[test]
fn validate_port_forward_no_conflict() {
    let cfg = Config {
        listen: "0.0.0.0:12345".to_string(),
        port_forward: vec![forward("0.0.0.0:12346", PortForwardProto::Udp)],
        ..minimal_config()
    };
    assert!(cfg.validate().is_ok());
}

#[test]
fn build_upstream_set_empty_id() {
    let cfg = Config { upstream: vec![server("   ", 1080, 1.0)], ..minimal_config() };
    assert!(cfg.build_upstream_set().is_err());
    assert!(matches!(cfg.build_upstream_set(), Err(UpstreamSetError::EmptyId { upstream: 0 })));
}

#[test]
fn default_is_smart() {
    assert_eq!(ProxyMode::default(), ProxyMode::Smart);
}

#[test]
fn as_u8_and_from_u8_roundtrip() {
    for mode in &[ProxyMode::Smart, ProxyMode::Global, ProxyMode::Bypass] {
        let v = mode.as_u8();
        assert_eq!(ProxyMode::from_u8(v), *mode, "roundtrip failed for {:?}", mode);
    }
}

#[test]
fn from_u8_invalid_defaults_to_smart() {
    assert_eq!(ProxyMode::from_u8(100), ProxyMode::Smart);
    assert_eq!(ProxyMode::from_u8(255), ProxyMode::Smart);
}

#[test]
fn next_cycles() {
    let modes = [ProxyMode::Smart, ProxyMode::Global, ProxyMode::Bypass];
    for (i, &mode) in modes.iter().enumerate() {
        let next = mode.next();
        let expected = modes[(i + 1) % modes.len()];
        assert_eq!(next, expected, "next({:?}) should be {:?}", mode, expected);
    }
}

#[test]
fn display_output() {
    assert_eq!(ProxyMode::Smart.as_str(), "smart");
    assert_eq!(ProxyMode::Global.as_str(), "global");
    assert_eq!(ProxyMode::Bypass.as_str(), "bypass");
}

fn config_with_gain(gain: f64) -> Config {
    Config { upstream: vec![server("test", 1080, gain)], ..minimal_config() }
}

#[test]
fn validate_gain_zero_rejected() {
    let cfg = config_with_gain(0.0);
    assert!(cfg.validate().is_err());
}

#[test]
fn validate_gain_negative_rejected() {
    let cfg = config_with_gain(-1.0);
    assert!(cfg.validate().is_err());
}

#[test]
fn validate_gain_nan_rejected() {
    let cfg = config_with_gain(f64::NAN);
    assert!(cfg.validate().is_err());
}

#[test]
fn validate_gain_infinity_rejected() {
    let cfg = config_with_gain(f64::INFINITY);
    assert!(cfg.validate().is_err());
}

#[test]
fn positive_gains_pass() {
    assert_eq!(GAIN_ONE, 1.0f64.to_bits());
    for gain in [1.0, 2.5, 0.001, f64::MAX, f64::MIN_POSITIVE, 5e-324] {
        assert!(config_with_gain(gain).validate().is_ok(), "gain {}", gain);
    }
    for gain in [-0.0, f64::NEG_INFINITY, -f64::NAN] {
        assert!(matches!(
            config_with_gain(gain).validate(),
            Err(ConfigError::Gain { upstream: 0 })
        ));
    }
}

#[test]
fn every_fault_has_its_error() {
    let cfg = Config { quic_weight: 101, ..minimal_config() };
    assert!(matches!(cfg.validate(), Err(ConfigError::QuicWeight)));

    let cfg = Config { udp_session_timeout_secs: 0, ..minimal_config() };
    assert!(matches!(cfg.validate(), Err(ConfigError::UdpSessionTimeout)));

    let cfg = Config { connect_timeout_secs: 0, ..minimal_config() };
    assert!(matches!(cfg.validate(), Err(ConfigError::ConnectTimeout)));

    let office = UpstreamConfig {
        groups: Some(vec!["office".to_string()]),
        ..server("o", 1080, 1.0)
    };
    let cfg = Config { upstream: vec![office], ..minimal_config() };
    assert!(matches!(cfg.validate(), Err(ConfigError::NoDefaultGroup)));

    let route = |client: &str, group: &str| ClientRoute {
        client: client.to_string(),
        group: group.to_string(),
    };
    let cfg = Config {
        client_routes: vec![route("10.0.0.0/8", "default"), route("nowhere", "default")],
        ..minimal_config()
    };
    assert!(matches!(cfg.validate(), Err(ConfigError::ClientRouteAddress { route: 1 })));

    let cfg = Config { client_routes: vec![route("10.0.0.1", "gone")], ..minimal_config() };
    assert!(matches!(cfg.validate(), Err(ConfigError::ClientRouteGroup { route: 0 })));

    let domains = |client: &str, group: &str| ClientDomainRoute {
        client: client.to_string(),
        domains: vec![DomainRoute { domain: "a.b".to_string(), group: group.to_string() }],
    };
    let cfg = Config { client_domain_routes: vec![domains("x", "default")], ..minimal_config() };
    assert!(matches!(cfg.validate(), Err(ConfigError::DomainRouteAddress { route: 0 })));

    let cfg = Config { client_domain_routes: vec![domains("::1", "gone")], ..minimal_config() };
    assert!(matches!(
        cfg.validate(),
        Err(ConfigError::DomainRouteGroup { route: 0, domain: 0 })
    ));

    let cfg = Config { listen: "here".to_string(), ..minimal_config() };
    assert!(matches!(cfg.validate(), Err(ConfigError::Listen)));

    let cfg = Config {
        port_forward: vec![forward("there", PortForwardProto::Tcp)],
        ..minimal_config()
    };
    assert!(matches!(cfg.validate(), Err(ConfigError::ForwardBind { forward: 0 })));

    assert!(minimal_config().validate().is_ok());
}

#[test]
fn servers_are_built_as_they_are_set() {
    let cfg = Config {
        upstream: vec![
            server("  a ", 1, 1.0),
            UpstreamConfig {
                groups: Some(vec!["x".to_string(), "y".to_string()]),
                ..server("b", 2, 2.0)
            },
            UpstreamConfig { groups: Some(vec![]), ..server("c", 3, 0.5) },
        ],
        upstream_switch_tolerance: 30,
        quic_weight: 55,
        ..minimal_config()
    };
    let set = cfg.build_upstream_set().unwrap();
    let ids: Vec<&str> = set.iter().iter().map(|u| u.id.as_str()).collect();
    assert_eq!(ids, vec!["a", "b", "c"]);
    assert_eq!(set.items[0].groups, vec!["default".to_string()]);
    assert_eq!(set.items[1].groups, vec!["x".to_string(), "y".to_string()]);
    assert!(set.items[2].groups.is_empty());
    assert_eq!(set.items[1].addr, addr([127, 0, 0, 1], 2));
    assert_eq!(set.items[1].gain_bits, 2.0f64.to_bits());
    assert_eq!(set.items[2].quic_weight, 55);
    assert_eq!(set.tolerance, 30);
}

#[test]
fn geosite_tags_are_normalized() {
    let mut cfg = Config {
        proxy_geosite_tags: vec![" GeoSite:GFW ".to_string(), "Netflix".to_string()],
        direct_geosite_tags: vec!["geosite:CN".to_string()],
        ..minimal_config()
    };
    cfg.normalize_geosite_tags();
    assert_eq!(cfg.proxy_geosite_tags, vec!["gfw".to_string(), "netflix".to_string()]);
    assert_eq!(cfg.direct_geosite_tags, vec!["cn".to_string()]);
}

#[test]
fn defaults_are_as_documented() {
    assert_eq!(default_listen(), "[::]:10810");
    assert_eq!(default_direct_countries(), vec!["CN".to_string()]);
    assert_eq!(default_connect_timeout_secs(), 20);
    assert_eq!(default_quic_weight(), 70);
    assert_eq!(default_route_cache_ttl_secs(), 5);
    assert_eq!(default_route_cache_max(), 4096);
}
