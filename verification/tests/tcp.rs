use xtp_rs::cli::{
    ClientDomainRoute, Config, DomainRoute, PortForward, PortForwardProto, ProxyMode,
    QuicSniffMode, UpstreamConfig, GAIN_ONE,
};
use xtp_rs::net::{IpAddr, Ipv4Addr, Ipv6Addr, SocketAddr};
use xtp_rs::sniff::{build_sniffers, build_udp_sniffers, Sniffer};
use xtp_rs::socket_factory::{tproxy_listen_addrs, Domain, ListenAddrs, SocketFactory};
use xtp_rs::startup::{
    add_forward, plan_port_forwards, task_plan, ForwardError, Startup, StartupAction, TaskPlan,
};
use xtp_rs::state::{AppState, BuildInputs};
use xtp_rs::tcp::{
    decide_tcp_upstream_target, GroupAttempt, ServerDial, TcpRoute, TcpUpstreamTarget,
};

fn ip(text: &str) -> IpAddr {
    match text.parse::<core::net::IpAddr>().unwrap() {
        core::net::IpAddr::V4(a) => IpAddr::V4(Ipv4Addr { bits: a.to_bits() }),
        core::net::IpAddr::V6(a) => IpAddr::V6(Ipv6Addr { bits: a.to_bits() }),
    }
}

fn at(text: &str, port: u16) -> SocketAddr {
    SocketAddr::new(ip(text), port)
}

fn create_test_config() -> Config {
    Config {
        listen: "[::]:10810".into(),
        udp: true,
        socks5_user: None,
        socks5_password: None,
        fwmark: 2,
        mmdb_path: None,
        udp_session_timeout_secs: 60,
        udp_session_idle_timeout_secs: 0,
        connect_timeout_secs: 20,
        half_close_timeout: 0,
        splice: false,
        sniff_tls_sni: false,
        sniff_http_host: false,
        sniff_quic_sni: false,
        quic_sniff_mode: QuicSniffMode::Full,
        quic_sniff_pending_timeout_ms: 200,
        tcp_peek_buffer_size: 32 * 1024,
        tls_sniff_peek_len: 2048,
        tls_sniff_max_len: 32 * 1024,
        tls_sniff_max_retries: 5,
        tls_sniff_wait_more_ms: 100,
        tls_sniff_timeout_ms: 1000,
        http_sniff_peek_len: 512,
        http_sniff_max_len: 16 * 1024,
        http_sniff_max_retries: 5,
        http_sniff_wait_more_ms: 100,
        http_sniff_timeout_ms: 1000,
        log_level: None,
        direct_countries: vec![],
        force_direct_ips: vec![],
        force_socks5_ips: vec![],
        force_direct_ips_file: None,
        force_socks5_ips_file: None,
        force_direct_domains: vec![],
        force_socks5_domains: vec![],
        port_forward: vec![],
        direct_local_ip: true,
        upstream: vec![UpstreamConfig {
            id: "test".into(),
            addr: SocketAddr::new(ip("127.0.0.1"), 1080),
            groups: None,
            gain_bits: GAIN_ONE,
        }],
        disable_upstream_score: false,
        upstream_switch_tolerance: 0,
        health_check_interval_secs: 0,
        health_check_timeout_secs: 5,
        health_check_fail_threshold: 2,
        health_check_url: "cp.cloudflare.com".into(),
        quic_weight: 70,
        proxy_mode: ProxyMode::default(),
        geosite_path: None,
        proxy_geosite_tags: vec![],
        direct_geosite_tags: vec![],
        client_routes: vec![],
        client_domain_routes: vec![],
        route_cache_ttl_secs: 5,
        route_cache_max: 4096,
    }
}

fn build(config: Config) -> AppState {
    let inputs =
        BuildInputs { mmdb: None, force_direct_ips: None, force_socks5_ips: None, geosite: None };
    AppState::build(config, String::new(), inputs).unwrap()
}

#[test]
fn decide_direct() {
    let dst = at("8.8.8.8", 443);
    let target = decide_tcp_upstream_target(dst, true, None);
    assert!(matches!(target, TcpUpstreamTarget::Direct(a) if a == dst));
}

#[test]
fn decide_socks5_ip() {
    let dst = at("8.8.8.8", 443);
    let target = decide_tcp_upstream_target(dst, false, None);
    assert!(matches!(target, TcpUpstreamTarget::Socks5Ip(a) if a == dst));
}

#[test]
fn decide_socks5_domain() {
    let dst = at("8.8.8.8", 443);
    let target = decide_tcp_upstream_target(dst, false, Some("example.com"));
    match target {
        TcpUpstreamTarget::Socks5Domain { host, port } => {
            assert_eq!(host, "example.com");
            assert_eq!(port, 443);
        }
        _ => panic!("expected Socks5Domain"),
    }
}

#[test]
fn decide_socks5_domain_keeps_orig_port() {
    let dst = at("1.2.3.4", 8080);
    let target = decide_tcp_upstream_target(dst, false, Some("foo.bar"));
    match target {
        TcpUpstreamTarget::Socks5Domain { host, port } => {
            assert_eq!(host, "foo.bar");
            assert_eq!(port, 8080);
        }
        _ => panic!("expected Socks5Domain"),
    }
}

#[test]
fn direct_addresses_take_the_fast_path() {
    let mut state = build(Config {
        force_direct_ips: vec!["9.9.9.9".to_string()],
        ..create_test_config()
    });
    let route = TcpRoute::first_look(&mut state, ip("10.0.0.1"), ip("9.9.9.9"));
    assert!(route.is_fast_path());
    assert!(!route.wants_sniff());
    let target = route.final_target(&mut state, at("9.9.9.9", 80), None);
    assert!(matches!(target, TcpUpstreamTarget::Direct(a) if a == at("9.9.9.9", 80)));

    let other = TcpRoute::first_look(&mut state, ip("10.0.0.1"), ip("8.8.8.8"));
    assert!(!other.is_fast_path());
}

#[test]
fn domains_can_change_the_route() {
    let mut state = build(Config {
        force_direct_domains: vec!["direct.example".to_string()],
        ..create_test_config()
    });
    let dst = at("8.8.8.8", 443);
    let route = TcpRoute::first_look(&mut state, ip("10.0.0.1"), dst.ip());
    assert!(route.wants_sniff());
    let target = route.final_target(&mut state, dst, Some("direct.example"));
    assert!(matches!(target, TcpUpstreamTarget::Direct(_)));
    let target = route.final_target(&mut state, dst, Some("other.example"));
    assert!(matches!(target, TcpUpstreamTarget::Socks5Domain { .. }));
}

fn server(id: &str, groups: &[&str]) -> UpstreamConfig {
    UpstreamConfig {
        id: id.to_string(),
        addr: at("127.0.0.1", 1080),
        groups: Some(groups.iter().map(|g| g.to_string()).collect()),
        gain_bits: GAIN_ONE,
    }
}

fn three_servers() -> Config {
    Config {
        upstream: vec![
            server("a", &["default"]),
            server("b", &["default"]),
            server("v", &["video"]),
        ],
        client_domain_routes: vec![ClientDomainRoute {
            client: "10.0.0.0/8".to_string(),
            domains: vec![DomainRoute { domain: ".tv".to_string(), group: "video".to_string() }],
        }],
        ..create_test_config()
    }
}

#[test]
fn each_server_of_a_group_is_tried_once() {
    let mut state = build(three_servers());
    let eff = [150u64, 150, 150];
    let mut attempt = GroupAttempt::new("default", None);
    let first = attempt.next(&mut state.upstreams, &eff).unwrap();
    attempt.note_failure(&mut state.upstreams, first, false, 10);
    let second = attempt.next(&mut state.upstreams, &eff).unwrap();
    assert_eq!(first + second, 1);
    assert_eq!(state.upstreams.items[first].score(), 100);
    attempt.note_failure(&mut state.upstreams, second, true, 10);
    assert_eq!(state.upstreams.items[second].score(), 150);
    assert_eq!(attempt.next(&mut state.upstreams, &eff), None);

    let mut without = GroupAttempt::new("default", Some("a"));
    assert_eq!(without.next(&mut state.upstreams, &eff), Some(1));
}

#[test]
fn a_server_that_worked_is_used_again() {
    let mut state = build(three_servers());
    let eff = [150u64, 150, 150];
    let (c, t) = (ip("10.0.0.1"), ip("8.8.8.8"));
    let mut dial = ServerDial::start(&state, c, t, Some("a.tv"), 10);
    assert_eq!(dial.attempt.group, "video");
    assert_eq!(dial.next(&mut state, &eff), Some(2));
    dial.note_success(&mut state, 2, 10);
    assert_eq!(state.get_cached_upstream(c, t, Some("a.tv"), 11), Some(2));

    let mut again = ServerDial::start(&state, c, t, Some("a.tv"), 11);
    assert_eq!(again.cached, Some(2));
    assert_eq!(again.next(&mut state, &eff), Some(2));
    again.note_failure(&mut state, 2, 11);
    assert_eq!(state.get_cached_upstream(c, t, Some("a.tv"), 12), None);
    let other = again.next(&mut state, &eff).unwrap();
    assert_eq!(again.attempt.group, "default");
    again.note_failure(&mut state, other, 11);
    assert_eq!(again.next(&mut state, &eff), Some(1 - other));
    again.note_failure(&mut state, 1 - other, 11);
    assert_eq!(again.next(&mut state, &eff), None);
}

fn forward(bind: &str, remote: &str, network: PortForwardProto) -> PortForward {
    PortForward {
        name: None,
        bind: bind.to_string(),
        remote: remote.to_string(),
        network,
    }
}

#[test]
fn forwards_become_tasks() {
    let config = Config {
        port_forward: vec![
            forward("127.0.0.1:53", "8.8.8.8:53", PortForwardProto::Both),
            forward("[::1]:80", "1.1.1.1:80", PortForwardProto::Udp),
        ],
        ..create_test_config()
    };
    let tasks = plan_port_forwards(&config).unwrap();
    let shapes: Vec<(bool, u16, u16, usize)> =
        tasks.iter().map(|t| (t.tcp, t.bind.port(), t.remote.port(), t.forward)).collect();
    assert_eq!(shapes, vec![(true, 53, 53, 0), (false, 53, 53, 0), (false, 80, 80, 1)]);

    let bad = Config {
        port_forward: vec![forward("127.0.0.1:53", "here", PortForwardProto::Tcp)],
        ..create_test_config()
    };
    assert_eq!(plan_port_forwards(&bad), Err(ForwardError::Remote { forward: 0 }));
    let mut none = Vec::new();
    assert_eq!(
        add_forward(&mut none, PortForwardProto::Tcp, None, Some(at("1.1.1.1", 1)), 3),
        Err(ForwardError::Bind { forward: 3 })
    );
}

#[test]
fn sockets_are_bound_before_tasks_start() {
    let mut s = Startup::new(2);
    assert_eq!(s.next(), StartupAction::Bind(0));
    s.on_bound(true);
    assert_eq!(s.next(), StartupAction::Bind(1));
    s.on_bound(true);
    assert_eq!(s.next(), StartupAction::Start(0));
    s.on_started();
    assert_eq!(s.next(), StartupAction::Start(1));
    s.on_started();
    assert_eq!(s.next(), StartupAction::Done);
    let mut failing = Startup::new(2);
    failing.on_bound(true);
    failing.on_bound(false);
    assert_eq!(failing.next(), StartupAction::Failed(1));
    assert_eq!(
        task_plan(&create_test_config()),
        TaskPlan { health_check: false, scores: true, udp: true }
    );
}

#[test]
fn sockets_have_their_options() {
    let f = SocketFactory::new();
    let v4 = at("1.2.3.4", 5);
    let v6 = at("::1", 5);
    assert_eq!(SocketFactory::domain_for(v4), Domain::Ipv4);
    assert_eq!(SocketFactory::domain_for(v6), Domain::Ipv6);
    let tproxy = f.tproxy_options(v6);
    assert!(tproxy.transparent && tproxy.reuse);
    assert_eq!(f.fake_udp_options(v4, 7).mark, Some(7));
    assert!(f.fake_udp_options(v4, 7).transparent);
    assert!(!f.outgoing_options(v4, 7).transparent);
    assert_eq!(f.outgoing_options(v4, 7).mark, Some(7));
    assert_eq!(f.forward_options(v4).mark, None);
    assert_eq!(
        tproxy_listen_addrs(ip("::"), 9),
        ListenAddrs { v4: Some(at("0.0.0.0", 9)), v6: Some(at("::", 9)) }
    );
    assert_eq!(
        tproxy_listen_addrs(ip("1.2.3.4"), 9),
        ListenAddrs { v4: Some(at("1.2.3.4", 9)), v6: None }
    );
}

#[test]
fn sniffers_are_built_as_they_are_set() {
    let config = Config {
        sniff_tls_sni: true,
        sniff_http_host: true,
        sniff_quic_sni: true,
        ..create_test_config()
    };
    let names: Vec<&str> = build_sniffers(&config).iter().map(|s| s.name()).collect();
    assert_eq!(names.len(), 2);
    assert_ne!(names[0], names[1]);
    assert_eq!(build_udp_sniffers(&config).len(), 1);
    assert_eq!(build_sniffers(&create_test_config()).len(), 0);
    assert_eq!(build_udp_sniffers(&create_test_config()).len(), 0);
}
