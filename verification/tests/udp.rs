use xtp_rs::cli::{Config, ProxyMode, QuicSniffMode, UpstreamConfig, GAIN_ONE};
use xtp_rs::net::{IpAddr, Ipv4Addr, Ipv6Addr, SocketAddr};
use xtp_rs::sniff::quic::QuicSniUdpSniffer;
use xtp_rs::sniff::udp::UdpSnifferEngine;
use xtp_rs::state::{AppState, BuildInputs};
use xtp_rs::udp::fake::{FakeLookup, FakeUdpKey, FakeUdpManager};
use xtp_rs::udp::pending::{
    enforce_pending_udp_sniff_capacity, flush_pending_udp_sniff, handle_new_udp_sniff,
    handle_pending_udp_sniff, reap_is_due, reap_pending_udp_sniff, PendingReplayBuffer,
    PendingSniffMap, PendingUdpSniff, UDP_SNIFF_MAX_CACHED_BYTES, UDP_SNIFF_MAX_CACHED_DATAGRAMS,
    UDP_SNIFF_MAX_PENDING_SESSIONS,
};
use xtp_rs::udp::session::{
    addr_code, choose_udp_route, connected_udp_recv_result, frame_for_server, key_code,
    pick_udp_server, reply_from_server, send_result, socket_event, RecvStep, SocketEvent,
    UdpReplyPath, UdpRoute, UdpRoutingMode, UdpSessionKind, UdpSessionSpec,
};
use xtp_rs::udp::{
    handle_udp_client_payload, idle_deadline, BeginSession, MadeSession, UdpHandling, UdpRuntime,
    NO_DEADLINE_MS,
};

fn ip(text: &str) -> IpAddr {
    match text.parse::<core::net::IpAddr>().unwrap() {
        core::net::IpAddr::V4(a) => IpAddr::V4(Ipv4Addr { bits: a.to_bits() }),
        core::net::IpAddr::V6(a) => IpAddr::V6(Ipv6Addr { bits: a.to_bits() }),
    }
}

fn at(text: &str, port: u16) -> SocketAddr {
    SocketAddr::new(ip(text), port)
}

fn create_test_config() -> Config {
    Config {
        listen: "[::]:10810".into(),
        udp: true,
        socks5_user: None,
        socks5_password: None,
        fwmark: 2,
        mmdb_path: None,
        udp_session_timeout_secs: 60,
        udp_session_idle_timeout_secs: 0,
        connect_timeout_secs: 20,
        half_close_timeout: 0,
        splice: false,
        sniff_tls_sni: false,
        sniff_http_host: false,
        sniff_quic_sni: false,
        quic_sniff_mode: QuicSniffMode::Full,
        quic_sniff_pending_timeout_ms: 200,
        tcp_peek_buffer_size: 32 * 1024,
        tls_sniff_peek_len: 2048,
        tls_sniff_max_len: 32 * 1024,
        tls_sniff_max_retries: 5,
        tls_sniff_wait_more_ms: 100,
        tls_sniff_timeout_ms: 1000,
        http_sniff_peek_len: 512,
        http_sniff_max_len: 16 * 1024,
        http_sniff_max_retries: 5,
        http_sniff_wait_more_ms: 100,
        http_sniff_timeout_ms: 1000,
        log_level: None,
        direct_countries: vec![],
        force_direct_ips: vec![],
        force_socks5_ips: vec![],
        force_direct_ips_file: None,
        force_socks5_ips_file: None,
        force_direct_domains: vec![],
        force_socks5_domains: vec![],
        port_forward: vec![],
        direct_local_ip: true,
        upstream: vec![UpstreamConfig {
            id: "test".into(),
            addr: SocketAddr::new(ip("127.0.0.1"), 1080),
            groups: None,
            gain_bits: GAIN_ONE,
        }],
        disable_upstream_score: false,
        upstream_switch_tolerance: 0,
        health_check_interval_secs: 0,
        health_check_timeout_secs: 5,
        health_check_fail_threshold: 2,
        health_check_url: "cp.cloudflare.com".into(),
        quic_weight: 70,
        proxy_mode: ProxyMode::default(),
        geosite_path: None,
        proxy_geosite_tags: vec![],
        direct_geosite_tags: vec![],
        client_routes: vec![],
        client_domain_routes: vec![],
        route_cache_ttl_secs: 5,
        route_cache_max: 4096,
    }
}

fn build(config: Config) -> AppState {
    let inputs =
        BuildInputs { mmdb: None, force_direct_ips: None, force_socks5_ips: None, geosite: None };
    AppState::build(config, String::new(), inputs).unwrap()
}

/// The start of an Initial packet: more of it is needed to say anything.
const BEGINNING: &[u8] = &[0xc0, 0, 0];

#[test]
fn replay_buffer_starts_with_one_datagram() {
    let buf = PendingReplayBuffer::new(b"hello");
    assert_eq!(buf.datagram_count(), 1);
    assert_eq!(buf.cached_bytes(), 5);
}

#[test]
fn push_within_limits() {
    let mut buf = PendingReplayBuffer::new(b"a");
    assert!(buf.push_datagram(b"b"));
    assert_eq!(buf.datagram_count(), 2);
}

#[test]
fn push_exceeds_count() {
    let mut buf = PendingReplayBuffer::new(b"a");
    for _ in 0..UDP_SNIFF_MAX_CACHED_DATAGRAMS - 1 {
        assert!(buf.push_datagram(b"x"));
    }
    assert!(!buf.push_datagram(b"overflow"));
}

#[test]
fn push_exceeds_bytes() {
    let big = vec![0u8; UDP_SNIFF_MAX_CACHED_BYTES];
    let mut buf = PendingReplayBuffer::new(&big[..]);
    assert!(!buf.push_datagram(b"x"));
}

#[test]
fn into_datagrams_preserves_order() {
    let mut buf = PendingReplayBuffer::new(b"first");
    buf.push_datagram(b"second");
    let datagrams = buf.into_datagrams();
    assert_eq!(datagrams, vec![b"first".to_vec(), b"second".to_vec()]);
}

const NOW: u64 = 1_000_000;

fn tproxy_spec() -> UdpSessionSpec {
    UdpSessionSpec::for_tproxy(at("127.0.0.1", 1000), at("10.0.0.1", 443))
}

fn mk_pending(spec: UdpSessionSpec, payload: &[u8]) -> PendingUdpSniff {
    PendingUdpSniff::new(spec, QuicSniUdpSniffer.new_session(), payload, 5000, NOW)
}

#[test]
fn pending_sniff_expired() {
    let mut pending = mk_pending(tproxy_spec(), b"data");
    pending.deadline_ms = NOW - 1000;
    assert!(pending.expired(NOW));
}

#[test]
fn pending_sniff_not_expired() {
    let pending = mk_pending(tproxy_spec(), b"data");
    assert!(!pending.expired(NOW));
    assert!(!pending.expired(NOW + 4999));
    assert!(pending.expired(NOW + 5000));
}

#[test]
fn no_clue_requires_two_attempts() {
    let mut pending = mk_pending(tproxy_spec(), b"data");
    assert!(!pending.record_no_clue());
    assert!(pending.record_no_clue());
}

fn numbered(port: usize) -> UdpSessionSpec {
    UdpSessionSpec::for_tproxy(at("127.0.0.1", port as u16), at("10.0.0.1", 443))
}

#[test]
fn enforce_removes_oldest_when_over_capacity() {
    let mut map = PendingSniffMap::new();
    let total = UDP_SNIFF_MAX_PENDING_SESSIONS + 2;
    for i in 0..total {
        let mut pending = mk_pending(numbered(1000 + i), b"x");
        pending.deadline_ms = NOW + i as u64 * 1000;
        map.insert(pending);
    }
    let evicted = enforce_pending_udp_sniff_capacity(&mut map);
    assert!(map.len() <= UDP_SNIFF_MAX_PENDING_SESSIONS);
    assert!(!map.contains_key(numbered(1000).key));
    assert_eq!(evicted.len(), 2);
    for d in &evicted {
        assert!(d.spec.sniffed_host.is_none());
        assert_eq!(d.datagrams, vec![b"x".to_vec()]);
    }
}

#[test]
fn pending_sniff_created_with_none_host() {
    let pending = mk_pending(tproxy_spec(), b"data");
    assert!(pending.spec.sniffed_host.is_none());
}

#[test]
fn pending_sniff_host_set_on_match() {
    let mut pending = mk_pending(tproxy_spec(), b"data");
    pending.spec.sniffed_host = Some("example.com".to_string());
    assert_eq!(pending.spec.sniffed_host.as_deref(), Some("example.com"));
    let delivery = flush_pending_udp_sniff(pending);
    assert_eq!(delivery.spec.host(), Some("example.com"));
    assert_eq!(delivery.datagrams, vec![b"data".to_vec()]);
}

#[test]
fn pending_sniff_host_none_on_expire() {
    let mut pending = mk_pending(tproxy_spec(), b"data");
    pending.deadline_ms = NOW - 1000;
    assert!(pending.expired(NOW));
    assert!(pending.spec.sniffed_host.is_none());
}

#[test]
fn enforce_keeps_newer_items() {
    let mut map = PendingSniffMap::new();
    let total = UDP_SNIFF_MAX_PENDING_SESSIONS + 3;
    for i in 0..total {
        let mut pending = mk_pending(numbered(2000 + i), b"x");
        pending.deadline_ms = NOW + i as u64 * 1000;
        map.insert(pending);
    }
    enforce_pending_udp_sniff_capacity(&mut map);
    assert!(map.contains_key(numbered(2000 + total - 1).key), "newest item should remain");
    assert!(!map.contains_key(numbered(2000).key), "oldest item should be evicted");
    assert!(map.contains_key(numbered(2003).key));
}

#[test]
fn for_tproxy_sets_correct_fields() {
    let client = at("10.0.0.2", 12345);
    let orig_dst = at("1.2.3.4", 443);
    let spec = UdpSessionSpec::for_tproxy(client, orig_dst);
    assert_eq!(spec.key.client_addr, client);
    assert_eq!(spec.key.target_addr, orig_dst);
    assert!(matches!(spec.key.kind, UdpSessionKind::Tproxy));
    assert!(matches!(spec.routing, UdpRoutingMode::Auto));
    assert!(matches!(spec.reply_path, UdpReplyPath::Tproxy));
    assert!(spec.sniffed_host.is_none());
}

fn forward_spec() -> UdpSessionSpec {
    UdpSessionSpec::for_port_forward(at("127.0.0.1", 5353), at("127.0.0.1", 12345), at("8.8.8.8", 53))
}

#[test]
fn for_port_forward_sets_correct_fields() {
    let listen = at("127.0.0.1", 5353);
    let spec = forward_spec();
    assert_eq!(spec.key.client_addr, at("127.0.0.1", 12345));
    assert_eq!(spec.key.target_addr, at("8.8.8.8", 53));
    assert!(matches!(
        spec.key.kind,
        UdpSessionKind::PortForward { listen_addr } if listen_addr == listen
    ));
    assert!(matches!(spec.routing, UdpRoutingMode::ForceSocks5));
    assert!(matches!(spec.reply_path, UdpReplyPath::PortForward));
}

fn fake_key(port: u16) -> FakeUdpKey {
    FakeUdpKey { src_addr: at("127.0.0.1", port), fwmark: 0 }
}

#[test]
fn same_key_returns_same_socket() {
    let mut mgr = FakeUdpManager::new();
    let key = fake_key(10000);
    assert_eq!(mgr.keep(key, 1, 100), Some(1));
    assert_eq!(mgr.lookup(key, 100), FakeLookup::Found(1));
    assert_eq!(mgr.lookup(key, 100), FakeLookup::Found(1));
}

#[test]
fn different_keys_return_different_sockets() {
    let mut mgr = FakeUdpManager::new();
    mgr.keep(fake_key(10001), 1, 100);
    mgr.keep(fake_key(10002), 2, 100);
    assert_eq!(mgr.lookup(fake_key(10001), 100), FakeLookup::Found(1));
    assert_eq!(mgr.lookup(fake_key(10002), 100), FakeLookup::Found(2));
    let marked = FakeUdpKey { fwmark: 7, ..fake_key(10001) };
    assert_eq!(mgr.lookup(marked, 100), FakeLookup::Make);
}

#[test]
fn entry_or_insert_reuses_existing() {
    let mut mgr = FakeUdpManager::new();
    let key = fake_key(10003);
    assert_eq!(mgr.keep(key, 1, 100), Some(1));
    assert_eq!(mgr.keep(key, 2, 101), Some(1));
}

#[test]
fn cleanup_keeps_fresh_entries() {
    let mut mgr = FakeUdpManager::new();
    let key = fake_key(10004);
    mgr.keep(key, 1, 1000);
    assert_eq!(mgr.cleanup_expired(1000, 600), Vec::<u64>::new());
    assert_eq!(mgr.lookup(key, 1000), FakeLookup::Found(1));
}

#[test]
fn cleanup_removes_expired_entries() {
    let mut mgr = FakeUdpManager::new();
    let key = fake_key(10005);
    mgr.keep(key, 1, 1);
    mgr.keep(fake_key(10009), 3, 1000);
    assert_eq!(mgr.cleanup_expired(1000, 10), vec![1]);
    assert_eq!(mgr.lookup(key, 1000), FakeLookup::Make);
    assert_eq!(mgr.keep(key, 2, 1000), Some(2));
    assert_eq!(mgr.lookup(fake_key(10009), 1000), FakeLookup::Found(3));
}

#[test]
fn close_clears_all() {
    let mut mgr = FakeUdpManager::new();
    mgr.keep(fake_key(10006), 1, 100);
    assert_eq!(mgr.sockets.len(), 1);
    mgr.close();
    assert!(mgr.closed);
    assert!(mgr.sockets.is_empty());
}

#[test]
fn close_sets_closed_flag() {
    let mut mgr = FakeUdpManager::new();
    assert!(!mgr.closed);
    mgr.close();
    assert!(mgr.closed);
}

#[test]
fn get_or_create_fails_after_close() {
    let mut mgr = FakeUdpManager::new();
    mgr.close();
    assert_eq!(mgr.lookup(fake_key(10007), 100), FakeLookup::Closed);
    assert_eq!(mgr.keep(fake_key(10007), 1, 100), None);
}

#[test]
fn codes_of_keys_differ() {
    assert_ne!(addr_code(at("1.2.3.4", 5)), addr_code(at("::102:304", 5)));
    let a = tproxy_spec().key;
    let b = UdpSessionSpec::for_port_forward(at("127.0.0.1", 1), a.client_addr, a.target_addr).key;
    assert_ne!(key_code(a), key_code(b));
    assert_eq!(key_code(a), key_code(tproxy_spec().key));
}

fn quic_state(mode: QuicSniffMode) -> AppState {
    build(Config { sniff_quic_sni: true, quic_sniff_mode: mode, ..create_test_config() })
}

#[test]
fn a_flow_waits_for_its_name() {
    let mut state = quic_state(QuicSniffMode::Full);
    let mut map = PendingSniffMap::new();
    let spec = tproxy_spec();
    let out = handle_new_udp_sniff(&mut state, &mut map, &spec, BEGINNING, NOW).unwrap();
    assert!(out.is_empty());
    assert!(map.contains_key(spec.key));
    let out = handle_pending_udp_sniff(&mut map, &spec, BEGINNING, NOW + 1).unwrap();
    assert!(out.is_empty());
    let out = handle_pending_udp_sniff(&mut map, &spec, b"last", NOW + 200).unwrap();
    assert!(!map.contains_key(spec.key));
    let sent: Vec<Vec<u8>> = out.into_iter().flat_map(|d| d.datagrams).collect();
    assert_eq!(sent, vec![BEGINNING.to_vec(), BEGINNING.to_vec(), b"last".to_vec()]);
    assert!(handle_pending_udp_sniff(&mut map, &spec, b"x", NOW).is_none());
}

#[test]
fn other_modes_do_not_wait() {
    let mut state = quic_state(QuicSniffMode::BestEffort);
    let mut map = PendingSniffMap::new();
    let out = handle_new_udp_sniff(&mut state, &mut map, &tproxy_spec(), BEGINNING, NOW).unwrap();
    assert_eq!(out.len(), 1);
    assert_eq!(map.len(), 0);
    assert!(handle_new_udp_sniff(&mut state, &mut map, &tproxy_spec(), b"dns", NOW).is_none());
}

#[test]
fn what_waited_too_long_is_sent() {
    let mut map = PendingSniffMap::new();
    map.insert(mk_pending(numbered(1), b"old"));
    let mut late = mk_pending(numbered(2), b"new");
    late.deadline_ms = NOW + 9000;
    map.insert(late);
    assert!(reap_pending_udp_sniff(&mut map, NOW).is_empty());
    let out = reap_pending_udp_sniff(&mut map, NOW + 5000);
    assert_eq!(out.len(), 1);
    assert_eq!(out[0].datagrams, vec![b"old".to_vec()]);
    assert!(map.contains_key(numbered(2).key));
    assert!(map.remove(numbered(2).key).is_some());
    assert!(map.remove(numbered(2).key).is_none());
    assert!(reap_is_due(QuicSniffMode::Full, 0, 100));
    assert!(!reap_is_due(QuicSniffMode::Off, 0, 999));
}

#[test]
fn datagrams_find_their_session() {
    let mut state = quic_state(QuicSniffMode::Full);
    let mut runtime = UdpRuntime::new(60);
    let mut map = PendingSniffMap::new();
    let spec = tproxy_spec();
    match handle_udp_client_payload(&mut state, &runtime, &mut map, &spec, b"dns", NOW) {
        UdpHandling::Send(out) => {
            assert_eq!(out.len(), 1);
            assert_eq!(out[0].datagrams, vec![b"dns".to_vec()]);
        }
        _ => panic!("not sent"),
    }
    runtime.begin(spec.key);
    runtime.finish(spec.key, Some(MadeSession { id: 4, last_seen_secs: 1, cancelled: false }));
    map.insert(mk_pending(tproxy_spec(), b"x"));
    assert!(matches!(
        handle_udp_client_payload(&mut state, &runtime, &mut map, &spec, b"dns", NOW),
        UdpHandling::ToSession(4)
    ));
    assert_eq!(map.len(), 0);
    runtime.close();
    assert!(matches!(
        handle_udp_client_payload(&mut state, &runtime, &mut map, &spec, b"dns", NOW),
        UdpHandling::Ignore
    ));
}

#[test]
fn a_session_being_made_is_not_sniffed_again() {
    let mut state = quic_state(QuicSniffMode::Full);
    let mut runtime = UdpRuntime::new(60);
    let mut map = PendingSniffMap::new();
    let spec = tproxy_spec();
    assert!(!runtime.is_being_made(spec.key));
    runtime.begin(spec.key);
    assert!(runtime.is_being_made(spec.key));
    match handle_udp_client_payload(&mut state, &runtime, &mut map, &spec, &[0xc0, 0, 0, 0, 1], NOW) {
        UdpHandling::Send(out) => {
            assert_eq!(out.len(), 1);
            assert_eq!(out[0].spec.sniffed_host, None);
            assert_eq!(out[0].datagrams, vec![vec![0xc0, 0, 0, 0, 1]]);
        }
        _ => panic!("not sent"),
    }
    assert_eq!(map.len(), 0);
    runtime.finish(spec.key, None);
    assert!(!runtime.is_being_made(spec.key));
}

#[test]
fn one_of_many_makes_the_session() {
    let mut runtime = UdpRuntime::new(60);
    let key = tproxy_spec().key;
    assert_eq!(runtime.begin(key), BeginSession::Create);
    assert_eq!(runtime.begin(key), BeginSession::Wait);
    assert!(!runtime.finish(key, None));
    assert_eq!(runtime.begin(key), BeginSession::Create);
    let made = MadeSession { id: 9, last_seen_secs: 100, cancelled: false };
    assert!(!runtime.finish(key, Some(MadeSession { cancelled: true, ..made })));
    assert_eq!(runtime.begin(key), BeginSession::Create);
    assert!(runtime.finish(key, Some(made)));
    assert_eq!(runtime.begin(key), BeginSession::Reuse(9));
    assert_eq!(runtime.get_ready_udp_session(key), Some(9));
    runtime.remove_if_current(key, 8);
    assert_eq!(runtime.get_ready_udp_session(key), Some(9));
    runtime.touch(key, 9, 150);
    assert_eq!(runtime.cleanup_expired_sessions(209), Vec::<u64>::new());
    assert_eq!(runtime.cleanup_expired_sessions(211), vec![9]);
    assert_eq!(runtime.get_ready_udp_session(key), None);
    runtime.begin(key);
    runtime.finish(key, Some(made));
    assert_eq!(runtime.close(), vec![9]);
    assert_eq!(runtime.begin(key), BeginSession::Closed);
}

#[test]
fn sessions_are_routed_and_framed() {
    let mut state = build(Config {
        force_direct_ips: vec!["10.0.0.1".to_string(), "8.8.8.8".to_string()],
        ..create_test_config()
    });
    assert_eq!(choose_udp_route(&mut state, &tproxy_spec()), UdpRoute::Direct);
    assert_eq!(choose_udp_route(&mut state, &forward_spec()), UdpRoute::Socks5);
    assert_eq!(pick_udp_server(&mut state, &forward_spec(), &[150]), Some(0));

    let packet = frame_for_server(&tproxy_spec(), b"q").unwrap();
    assert_eq!(packet, vec![0, 0, 0, 1, 10, 0, 0, 1, 1, 187, b'q']);
    let mut named = tproxy_spec();
    named.sniffed_host = Some("ab".to_string());
    assert_eq!(&frame_for_server(&named, b"q").unwrap()[..7], &[0, 0, 0, 3, 2, b'a', b'b']);
    named.sniffed_host = Some("a".repeat(256));
    assert!(frame_for_server(&named, b"q").is_none());

    let reply = reply_from_server(&forward_spec(), &[0, 0, 0, 1, 9, 9, 9, 9, 0, 53, b'r']).unwrap();
    assert_eq!((reply.src, reply.payload), (at("9.9.9.9", 53), b"r".to_vec()));
    let reply = reply_from_server(&tproxy_spec(), &[0, 0, 0, 1, 9, 9, 9, 9, 0, 53, b'r']).unwrap();
    assert_eq!(reply.src, at("10.0.0.1", 443));
    assert!(reply_from_server(&tproxy_spec(), &[0, 0]).is_none());
}

#[test]
fn socket_results_are_told_apart() {
    let big = Err(Some(libc::EMSGSIZE));
    assert_eq!(socket_event(Ok(5), libc::EMSGSIZE), SocketEvent::Bytes(5));
    assert_eq!(socket_event(big, libc::EMSGSIZE), SocketEvent::TooBig);
    assert_eq!(socket_event(Err(None), libc::EMSGSIZE), SocketEvent::Failure);
    assert_eq!(connected_udp_recv_result(SocketEvent::Bytes(5)), RecvStep::Handle(5));
    assert_eq!(connected_udp_recv_result(SocketEvent::TooBig), RecvStep::Skip);
    assert_eq!(connected_udp_recv_result(SocketEvent::Failure), RecvStep::Stop);
    assert_eq!(send_result(SocketEvent::Bytes(5)), Some(5));
    assert_eq!(send_result(SocketEvent::Failure), None);
}

#[test]
fn idle_sessions_have_a_deadline() {
    assert_eq!(idle_deadline(5, 0), None);
    assert_eq!(idle_deadline(5, 2), Some(2005));
    assert_eq!(idle_deadline(5, u64::MAX), Some(5 + NO_DEADLINE_MS));
}
