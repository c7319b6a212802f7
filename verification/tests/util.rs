use std::time::Duration;
use xtp_rs::net::{IpAddr, IpNet, Ipv4Addr, Ipv6Addr, SocketAddr};
use xtp_rs::util::{
    build_ip_tries, canonical_domain, count_copy_error, domain_matches_suffix, finish_relay,
    half_close_grace, hex_encode, is_anyhow_emsgsize, is_io_emsgsize, now_secs, parse_ip_net_list,
    parse_ip_or_cidr, relay_path, sum_traffic, tcp_relay_copy_errors,
    tcp_relay_half_close_timeouts, unspecified_addr_for, NetTextError, RelayCounters, RelayEnd,
    RelayPath, RelayStop, TcpInfoExt,
};

fn v4(a: u8, b: u8, c: u8, d: u8) -> Ipv4Addr {
    Ipv4Addr { bits: u32::from_be_bytes([a, b, c, d]) }
}

fn v6(text: &str) -> Ipv6Addr {
    let ip: core::net::Ipv6Addr = text.parse().unwrap();
    Ipv6Addr { bits: ip.to_bits() }
}

#[test]
fn parse_ip_and_cidr() {
    let list = vec!["1.2.3.4".to_string(), "10.0.0.0/8".to_string()];
    let nets = parse_ip_net_list(&list).unwrap();
    assert_eq!(nets.len(), 2);
    assert_eq!(nets[0], IpNet { addr: IpAddr::V4(v4(1, 2, 3, 4)), prefix_len: 32 });
    assert_eq!(nets[1], IpNet { addr: IpAddr::V4(v4(10, 0, 0, 0)), prefix_len: 8 });
}

#[test]
fn parse_empty_string_error() {
    let list = vec!["".to_string()];
    assert!(parse_ip_net_list(&list).is_err());
    let e = parse_ip_net_list(&["::1".to_string(), "  ".to_string()]).unwrap_err();
    assert_eq!((e.index, e.error), (1, NetTextError::Empty));
}

#[test]
fn parse_invalid() {
    let list = vec!["not_an_ip".to_string()];
    assert!(parse_ip_net_list(&list).is_err());
    assert_eq!(parse_ip_net_list(&list).unwrap_err().error, NetTextError::Invalid);
    assert!(parse_ip_net_list(&["10.0.0.0/33".to_string()]).is_err());
}

#[test]
fn build_and_lookup_v4() {
    let net = parse_ip_or_cidr("192.168.1.0/24").unwrap();
    let (tries, _) = build_ip_tries(&[net]).unwrap();
    assert!(tries.contains(v4(192, 168, 1, 55)));
    assert!(!tries.contains(v4(192, 168, 2, 1)));
}

#[test]
fn build_and_lookup_v6() {
    let net = parse_ip_or_cidr("2001:db8::/32").unwrap();
    let (_, tries) = build_ip_tries(&[net]).unwrap();
    assert!(tries.contains(v6("2001:db8::1")));
    assert!(!tries.contains(v6("2001:db9::1")));
}

#[test]
fn tries_cover_each_network() {
    let nets = parse_ip_net_list(&[
        "10.1.2.3/8".to_string(),
        "10.200.0.0/16".to_string(),
        "1.1.1.1".to_string(),
        "fd00::/8".to_string(),
        "::1".to_string(),
    ])
    .unwrap();
    let (t4, t6) = build_ip_tries(&nets).unwrap();
    assert!(t4.contains(v4(10, 0, 0, 1)));
    assert!(t4.contains(v4(10, 200, 9, 9)));
    assert!(t4.contains(v4(1, 1, 1, 1)));
    assert!(!t4.contains(v4(1, 1, 1, 2)));
    assert!(!t4.contains(v4(11, 0, 0, 1)));
    assert!(t6.contains(v6("fd12::1")));
    assert!(t6.contains(v6("::1")));
    assert!(!t6.contains(v6("::2")));
}

#[test]
fn white_space_around_entries_is_left_out() {
    let spaces = [
        0x9, 0xa, 0xb, 0xc, 0xd, 0x20, 0x85, 0xa0, 0x1680, 0x2000, 0x2001, 0x2002, 0x2003, 0x2004,
        0x2005, 0x2006, 0x2007, 0x2008, 0x2009, 0x200a, 0x2028, 0x2029, 0x202f, 0x205f, 0x3000,
    ];
    for n in 0..0x3100u32 {
        if let Some(c) = char::from_u32(n) {
            let entry = format!("{c}1.2.3.4{c}");
            let digit = c.is_ascii_digit();
            assert_eq!(parse_ip_net_list(&[entry]).is_ok() && !digit, spaces.contains(&n));
        }
    }
}

#[test]
fn network_of_all_addresses_covers_its_family() {
    let (t4, t6) = build_ip_tries(&[parse_ip_or_cidr("0.0.0.0/0").unwrap()]).unwrap();
    assert!(t4.contains(v4(8, 8, 8, 8)));
    assert!(t4.contains(v4(0, 0, 0, 0)));
    assert!(!t6.contains(v6("::1")));
    let (t4, t6) = build_ip_tries(&[parse_ip_or_cidr("::/0").unwrap()]).unwrap();
    assert!(!t4.contains(v4(8, 8, 8, 8)));
    assert!(t6.contains(v6("2001:db8::1")));
    let (t4, t6) = build_ip_tries(&[]).unwrap();
    assert!(!t4.contains(v4(8, 8, 8, 8)));
    assert!(!t6.contains(v6("::1")));
    let long = IpNet { addr: IpAddr::V4(v4(1, 2, 3, 4)), prefix_len: 33 };
    assert!(build_ip_tries(&[long]).is_none());
}

#[test]
fn hex_encode_works() {
    assert_eq!(hex_encode(&[0x00, 0xab, 0xff]), "00abff");
    assert_eq!(hex_encode(&[]), "");
}

#[test]
fn unspecified_v4() {
    let addr = SocketAddr::new(IpAddr::V4(v4(1, 2, 3, 4)), 80);
    let unspec = unspecified_addr_for(addr);
    assert_eq!(unspec, SocketAddr::new(IpAddr::V4(v4(0, 0, 0, 0)), 0));
}

#[test]
fn unspecified_v6() {
    let addr = SocketAddr::new(IpAddr::V6(v6("1:2:3:4:5:6:7:8")), 443);
    let unspec = unspecified_addr_for(addr);
    assert_eq!(unspec, SocketAddr::new(IpAddr::V6(v6("::")), 0));
}

#[test]
fn detects_emsgsize() {
    let e = std::io::Error::from_raw_os_error(libc::EMSGSIZE);
    assert!(is_io_emsgsize(e.raw_os_error(), libc::EMSGSIZE));
}

#[test]
fn non_emsgsize() {
    let e = std::io::Error::from_raw_os_error(libc::EINVAL);
    assert!(!is_io_emsgsize(e.raw_os_error(), libc::EMSGSIZE));
    assert!(!is_io_emsgsize(None, libc::EMSGSIZE));
}

#[test]
fn emsgsize_is_found_among_causes() {
    let codes = |e: &anyhow::Error| -> Vec<Option<i32>> {
        e.chain()
            .map(|c| c.downcast_ref::<std::io::Error>().and_then(|e| e.raw_os_error()))
            .collect()
    };
    let deep = anyhow::Error::from(std::io::Error::from_raw_os_error(libc::EMSGSIZE))
        .context("send")
        .context("reply");
    assert!(is_anyhow_emsgsize(&codes(&deep), libc::EMSGSIZE));
    let other = anyhow::Error::from(std::io::Error::from_raw_os_error(libc::EINVAL)).context("x");
    assert!(!is_anyhow_emsgsize(&codes(&other), libc::EMSGSIZE));
}

#[test]
fn now_secs_is_monotonic() {
    let t1 = now_secs();
    let t2 = now_secs();
    assert!(t2 >= t1);
    assert!(t1 > 1_600_000_000);
}

#[test]
fn half_close_grace_zero_disables_the_watchdog() {
    assert_eq!(half_close_grace(0), None);
}

#[test]
fn half_close_grace_positive_is_that_many_seconds() {
    assert_eq!(half_close_grace(1), Some(Duration::from_secs(1)));
    assert_eq!(half_close_grace(600), Some(Duration::from_secs(600)));
}

#[test]
fn test_domain_matches_suffix() {
    assert!(domain_matches_suffix("google.com", "google.com"));
    assert!(domain_matches_suffix("Google.Com", "google.com"));

    assert!(domain_matches_suffix("www.google.com", "google.com"));
    assert!(domain_matches_suffix("mail.www.google.com", "google.com"));
    assert!(domain_matches_suffix("a.b.c.d.google.com", "google.com"));

    assert!(!domain_matches_suffix("notgoogle.com", "google.com"));
    assert!(!domain_matches_suffix("fakegoogle.com", "google.com"));
    assert!(!domain_matches_suffix("google.com.cn", "google.com"));
    assert!(!domain_matches_suffix("com", "google.com"));

    assert!(domain_matches_suffix("google.com.", "google.com"));
    assert!(domain_matches_suffix("google.com", "google.com."));
    assert!(domain_matches_suffix("google.com.", "google.com."));
    assert!(domain_matches_suffix("www.google.com.", "google.com"));
    assert!(domain_matches_suffix("www.google.com", "google.com."));
    assert!(domain_matches_suffix("www.google.com.", "google.com."));

    assert!(!domain_matches_suffix("", "google.com"));
    assert!(!domain_matches_suffix("google.com", ""));
    assert!(domain_matches_suffix("", ""));
}

#[test]
fn test_canonical_domain_lowercase() {
    assert_eq!(canonical_domain("Example.COM"), "example.com");
}

#[test]
fn test_canonical_domain_leading_dot() {
    assert_eq!(canonical_domain(".example.com"), "example.com");
}

#[test]
fn test_canonical_domain_trailing_dot() {
    assert_eq!(canonical_domain("example.com."), "example.com");
}

#[test]
fn test_canonical_domain_both_dots_and_case() {
    assert_eq!(canonical_domain(".Example.COM."), "example.com");
}

#[test]
fn test_canonical_domain_empty() {
    assert_eq!(canonical_domain(""), "");
}

#[test]
fn test_canonical_domain_only_dot() {
    assert_eq!(canonical_domain("."), "");
}

#[test]
fn test_domain_matches_suffix_exact() {
    assert!(domain_matches_suffix("google.com", "google.com"));
}

#[test]
fn test_domain_matches_suffix_case_insensitive() {
    assert!(domain_matches_suffix("Google.Com", "google.com"));
}

#[test]
fn test_domain_matches_suffix_single_subdomain() {
    assert!(domain_matches_suffix("www.google.com", "google.com"));
}

#[test]
fn test_domain_matches_suffix_deep_subdomain() {
    assert!(domain_matches_suffix("a.b.c.google.com", "google.com"));
}

#[test]
fn test_domain_matches_suffix_not_a_subdomain_1() {
    assert!(!domain_matches_suffix("notgoogle.com", "google.com"));
}

#[test]
fn test_domain_matches_suffix_not_a_subdomain_2() {
    assert!(!domain_matches_suffix("fakegoogle.com", "google.com"));
}

#[test]
fn test_domain_matches_suffix_longer_tld() {
    assert!(!domain_matches_suffix("google.com.cn", "google.com"));
}

#[test]
fn test_domain_matches_suffix_shorter_domain() {
    assert!(!domain_matches_suffix("com", "google.com"));
}

#[test]
fn test_domain_matches_suffix_trailing_dot_domain() {
    assert!(domain_matches_suffix("google.com.", "google.com"));
}

#[test]
fn test_domain_matches_suffix_trailing_dot_suffix() {
    assert!(domain_matches_suffix("google.com", "google.com."));
}

#[test]
fn test_domain_matches_suffix_both_trailing_dots() {
    assert!(domain_matches_suffix("www.google.com.", "google.com."));
}

#[test]
fn test_domain_matches_suffix_empty_domain() {
    assert!(!domain_matches_suffix("", "google.com"));
}

#[test]
fn test_domain_matches_suffix_empty_suffix() {
    assert!(!domain_matches_suffix("google.com", ""));
}

#[test]
fn test_domain_matches_suffix_both_empty() {
    assert!(domain_matches_suffix("", ""));
}

#[test]
fn parse_ip_or_cidr_accepts_plain_ip() {
    let net = parse_ip_or_cidr("192.168.1.10").unwrap();
    assert_eq!(net, IpNet { addr: IpAddr::V4(v4(192, 168, 1, 10)), prefix_len: 32 });
    assert_eq!(net, parse_ip_or_cidr("192.168.1.10/32").unwrap());

    let net6 = parse_ip_or_cidr("2001:db8::1").unwrap();
    assert_eq!(net6, IpNet { addr: IpAddr::V6(v6("2001:db8::1")), prefix_len: 128 });
    assert_eq!(net6, parse_ip_or_cidr("2001:db8::1/128").unwrap());
}

#[test]
fn networks_have_their_addresses() {
    let net = parse_ip_or_cidr("172.16.5.4/12").unwrap();
    assert!(net.contains(IpAddr::V4(v4(172, 31, 255, 255))));
    assert!(!net.contains(IpAddr::V4(v4(172, 32, 0, 0))));
    assert!(!net.contains(IpAddr::V6(v6("::1"))));
}

#[test]
fn relays_end_as_they_stopped() {
    let mut counters = RelayCounters::new();
    assert_eq!(relay_path(true, 5), RelayPath::Splice);
    assert_eq!(relay_path(false, 0), RelayPath::Copy);
    let watched = relay_path(false, 7);
    assert_eq!(watched, RelayPath::WatchedCopy { grace_secs: 7 });

    let done = finish_relay(&mut counters, watched, RelayStop::Done { sent: 1, recv: 2 });
    assert_eq!(done.end, Some(RelayEnd::Finished { sent: 1, recv: 2 }));
    assert!(!done.reset);

    let silent = finish_relay(&mut counters, watched, RelayStop::Silent { quiet_secs: Some(9) });
    assert_eq!(silent.end, Some(RelayEnd::HalfCloseTimeout { silent_secs: 9 }));
    assert!(silent.reset);
    let silent = finish_relay(&mut counters, watched, RelayStop::Silent { quiet_secs: None });
    assert_eq!(silent.end, Some(RelayEnd::HalfCloseTimeout { silent_secs: 7 }));

    let failed = finish_relay(&mut counters, RelayPath::Copy, RelayStop::Failed);
    assert_eq!(failed.end, None);
    assert!(!failed.reset);
    finish_relay(&mut counters, RelayPath::Splice, RelayStop::Failed);
    assert_eq!(tcp_relay_half_close_timeouts(&counters), 2);
    assert_eq!(tcp_relay_copy_errors(&counters), 1);
    count_copy_error(&mut counters);
    assert_eq!(tcp_relay_copy_errors(&counters), 2);
}

fn info(received: u64, acked: u64) -> TcpInfoExt {
    TcpInfoExt {
        tcpi_state: 1,
        tcpi_ca_state: 0,
        tcpi_retransmits: 0,
        tcpi_probes: 0,
        tcpi_backoff: 0,
        tcpi_options: 0,
        tcpi_snd_rcv_wscale: 0,
        tcpi_delivery_rate_app_limited: 0,
        tcpi_rto: 0,
        tcpi_ato: 0,
        tcpi_snd_mss: 0,
        tcpi_rcv_mss: 0,
        tcpi_unacked: 0,
        tcpi_sacked: 0,
        tcpi_lost: 0,
        tcpi_retrans: 0,
        tcpi_fackets: 0,
        tcpi_last_data_sent: 0,
        tcpi_last_ack_sent: 0,
        tcpi_last_data_recv: 0,
        tcpi_last_ack_recv: 0,
        tcpi_pmtu: 0,
        tcpi_rcv_ssthresh: 0,
        tcpi_rtt: 0,
        tcpi_rttvar: 0,
        tcpi_snd_ssthresh: 0,
        tcpi_snd_cwnd: 0,
        tcpi_advmss: 0,
        tcpi_reordering: 0,
        tcpi_rcv_rtt: 0,
        tcpi_rcv_space: 0,
        tcpi_total_retrans: 0,
        tcpi_pacing_rate: 0,
        tcpi_max_pacing_rate: 0,
        tcpi_bytes_acked: acked,
        tcpi_bytes_received: received,
    }
}

#[test]
fn traffic_is_summed() {
    assert_eq!(sum_traffic(&[info(10, 1), info(20, 2), info(0, 3)]), (30, 6));
    assert_eq!(sum_traffic(&[]), (0, 0));
}
