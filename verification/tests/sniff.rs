use std::time::Duration;
use xtp_rs::net::{IpAddr, Ipv4Addr, SocketAddr};
use xtp_rs::sniff::http::{
    looks_like_http_1x_request_line, parse_http_host_header_value, sniff_http_host_from_prefix,
    HttpSniffError, HttpSniffer,
};
use xtp_rs::sniff::tls::{sniff_tls_sni_from_prefix, TlsSniffer};
use xtp_rs::sniff::tls_common::{
    be_u16, be_u24, parse_outer_sni_from_client_hello_body, parse_sni_from_client_hello_body,
    TlsSniffError,
};
use xtp_rs::sniff::{
    growth_step, is_valid_sni_hostname, should_retry_sniff, GrowthStep, SniffConfig, SniffRun,
    SniffStep, Sniffer,
};

#[test]
fn valid_hostname() {
    assert!(is_valid_sni_hostname("example.com"));
    assert!(is_valid_sni_hostname("EXAMPLE.com"));
    assert!(is_valid_sni_hostname("a-b.example"));
    assert!(is_valid_sni_hostname("localhost"));
}

#[test]
fn empty_or_too_long_hostname() {
    assert!(!is_valid_sni_hostname(""));
    let long = "a".repeat(254);
    assert!(!is_valid_sni_hostname(&long));
}

#[test]
fn leading_or_trailing_dot() {
    assert!(!is_valid_sni_hostname(".example.com"));
    assert!(!is_valid_sni_hostname("example.com."));
}

#[test]
fn double_dot() {
    assert!(!is_valid_sni_hostname("example..com"));
}

#[test]
fn label_start_or_end_with_dash() {
    assert!(!is_valid_sni_hostname("-example.com"));
    assert!(!is_valid_sni_hostname("example-.com"));
}

#[test]
fn non_ascii_or_underscore() {
    assert!(!is_valid_sni_hostname("exa_mple.com"));
    assert!(!is_valid_sni_hostname("例子.com"));
}

#[test]
fn pure_ipv4_form() {
    assert!(!is_valid_sni_hostname("127.0.0.1"));
    assert!(!is_valid_sni_hostname("192.168.1.1"));
}

#[test]
fn label_too_long() {
    let label = "a".repeat(64);
    let host = format!("{}.com", label);
    assert!(!is_valid_sni_hostname(&host));
}

#[test]
fn longest_hostnames_are_valid() {
    let label = "a".repeat(63);
    assert!(is_valid_sni_hostname(&format!("{}.com", label)));
    let full = format!("{}.{}.{}.{}", label, label, label, "b".repeat(61));
    assert_eq!(full.len(), 253);
    assert!(is_valid_sni_hostname(&full));
    assert!(is_valid_sni_hostname("1.2.3.4.com"));
}

#[test]
fn retry_when_attempt_below_max_and_data_grew() {
    let orig = SocketAddr::new(IpAddr::V4(Ipv4Addr { bits: 0x7f00_0001 }), 1234);
    assert!(should_retry_sniff("test", 0, 3, 100, 50, orig));
    assert!(!should_retry_sniff("test", 3, 3, 100, 50, orig));
    assert!(!should_retry_sniff("test", 0, 3, 0, 0, orig));
    assert!(!should_retry_sniff("test", 0, 3, 50, 100, orig));
}

#[test]
fn growth_is_awaited_in_short_steps() {
    assert_eq!(growth_step(11, 10, 0), GrowthStep::Grown);
    assert_eq!(growth_step(10, 10, 0), GrowthStep::TimedOut);
    assert_eq!(growth_step(10, 10, 3), GrowthStep::Sleep { ms: 3 });
    assert_eq!(growth_step(10, 10, 300), GrowthStep::Sleep { ms: 5 });
}

fn client_hello_body(sni: Option<&str>, ech: bool) -> Vec<u8> {
    let mut body = Vec::new();
    body.extend_from_slice(&[0x03, 0x03]);
    body.extend_from_slice(&[0u8; 32]);
    body.push(0);
    body.extend_from_slice(&[0x00, 0x02, 0x00, 0xff]);
    body.extend_from_slice(&[0x01, 0x00]);
    let mut exts = Vec::new();
    if let Some(host) = sni {
        let host_bytes = host.as_bytes();
        let name_len = host_bytes.len();
        let sni_list_len = 3 + name_len;
        let ext_data_len = 2 + sni_list_len;
        exts.extend_from_slice(&[0x00, 0x00]);
        exts.extend_from_slice(&(ext_data_len as u16).to_be_bytes());
        exts.extend_from_slice(&(sni_list_len as u16).to_be_bytes());
        exts.push(0x00);
        exts.extend_from_slice(&(name_len as u16).to_be_bytes());
        exts.extend_from_slice(host_bytes);
    }
    if ech {
        exts.extend_from_slice(&[0xfe, 0x0d]);
        exts.extend_from_slice(&[0x00, 0x00]);
    }
    if !exts.is_empty() {
        body.extend_from_slice(&(exts.len() as u16).to_be_bytes());
        body.extend_from_slice(&exts);
    }
    body
}

fn make_tls_record(content_type: u8, major: u8, minor: u8, payload: &[u8]) -> Vec<u8> {
    let mut rec = vec![content_type, major, minor];
    rec.extend_from_slice(&(payload.len() as u16).to_be_bytes());
    rec.extend_from_slice(payload);
    rec
}

fn handshake_of(body: &[u8]) -> Vec<u8> {
    let mut hs = vec![0x01];
    let len = body.len();
    hs.extend_from_slice(&[(len >> 16) as u8, (len >> 8) as u8, len as u8]);
    hs.extend_from_slice(body);
    hs
}

fn make_client_hello_handshake(host: &str) -> Vec<u8> {
    handshake_of(&client_hello_body(Some(host), false))
}

#[test]
fn new_clamps_zero_durations() {
    let s = TlsSniffer::new(512, 4096, 2, 0, 0);
    assert_eq!(s.wait_more_duration(), Duration::from_millis(1));
    assert_eq!(s.timeout_duration(), Duration::from_millis(1));
}

#[test]
fn getters_return_config() {
    let s = TlsSniffer::new(256, 8192, 3, 50, 200);
    assert_eq!(s.initial_peek_len(), 256);
    assert_eq!(s.max_peek_len(), 8192);
    assert_eq!(s.max_retries(), 3);
    assert_eq!(s.wait_more_duration(), Duration::from_millis(50));
    assert_eq!(s.timeout_duration(), Duration::from_millis(200));
}

#[test]
fn empty_buffer() {
    assert_eq!(sniff_tls_sni_from_prefix(&[], 4096), Err(TlsSniffError::PeekEmpty));
}

#[test]
fn first_byte_not_tls() {
    assert_eq!(
        sniff_tls_sni_from_prefix(&[0x15, 0x03, 0x03, 0x00, 0x00], 4096),
        Err(TlsSniffError::ProtocolNotMatched)
    );
}

#[test]
fn tls_major_not_03() {
    let rec = make_tls_record(0x16, 0x02, 0x03, b"hello");
    assert_eq!(sniff_tls_sni_from_prefix(&rec, 4096), Err(TlsSniffError::ProtocolNotMatched));
}

#[test]
fn record_length_zero() {
    let rec = vec![0x16, 0x03, 0x03, 0x00, 0x00];
    assert_eq!(sniff_tls_sni_from_prefix(&rec, 4096), Err(TlsSniffError::ProtocolNotMatched));
}

#[test]
fn insufficient_data() {
    let rec = vec![0x16, 0x03, 0x03, 0x00, 0x20, 0x01];
    assert_eq!(sniff_tls_sni_from_prefix(&rec, 4096), Err(TlsSniffError::InsufficientPrefix));
}

#[test]
fn valid_tls_sni() {
    let hs = make_client_hello_handshake("example.com");
    let rec = make_tls_record(0x16, 0x03, 0x03, &hs);
    let host = sniff_tls_sni_from_prefix(&rec, 4096).unwrap();
    assert_eq!(host, "example.com");
}

#[test]
fn client_hello_split_across_records() {
    let hs = make_client_hello_handshake("foobar.com");
    let mid = hs.len() / 2;
    let rec1 = make_tls_record(0x16, 0x03, 0x03, &hs[..mid]);
    let rec2 = make_tls_record(0x16, 0x03, 0x03, &hs[mid..]);
    let mut concat = rec1.clone();
    concat.extend_from_slice(&rec2);
    let host = sniff_tls_sni_from_prefix(&concat, 4096).unwrap();
    assert_eq!(host, "foobar.com");
}

#[test]
fn ech_leads_to_no_sni() {
    let hs = handshake_of(&client_hello_body(Some("example.com"), true));
    let rec = make_tls_record(0x16, 0x03, 0x03, &hs);
    let result = sniff_tls_sni_from_prefix(&rec, 4096);
    assert_eq!(result.unwrap(), "example.com");
}

#[test]
fn incomplete_record_header() {
    assert_eq!(
        sniff_tls_sni_from_prefix(&[0x16, 0x03], 4096),
        Err(TlsSniffError::InsufficientPrefix)
    );
}

#[test]
fn handshake_not_client_hello() {
    let hs = vec![0x02, 0x00, 0x00, 0x00];
    let rec = make_tls_record(0x16, 0x03, 0x03, &hs);
    assert_eq!(sniff_tls_sni_from_prefix(&rec, 4096), Err(TlsSniffError::ProtocolNotMatched));
}

#[test]
fn client_hello_exceeds_max_size() {
    let hs = make_client_hello_handshake("example.com");
    let rec = make_tls_record(0x16, 0x03, 0x03, &hs);
    assert_eq!(sniff_tls_sni_from_prefix(&rec, 10), Err(TlsSniffError::TooLargeClientHello));
}

#[test]
fn record_length_exceeds_max_tls_record_payload() {
    let mut rec = vec![0x16, 0x03, 0x03];
    rec.extend_from_slice(&(19_000u16).to_be_bytes());
    rec.resize(5 + 1, 0);
    assert_eq!(sniff_tls_sni_from_prefix(&rec, 4096), Err(TlsSniffError::ProtocolNotMatched));
}

#[test]
fn tls_answers_do_not_change_with_more_bytes() {
    let hs = make_client_hello_handshake("Example.org");
    let mut rec = make_tls_record(0x16, 0x03, 0x01, &hs);
    for n in 1..rec.len() {
        assert_eq!(
            sniff_tls_sni_from_prefix(&rec[..n], 4096),
            Err(TlsSniffError::InsufficientPrefix),
            "{} bytes",
            n
        );
    }
    assert_eq!(sniff_tls_sni_from_prefix(&rec, 4096).unwrap(), "example.org");
    rec.extend_from_slice(&[0x17, 0x03, 0x03, 0x00, 0x01, 0x00]);
    assert_eq!(sniff_tls_sni_from_prefix(&rec, 4096).unwrap(), "example.org");
}

#[test]
fn be_u16_works() {
    assert_eq!(be_u16(&[0x12, 0x34]).unwrap(), 0x1234);
    assert!(be_u16(&[0x12]).is_err());
}

#[test]
fn be_u24_works() {
    assert_eq!(be_u24(&[0x01, 0x02, 0x03]).unwrap(), 0x010203);
    assert!(be_u24(&[0x01, 0x02]).is_err());
}

#[test]
fn parse_sni_valid() {
    let body = client_hello_body(Some("example.com"), false);
    let host = parse_sni_from_client_hello_body(&body).unwrap();
    assert_eq!(host, "example.com");
}

#[test]
fn sni_lowercase() {
    let body = client_hello_body(Some("EXAMPLE.COM"), false);
    let host = parse_sni_from_client_hello_body(&body).unwrap();
    assert_eq!(host, "example.com");
}

#[test]
fn no_extensions() {
    let mut body = Vec::new();
    body.extend_from_slice(&[0x03, 0x03]);
    body.extend_from_slice(&[0u8; 32]);
    body.push(0);
    body.extend_from_slice(&[0x00, 0x02, 0x00, 0xff]);
    body.extend_from_slice(&[0x01, 0x00]);
    assert_eq!(parse_sni_from_client_hello_body(&body), Err(TlsSniffError::TlsNoSni));
}

#[test]
fn ech_returns_no_sni_even_with_outer_sni() {
    let body = client_hello_body(Some("example.com"), true);
    assert_eq!(parse_sni_from_client_hello_body(&body), Err(TlsSniffError::TlsNoSni));
    assert_eq!(parse_outer_sni_from_client_hello_body(&body).unwrap(), "example.com");
}

#[test]
fn invalid_sni_hostname() {
    let body = client_hello_body(Some(""), false);
    assert!(matches!(
        parse_sni_from_client_hello_body(&body),
        Err(TlsSniffError::InvalidHostname)
    ));
}

#[test]
fn invalid_utf8_sni() {
    let mut body = client_hello_body(Some("example.com"), false);
    let pos = body.windows(b"example.com".len()).position(|w| w == b"example.com").unwrap();
    body[pos] = 0xff;
    assert_eq!(parse_sni_from_client_hello_body(&body), Err(TlsSniffError::InvalidHostname));
}

#[test]
fn cipher_suites_odd_length() {
    let mut bad = vec![0x03, 0x03];
    bad.extend_from_slice(&[0u8; 32]);
    bad.push(0);
    bad.extend_from_slice(&[0x00, 0x03]);
    bad.extend_from_slice(&[0x00, 0xff, 0x00]);
    bad.extend_from_slice(&[0x01, 0x00]);
    assert_eq!(parse_sni_from_client_hello_body(&bad), Err(TlsSniffError::ParseError));
}

#[test]
fn compression_methods_len_zero() {
    let mut body = vec![0x03, 0x03];
    body.extend_from_slice(&[0u8; 32]);
    body.push(0);
    body.extend_from_slice(&[0x00, 0x02, 0x00, 0xff]);
    body.extend_from_slice(&[0x00]);
    assert_eq!(parse_sni_from_client_hello_body(&body), Err(TlsSniffError::ParseError));
}

#[test]
fn sni_list_length_mismatch() {
    let mut body = client_hello_body(Some("example.com"), false);
    let pos = body.windows(b"example.com".len()).position(|w| w == b"example.com").unwrap();
    let list_len_pos = pos - 5;
    body[list_len_pos] = 0x00;
    body[list_len_pos + 1] = 0x01;
    assert_eq!(parse_sni_from_client_hello_body(&body), Err(TlsSniffError::ParseError));
}

#[test]
fn http_host_is_found() {
    let req = b"GET /index HTTP/1.1\r\nUser-Agent: x\r\nhOsT:  Example.COM:8080 \r\n\r\nbody";
    assert_eq!(sniff_http_host_from_prefix(req, 4096).unwrap(), "example.com");
}

#[test]
fn request_lines_and_host_values() {
    assert!(looks_like_http_1x_request_line("GET / HTTP/1.0"));
    assert!(!looks_like_http_1x_request_line("GET / HTTP/2"));
    assert!(!looks_like_http_1x_request_line("get / HTTP/1.1"));
    assert!(!looks_like_http_1x_request_line("GET  HTTP/1.1"));
    assert!(!looks_like_http_1x_request_line("GET / x HTTP/1.1"));
    assert_eq!(parse_http_host_header_value(" A.Example:443 ").unwrap(), "a.example");
    assert_eq!(parse_http_host_header_value("  "), Err(HttpSniffError::ParseError));
    assert_eq!(parse_http_host_header_value("[::1]:80"), Err(HttpSniffError::InvalidHostname));
}

#[test]
fn an_http_answer_is_final() {
    let head: &[u8] = b"GET / HTTP/1.1\r\nHost: One.Example\r\n\r\n";
    let more: &[u8] = b"Host: two.example\r\n\r\n";
    let all = [head, more].concat();
    assert_eq!(sniff_http_host_from_prefix(head, 16).unwrap(), "one.example");
    assert_eq!(sniff_http_host_from_prefix(&all, 16).unwrap(), "one.example");
    let wrong: &[u8] = b"NOTHING\r\n";
    let all = [wrong, head].concat();
    assert_eq!(sniff_http_host_from_prefix(wrong, 16), Err(HttpSniffError::ProtocolNotMatched));
    assert_eq!(sniff_http_host_from_prefix(&all, 16), Err(HttpSniffError::ProtocolNotMatched));
}

#[test]
fn http_faults_have_their_errors() {
    assert_eq!(sniff_http_host_from_prefix(b"", 4096), Err(HttpSniffError::PeekEmpty));
    assert_eq!(
        sniff_http_host_from_prefix(&[0x16, 0x03, 0x01], 4096),
        Err(HttpSniffError::ProtocolNotMatched)
    );
    assert_eq!(
        sniff_http_host_from_prefix(b"GET / HTTP/1.1\r\nHost: a.b\r\n", 4096),
        Err(HttpSniffError::InsufficientPrefix)
    );
    assert_eq!(
        sniff_http_host_from_prefix(b"GET / HTTP/1.1\r\nHost: a.b\r\n", 10),
        Err(HttpSniffError::TooLargeHeader)
    );
    assert_eq!(
        sniff_http_host_from_prefix(b"GET / HTTP/1.1\r\nAccept: *\r\n\r\n", 4096),
        Err(HttpSniffError::HttpNoHost)
    );
    assert_eq!(
        sniff_http_host_from_prefix(b"GET / HTTP/1.1\r\nHost: a_b\r\n\r\n", 4096),
        Err(HttpSniffError::InvalidHostname)
    );
}

#[test]
fn a_search_looks_further_each_time() {
    let engine = TlsSniffer::new(8, 64, 2, 10, 100);
    let cfg = SniffConfig { tcp_peek_buffer_size: 40 };
    let mut run = SniffRun::start(&engine, &cfg);
    assert_eq!((run.peek_len, run.max_len, run.attempt), (8, 40, 0));
    let some = [0x16, 0x03, 0x03, 0x00, 0x30, 0x01, 0x00, 0x00];
    assert!(matches!(
        run.on_peek(&engine, &some),
        SniffStep::AwaitGrowth { len: 16, seen: 8 }
    ));
    assert!(matches!(run.on_wait(true), SniffStep::Peek { len: 16 }));
    assert!(matches!(run.on_peek(&engine, &some), SniffStep::GiveUp));

    let mut run = SniffRun::start(&engine, &cfg);
    run.on_peek(&engine, &some);
    assert!(matches!(run.on_wait(false), SniffStep::GiveUp));

    let hs = make_client_hello_handshake("a.example");
    let rec = make_tls_record(0x16, 0x03, 0x03, &hs);
    let wide = TlsSniffer::new(2048, 4096, 2, 10, 100);
    let mut run = SniffRun::start(&wide, &SniffConfig { tcp_peek_buffer_size: 4096 });
    match run.on_peek(&wide, &rec) {
        SniffStep::Found(host) => assert_eq!(host, "a.example"),
        _ => panic!("no host"),
    }

    let http = HttpSniffer::new(512, 1024, 2, 10, 100);
    assert!(matches!(run.on_peek(&http, &rec), SniffStep::GiveUp));
}
