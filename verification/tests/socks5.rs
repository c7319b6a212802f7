use xtp_rs::net::{IpAddr, Ipv4Addr, Ipv6Addr, SocketAddr};
use xtp_rs::socks5::{
    associate_request, build_socks5_udp_packet, connect_request,
    parse_socks5_udp_packet_with_fallback_src, relay_addr_for, relay_target, DialogAction,
    DomainLengthError, RelayTarget, ReplyAddr, Socks5Dialog, Socks5Error, Socks5Target,
    Socks5UdpTarget, UdpPacketError,
};

fn v4(a: u8, b: u8, c: u8, d: u8, port: u16) -> SocketAddr {
    SocketAddr::new(IpAddr::V4(Ipv4Addr { bits: u32::from_be_bytes([a, b, c, d]) }), port)
}

fn v6(bits: u128, port: u16) -> SocketAddr {
    SocketAddr::new(IpAddr::V6(Ipv6Addr { bits }), port)
}

#[test]
fn datagrams_come_back_as_they_were_sent() {
    let fallback = v4(9, 9, 9, 9, 9);
    for target in [v4(1, 2, 3, 4, 53), v6(1, 443)] {
        let packet = build_socks5_udp_packet(Socks5UdpTarget::Ip(target), b"data").unwrap();
        let (src, payload) = parse_socks5_udp_packet_with_fallback_src(&packet, fallback).unwrap();
        assert_eq!((src, payload), (target, &b"data"[..]));
    }
    let domain = Socks5UdpTarget::Domain { host: "a.example", port: 53 };
    let packet = build_socks5_udp_packet(domain, b"data").unwrap();
    assert_eq!(&packet[..5], &[0, 0, 0, 3, 9]);
    let (src, payload) = parse_socks5_udp_packet_with_fallback_src(&packet, fallback).unwrap();
    assert_eq!((src, payload), (fallback, &b"data"[..]));
}

#[test]
fn datagram_bytes_are_exact() {
    let packet = build_socks5_udp_packet(Socks5UdpTarget::Ip(v4(1, 2, 3, 4, 258)), b"x").unwrap();
    assert_eq!(packet, vec![0, 0, 0, 1, 1, 2, 3, 4, 1, 2, b'x']);
    let long = "a".repeat(256);
    let target = Socks5UdpTarget::Domain { host: &long, port: 1 };
    assert_eq!(build_socks5_udp_packet(target, b"x"), Err(DomainLengthError { len: 256 }));
    let empty = Socks5UdpTarget::Domain { host: "", port: 1 };
    assert_eq!(build_socks5_udp_packet(empty, b"x"), Err(DomainLengthError { len: 0 }));
}

#[test]
fn every_bad_datagram_has_its_error() {
    let parse = |b: &[u8]| {
        parse_socks5_udp_packet_with_fallback_src(b, v4(0, 0, 0, 0, 0)).unwrap_err()
    };
    assert_eq!(parse(&[0, 0, 0]), UdpPacketError::TooShort);
    assert_eq!(parse(&[0, 1, 0, 1, 0, 0, 0, 0, 0, 0]), UdpPacketError::Reserved);
    assert_eq!(parse(&[0, 0, 1, 1, 0, 0, 0, 0, 0, 0]), UdpPacketError::Fragmented);
    assert_eq!(parse(&[0, 0, 0, 1, 0, 0, 0, 0, 0]), UdpPacketError::ShortIpv4);
    assert_eq!(parse(&[0, 0, 0, 4, 0, 0, 0, 0, 0]), UdpPacketError::ShortIpv6);
    assert_eq!(parse(&[0, 0, 0, 3]), UdpPacketError::ShortDomain);
    assert_eq!(parse(&[0, 0, 0, 3, 2, b'a', b'b', 0]), UdpPacketError::ShortDomainAddress);
    assert_eq!(parse(&[0, 0, 0, 9, 0, 0]), UdpPacketError::AddressType { atyp: 9 });
}

#[test]
fn requests_are_exact() {
    assert_eq!(
        connect_request(Socks5Target::Ip(v4(1, 2, 3, 4, 80))).unwrap(),
        vec![5, 1, 0, 1, 1, 2, 3, 4, 0, 80]
    );
    assert_eq!(
        connect_request(Socks5Target::Domain("ab", 443)).unwrap(),
        vec![5, 1, 0, 3, 2, b'a', b'b', 1, 187]
    );
    assert!(connect_request(Socks5Target::Domain(&"a".repeat(256), 1)).is_none());
    assert_eq!(associate_request(v4(1, 2, 3, 4, 80)), vec![5, 3, 0, 1, 0, 0, 0, 0, 0, 0]);
    assert_eq!(associate_request(v6(1, 80))[3], 4);
}

fn exchange(action: DialogAction) -> (Vec<u8>, usize) {
    match action {
        DialogAction::Exchange { send, expect } => (send, expect),
        _ => panic!("no exchange"),
    }
}

#[test]
fn a_dialog_without_a_password() {
    let request = connect_request(Socks5Target::Ip(v4(1, 2, 3, 4, 80)));
    let (mut d, first) = Socks5Dialog::start(None, request.clone()).unwrap();
    assert_eq!(exchange(first), (vec![5, 1, 0], 2));
    assert_eq!(d.expected(), 2);
    assert_eq!(exchange(d.on_bytes(&[5, 0])), (request.unwrap(), 4));
    assert!(matches!(d.on_bytes(&[5, 0, 0, 1]), DialogAction::Read { expect: 6 }));
    match d.on_bytes(&[9, 8, 7, 6, 1, 2]) {
        DialogAction::Accepted(ReplyAddr::Ip(a)) => assert_eq!(a, v4(9, 8, 7, 6, 258)),
        _ => panic!("not accepted"),
    }
    assert_eq!(d.expected(), 0);
    assert!(matches!(d.on_bytes(&[]), DialogAction::Ended));
}

#[test]
fn a_dialog_with_a_password() {
    let request = connect_request(Socks5Target::Domain("ab", 443));
    let (mut d, first) = Socks5Dialog::start(Some(("me", "pw")), request.clone()).unwrap();
    let (send, expect) = exchange(first);
    assert_eq!((send.as_slice(), expect), (&[5u8, 2, 0, 2][..], 2));
    assert_eq!(
        exchange(d.on_bytes(&[5, 2])),
        (vec![1, 2, b'm', b'e', 2, b'p', b'w'], 2)
    );
    assert_eq!(exchange(d.on_bytes(&[1, 0])), (request.unwrap(), 4));
    assert!(matches!(d.on_bytes(&[5, 0, 0, 3]), DialogAction::Read { expect: 1 }));
    assert!(matches!(d.on_bytes(&[3]), DialogAction::Read { expect: 5 }));
    match d.on_bytes(&[b'x', b'.', b'y', 0, 9]) {
        DialogAction::Accepted(ReplyAddr::Domain { host, port }) => {
            assert_eq!((host.as_slice(), port), (&b"x.y"[..], 9));
        }
        _ => panic!("not accepted"),
    }
}

fn failure(creds: Option<(&str, &str)>, replies: &[&[u8]]) -> Socks5Error {
    let (mut d, _) = Socks5Dialog::start(creds, Some(associate_request(v4(1, 1, 1, 1, 1)))).unwrap();
    for (i, r) in replies.iter().enumerate() {
        match d.on_bytes(r) {
            DialogAction::Failed(e) => {
                assert_eq!(i + 1, replies.len());
                return e;
            }
            DialogAction::Ended => panic!("ended"),
            _ => {}
        }
    }
    panic!("no failure")
}

#[test]
fn every_refusal_has_its_error() {
    let me = Some(("me", "pw"));
    assert_eq!(failure(me, &[&[4, 0]]), Socks5Error::MethodVersion);
    assert_eq!(failure(me, &[&[5, 0]]), Socks5Error::NoAuthChosen);
    assert_eq!(failure(me, &[&[5, 0xff]]), Socks5Error::AuthMethod { method: 0xff });
    assert_eq!(failure(me, &[&[5, 2], &[1, 1]]), Socks5Error::AuthRejected);
    assert_eq!(failure(None, &[&[5, 2]]), Socks5Error::NoAuthFailed);
    assert_eq!(failure(None, &[&[5, 0], &[4, 0, 0, 1]]), Socks5Error::ReplyVersion { version: 4 });
    assert_eq!(failure(None, &[&[5, 0], &[5, 5, 0, 1]]), Socks5Error::ReplyCode { code: 5 });
    assert_eq!(failure(None, &[&[5, 0], &[5, 0, 7, 1]]), Socks5Error::ReplyReserved { byte: 7 });
    assert_eq!(
        failure(None, &[&[5, 0], &[5, 0, 0, 9]]),
        Socks5Error::ReplyAddressType { atyp: 9 }
    );
    let long = "a".repeat(256);
    assert!(matches!(
        Socks5Dialog::start(Some((&long, "p")), Some(vec![])),
        Err(Socks5Error::CredentialLength)
    ));
    let request = connect_request(Socks5Target::Domain(&long, 1));
    let (mut d, _) = Socks5Dialog::start(None, request).unwrap();
    assert!(matches!(d.on_bytes(&[5, 0]), DialogAction::Failed(Socks5Error::DomainLength)));
}

#[test]
fn relays_without_an_address_are_at_the_server() {
    let server = v4(5, 6, 7, 8, 1080);
    assert_eq!(relay_addr_for(v4(0, 0, 0, 0, 99), server), v4(5, 6, 7, 8, 99));
    assert_eq!(relay_addr_for(v4(1, 1, 1, 1, 99), server), v4(1, 1, 1, 1, 99));
    assert_eq!(relay_addr_for(v6(0, 99), server), v4(5, 6, 7, 8, 99));
    match relay_target(ReplyAddr::Domain { host: b"r.example".to_vec(), port: 7 }, server) {
        RelayTarget::Resolve { host, port } => assert_eq!((host.as_str(), port), ("r.example", 7)),
        _ => panic!("not to be resolved"),
    }
    assert!(matches!(
        relay_target(ReplyAddr::Domain { host: vec![0xff], port: 7 }, server),
        RelayTarget::BadName
    ));
    assert!(matches!(
        relay_target(ReplyAddr::Ip(v4(0, 0, 0, 0, 9)), server),
        RelayTarget::Addr(a) if a == v4(5, 6, 7, 8, 9)
    ));
}
