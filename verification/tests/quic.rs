use aes::cipher::{Block, BlockCipherEncrypt, KeyInit};
use aes::Aes128;
use aes_gcm::aead::{Aead, Payload};
use aes_gcm::{Aes128Gcm, Nonce};
use xtp_rs::sniff::quic::{
    derive_quic_initial_keys, hkdf_expand_label, quic_build_nonce, quic_initial_salt,
    quic_parse_initial_frames, quic_parse_tls_client_hello_from_crypto, quic_read_u32,
    quic_read_varint, quic_remove_header_protection_and_decrypt, quic_skip_ack_frame,
    quic_skip_connection_close_frame, quic_unprotect_header, quic_varint_len,
    sniff_quic_sni_from_datagram_with_reassembly, QuicCryptoReassembly, QuicSniUdpSniffer,
    QUIC_CRYPTO_REASSEMBLY_CAP, QUIC_VERSION_DRAFT29, QUIC_VERSION_V1, QUIC_VERSION_V2,
};
use xtp_rs::sniff::udp::{
    udp_sniff_error_reason, udp_sniff_protocol_name, UdpSniffError, UdpSniffOutcome,
    UdpSniffProtocol, UdpSnifferEngine, UdpSnifferSessionEngine,
};
use xtp_rs::util::hex_encode;

const DCID: [u8; 8] = [0x83, 0x94, 0xc8, 0xf0, 0x3e, 0x51, 0x57, 0x08];

#[test]
fn quic_varint_1byte() {
    let buf = [0x3fu8];
    let mut off = 0;
    assert_eq!(quic_read_varint(&buf, &mut off).unwrap(), 63);
    assert_eq!(off, 1);
}

#[test]
fn quic_varint_2byte() {
    let buf = [0x40u8 | 0x3f, 0xff];
    let mut off = 0;
    let val = quic_read_varint(&buf, &mut off).unwrap();
    assert_eq!(val, 0x3fff);
    assert_eq!(off, 2);
}

#[test]
fn quic_varint_4byte() {
    let buf = [0x80u8 | 0x3f, 0xff, 0xff, 0xff];
    let mut off = 0;
    let val = quic_read_varint(&buf, &mut off).unwrap();
    assert_eq!(val, 0x3fffffff);
    assert_eq!(off, 4);
}

#[test]
fn quic_varint_8byte() {
    let buf = [0xc0u8, 0, 0, 0, 0, 0, 0, 1];
    let mut off = 0;
    let val = quic_read_varint(&buf, &mut off).unwrap();
    assert_eq!(val, 1);
    assert_eq!(off, 8);
}

#[test]
fn quic_varint_insufficient() {
    let buf = [0x80u8];
    let mut off = 0;
    assert_eq!(quic_read_varint(&buf, &mut off), Err(UdpSniffError::InsufficientPrefix));
}

#[test]
fn reassembly_contiguous() {
    let mut r = QuicCryptoReassembly::new();
    r.write(0, b"hello").unwrap();
    assert_eq!(r.contiguous(), b"hello");
}

#[test]
fn reassembly_out_of_order() {
    let mut r = QuicCryptoReassembly::new();
    r.write(3, b"lo").unwrap();
    r.write(0, b"hel").unwrap();
    assert_eq!(r.contiguous(), b"hello");
}

#[test]
fn reassembly_gap() {
    let mut r = QuicCryptoReassembly::new();
    r.write(0, b"hel").unwrap();
    r.write(10, b"lo").unwrap();
    assert_eq!(r.contiguous(), b"hel");
}

#[test]
fn reassembly_capacity_exceeded() {
    let mut r = QuicCryptoReassembly::new();
    assert!(r.write(QUIC_CRYPTO_REASSEMBLY_CAP, b"x").is_err());
    assert_eq!(
        r.write(QUIC_CRYPTO_REASSEMBLY_CAP - 1, b"xy"),
        Err(UdpSniffError::TooLarge)
    );
    assert!(r.write(QUIC_CRYPTO_REASSEMBLY_CAP - 1, b"x").is_ok());
}

#[test]
fn parse_crypto_handshake_not_client_hello() {
    let crypto = vec![0x02, 0x00, 0x00, 0x05, 0x01, 0x02, 0x03, 0x04, 0x05];
    assert_eq!(
        quic_parse_tls_client_hello_from_crypto(&crypto),
        Err(UdpSniffError::ProtocolNotMatched)
    );
}

#[test]
fn initial_keys_are_those_of_the_standard() {
    let keys = derive_quic_initial_keys(QUIC_VERSION_V1, &DCID).unwrap();
    assert_eq!(hex_encode(&keys.key), "1f369613dd76d5467730efcbe3b1a22d");
    assert_eq!(hex_encode(&keys.iv), "fa044b2f42a3fd3b46fb255c");
    assert_eq!(hex_encode(&keys.hp_key), "9f50449e04a0e810283a1e9933adedd2");
    assert!(derive_quic_initial_keys(QUIC_VERSION_V2, &DCID).is_ok());
    assert!(derive_quic_initial_keys(QUIC_VERSION_DRAFT29, &DCID).is_ok());
    assert!(matches!(
        derive_quic_initial_keys(0x1234, &DCID),
        Err(UdpSniffError::ProtocolNotMatched)
    ));
    assert!(quic_initial_salt(0).is_none());
    assert_eq!(
        hex_encode(&quic_initial_salt(QUIC_VERSION_V1).unwrap()),
        "38762cf7f55934b34d179ae6a4c80cadccbb7f0a"
    );
}

#[test]
fn labels_have_limits() {
    assert_eq!(hkdf_expand_label(&[1u8; 32], "x", &[], 7).unwrap().len(), 7);
    assert_eq!(hkdf_expand_label(&[1u8; 31], "x", &[], 7), Err(UdpSniffError::ParseError));
    assert_eq!(hkdf_expand_label(&[1u8; 32], "x", &[], 8161), Err(UdpSniffError::ParseError));
    let long = "x".repeat(250);
    assert_eq!(hkdf_expand_label(&[1u8; 32], &long, &[], 7), Err(UdpSniffError::ParseError));
    assert_eq!(
        hkdf_expand_label(&[1u8; 32], "x", &[0u8; 256], 7),
        Err(UdpSniffError::ParseError)
    );
}

#[test]
fn numbers_are_read_from_bytes() {
    assert_eq!(quic_read_u32(&[9, 0x6b, 0x33, 0x43, 0xcf], 1), Ok(QUIC_VERSION_V2));
    assert_eq!(quic_read_u32(&[1, 2, 3], 0), Err(UdpSniffError::InsufficientPrefix));
    assert_eq!(
        [quic_varint_len(0x3f), quic_varint_len(0x40), quic_varint_len(0x80), quic_varint_len(0xc0)],
        [1, 2, 4, 8]
    );
    assert_eq!(
        quic_build_nonce(&[0, 0, 0, 0, 1, 2, 3, 4, 5, 6, 7, 8], 0x0102),
        [0, 0, 0, 0, 1, 2, 3, 4, 5, 6, 7 ^ 1, 8 ^ 2]
    );
}

#[test]
fn frames_are_skipped() {
    let mut off = 0;
    assert!(quic_skip_ack_frame(2, &[5, 0, 1, 0, 1, 2, 9], &mut off).is_ok());
    assert_eq!(off, 6);
    let mut off = 0;
    assert!(quic_skip_ack_frame(3, &[5, 0, 0, 0, 1, 2, 3, 9], &mut off).is_ok());
    assert_eq!(off, 7);
    let mut off = 0;
    assert_eq!(
        quic_skip_ack_frame(2, &[5, 0, 1, 0], &mut off),
        Err(UdpSniffError::InsufficientPrefix)
    );
    let mut off = 0;
    assert!(quic_skip_connection_close_frame(&[1, 2, 3, 7, 7, 7, 9], &mut off).is_ok());
    assert_eq!(off, 6);
}

#[test]
fn frames_bring_pieces() {
    let mut crypto = QuicCryptoReassembly::new();
    let frames = [0x00, 0x01, 0x06, 0x03, 0x02, b'l', b'o', 0x06, 0x00, 0x03, b'h', b'e', b'l'];
    assert!(quic_parse_initial_frames(&frames, &mut crypto).is_ok());
    assert_eq!(crypto.contiguous(), b"hello");
    let mut crypto = QuicCryptoReassembly::new();
    assert_eq!(
        quic_parse_initial_frames(&[0x06, 0x00, 0x05, b'x'], &mut crypto),
        Err(UdpSniffError::InsufficientPrefix)
    );
}

#[test]
fn headers_lose_their_protection() {
    let mut packet = vec![0xc0u8 ^ 0x03];
    packet.extend_from_slice(&[0u8; 4]);
    packet.extend_from_slice(&[0x11, 0x22, 0x33, 0x44, 0x55]);
    let mask = [0x02u8, 0x10, 0x20, 0x30, 0x40, 0, 0, 0, 0, 0, 0, 0, 0, 0, 0, 0];
    let plain = quic_unprotect_header(&packet, 0, 5, &mask);
    assert_eq!(plain.header[0], 0xc1);
    assert_eq!(plain.payload_at, 7);
    assert_eq!(plain.packet_number, 0x0102);
    assert_eq!(&plain.header[5..], &[0x01, 0x02]);
}

fn client_hello(host: &str) -> Vec<u8> {
    let name = host.as_bytes();
    let mut body = vec![0x03, 0x03];
    body.extend_from_slice(&[7u8; 32]);
    body.push(0);
    body.extend_from_slice(&[0x00, 0x02, 0x13, 0x01, 0x01, 0x00]);
    let mut ext = vec![0x00, 0x00];
    ext.extend_from_slice(&((name.len() + 5) as u16).to_be_bytes());
    ext.extend_from_slice(&((name.len() + 3) as u16).to_be_bytes());
    ext.push(0);
    ext.extend_from_slice(&(name.len() as u16).to_be_bytes());
    ext.extend_from_slice(name);
    body.extend_from_slice(&(ext.len() as u16).to_be_bytes());
    body.extend_from_slice(&ext);
    let mut hello = vec![0x01, 0x00];
    hello.extend_from_slice(&(body.len() as u16).to_be_bytes());
    hello.extend_from_slice(&body);
    hello
}

fn crypto_frame(offset: u16, data: &[u8]) -> Vec<u8> {
    let mut f = vec![0x06];
    f.extend_from_slice(&(0x4000 | offset).to_be_bytes());
    f.extend_from_slice(&(0x4000 | data.len() as u16).to_be_bytes());
    f.extend_from_slice(data);
    f
}

fn seal(dcid: &[u8], packet_number: u64, mut frames: Vec<u8>) -> Vec<u8> {
    while frames.len() < 32 {
        frames.push(0);
    }
    let keys = derive_quic_initial_keys(QUIC_VERSION_V1, dcid).unwrap();
    let mut header = vec![0xc1u8, 0, 0, 0, 1, dcid.len() as u8];
    header.extend_from_slice(dcid);
    header.extend_from_slice(&[0, 0]);
    let len = 2 + frames.len() + 16;
    header.extend_from_slice(&(0x4000 | len as u16).to_be_bytes());
    let pn_at = header.len();
    header.extend_from_slice(&(packet_number as u16).to_be_bytes());
    let nonce = quic_build_nonce(&keys.iv, packet_number);
    let sealed = Aes128Gcm::new(&keys.key.into())
        .encrypt(&Nonce::from(nonce), Payload { msg: &frames, aad: &header })
        .unwrap();
    let mut packet = header;
    packet.extend_from_slice(&sealed);
    let mut sample = [0u8; 16];
    sample.copy_from_slice(&packet[pn_at + 4..pn_at + 20]);
    let mut mask = Block::<Aes128>::from(sample);
    Aes128::new(&keys.hp_key.into()).encrypt_block(&mut mask);
    packet[0] ^= mask[0] & 0x0f;
    packet[pn_at] ^= mask[1];
    packet[pn_at + 1] ^= mask[2];
    packet
}

#[test]
fn a_sealed_hello_is_read() {
    let packet = seal(&DCID, 3, crypto_frame(0, &client_hello("QUIC.Example.com")));
    let mut crypto = QuicCryptoReassembly::new();
    assert_eq!(
        sniff_quic_sni_from_datagram_with_reassembly(&packet, &mut crypto).unwrap(),
        "quic.example.com"
    );
    let mut damaged = packet.clone();
    let last = damaged.len() - 1;
    damaged[last] ^= 1;
    let mut crypto = QuicCryptoReassembly::new();
    assert_eq!(
        sniff_quic_sni_from_datagram_with_reassembly(&damaged, &mut crypto),
        Err(UdpSniffError::ProtocolNotMatched)
    );
}

#[test]
fn decrypted_frames_are_the_sealed_ones() {
    let frames = crypto_frame(0, &[9u8; 40]);
    let packet = seal(&DCID, 0x0102, frames.clone());
    let keys = derive_quic_initial_keys(QUIC_VERSION_V1, &DCID).unwrap();
    let pn_at = 6 + DCID.len() + 2 + 2;
    let plain =
        quic_remove_header_protection_and_decrypt(&packet, 0, pn_at, packet.len(), &keys).unwrap();
    assert_eq!(plain, frames);
}

#[test]
fn a_hello_in_two_datagrams_is_read() {
    let hello = client_hello("two.example");
    let cut = 20;
    let mut session = QuicSniUdpSniffer.new_session();
    let second = seal(&DCID, 2, crypto_frame(cut as u16, &hello[cut..]));
    assert!(matches!(session.feed(&second), UdpSniffOutcome::NeedMore { .. }));
    let first = seal(&DCID, 1, crypto_frame(0, &hello[..cut]));
    match session.feed(&first) {
        UdpSniffOutcome::Matched { protocol, host } => {
            assert_eq!(protocol, UdpSniffProtocol::QuicSni);
            assert_eq!(host, "two.example");
        }
        other => panic!("{:?}", other),
    }
}

#[test]
fn another_destination_starts_anew() {
    let hello = client_hello("two.example");
    let cut = 20;
    let mut session = QuicSniUdpSniffer.new_session();
    session.feed(&seal(&DCID, 1, crypto_frame(0, &hello[..cut])));
    let other = seal(&[1, 2, 3, 4], 1, crypto_frame(cut as u16, &hello[cut..]));
    assert!(matches!(session.feed(&other), UdpSniffOutcome::NeedMore { .. }));
    let rest = seal(&[1, 2, 3, 4], 2, crypto_frame(0, &hello[..cut]));
    assert!(matches!(session.feed(&rest), UdpSniffOutcome::Matched { .. }));
}

#[test]
fn coalesced_packets_are_all_read() {
    let hello = client_hello("both.example");
    let mut datagram = seal(&DCID, 1, crypto_frame(0, &hello[..30]));
    datagram.extend_from_slice(&seal(&DCID, 2, crypto_frame(30, &hello[30..])));
    let mut crypto = QuicCryptoReassembly::new();
    assert_eq!(
        sniff_quic_sni_from_datagram_with_reassembly(&datagram, &mut crypto).unwrap(),
        "both.example"
    );
}

#[test]
fn other_datagrams_are_no_quic() {
    let mut session = QuicSniUdpSniffer.new_session();
    assert!(matches!(session.feed(b"\x12\x34dns"), UdpSniffOutcome::NotMatched));
    assert!(matches!(
        session.feed(&[0xc0, 0, 0, 0, 9, 0, 0, 0]),
        UdpSniffOutcome::NotMatched
    ));
    assert!(matches!(session.feed(&[]), UdpSniffOutcome::NeedMore { .. }));
    let bad = seal(&DCID, 1, crypto_frame(0, &client_hello("bad_name")));
    assert!(matches!(
        session.feed(&bad),
        UdpSniffOutcome::Failed { error: UdpSniffError::InvalidHostname, .. }
    ));
}

#[test]
fn words_for_outcomes() {
    assert_eq!(QuicSniUdpSniffer.name(), "quic_sni");
    assert_eq!(udp_sniff_protocol_name(UdpSniffProtocol::QuicSni), "quic_sni");
    assert_eq!(udp_sniff_error_reason(UdpSniffError::TooLarge), "too_large");
    assert_eq!(udp_sniff_error_reason(UdpSniffError::NoTarget), "no_target");
}
